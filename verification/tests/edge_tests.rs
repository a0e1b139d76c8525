use bitdispatch::table::{
    BitMapping, GenericArg, HandlerSpec, InstructionEntry, InstructionTable, VariableBinding,
};

fn entry(
    pattern: &str,
    handler: &str,
    generics: Vec<GenericArg>,
    bindings: Vec<VariableBinding>,
) -> InstructionEntry {
    InstructionEntry {
        pattern: pattern.to_string(),
        handler: HandlerSpec {
            name: handler.to_string(),
            generics,
        },
        bindings,
    }
}

fn binding(name: char, pairs: &[(&str, &str)]) -> VariableBinding {
    let mut mappings = Vec::new();
    for (bits, tag) in pairs {
        mappings.push(BitMapping {
            bits: bits.to_string(),
            tag: tag.to_string(),
        });
    }
    VariableBinding { name, mappings }
}

#[test]
fn binding_without_matching_pattern_variable_is_ignored() {
    let table = InstructionTable {
        entries: vec![entry(
            "11______",
            "op",
            Vec::new(),
            vec![binding('z', &[("0", "A"), ("1", "B")])],
        )],
    };
    let compiled = table.compile().unwrap();
    assert_eq!(compiled.entries.len(), 1);
    assert_eq!(compiled.entries[0].mask, 0b1100_0000);
    assert_eq!(compiled.entries[0].value, 0b1100_0000);
}

#[test]
fn empty_enumeration_expands_to_nothing() {
    let table = InstructionTable {
        entries: vec![
            entry("11rr____", "op", Vec::new(), vec![binding('r', &[])]),
            entry("00000000", "zero", Vec::new(), Vec::new()),
        ],
    };
    let compiled = table.compile().unwrap();
    assert_eq!(compiled.entries.len(), 1);
    assert_eq!(compiled.entries[0].invocation.handler, "zero");
}

#[test]
fn upper_case_prefix_literals_bind() {
    let table = InstructionTable {
        entries: vec![entry(
            "1111111r",
            "op",
            vec![GenericArg::Variable {
                enum_type: "Bit".to_string(),
                var: 'r',
            }],
            vec![binding('r', &[("0B0", "Zero"), ("0b1", "One")])],
        )],
    };
    let compiled = table.compile().unwrap();
    assert_eq!(compiled.entries.len(), 2);
    assert_eq!(compiled.entries[0].value, 0xFE);
    assert_eq!(compiled.entries[1].value, 0xFF);
}

#[test]
fn thirty_two_bit_patterns_dispatch() {
    let table = InstructionTable {
        entries: vec![entry(
            "10101010101010101010101010101010",
            "wide",
            Vec::new(),
            Vec::new(),
        )],
    };
    let compiled = table.compile().unwrap();
    assert_eq!(compiled.entries[0].mask, 0xFFFF_FFFF);
    assert!(compiled.dispatch(0xAAAA_AAAA).is_ok());
    assert!(compiled.dispatch(0xAAAA_AAAB).is_err());
}

#[test]
fn single_bit_variable_carries_each_tag() {
    let table = InstructionTable {
        entries: vec![entry(
            "0000000r",
            "op",
            vec![GenericArg::Variable {
                enum_type: "Bit".to_string(),
                var: 'r',
            }],
            vec![binding('r', &[("1", "One"), ("0", "Zero")])],
        )],
    };
    let compiled = table.compile().unwrap();
    assert_eq!(compiled.entries.len(), 2);
    assert_eq!(compiled.entries[0].value, 0x01);
    assert_eq!(compiled.entries[1].value, 0x00);
    match &compiled.entries[0].invocation.args[0] {
        bitdispatch::decision::ResolvedArg::Tagged { variant, .. } => assert_eq!(variant, "One"),
        other => panic!("expected a tagged argument, got {:?}", other),
    }
    match &compiled.entries[1].invocation.args[0] {
        bitdispatch::decision::ResolvedArg::Tagged { variant, .. } => assert_eq!(variant, "Zero"),
        other => panic!("expected a tagged argument, got {:?}", other),
    }
}

#[test]
fn duplicate_expanded_opcode_keeps_first_declared() {
    let table = InstructionTable {
        entries: vec![
            entry("0000000r", "first", Vec::new(), vec![binding('r', &[("0", "A"), ("1", "B")])]),
            entry("00000001", "second", Vec::new(), Vec::new()),
        ],
    };
    let compiled = table.compile().unwrap();
    assert_eq!(compiled.entries.len(), 2);
    assert_eq!(compiled.dispatch(0x01).unwrap().invocation.handler, "first");
}
