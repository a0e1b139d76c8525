use bitdispatch::table::{
    BitMapping, GenericArg, HandlerSpec, InstructionEntry, InstructionTable, VariableBinding,
};

fn plain_entry(pattern: &str, handler: &str) -> InstructionEntry {
    InstructionEntry {
        pattern: pattern.to_string(),
        handler: HandlerSpec {
            name: handler.to_string(),
            generics: Vec::new(),
        },
        bindings: Vec::new(),
    }
}

#[test]
fn exact_pattern_matches_only_its_own_opcode() {
    let table = InstructionTable {
        entries: vec![plain_entry("00011000", "Clc")],
    };
    let compiled = table.compile().unwrap();
    let hit = compiled.dispatch(0x18).unwrap();
    assert_eq!(hit.invocation.handler, "Clc");
    for opcode in 0..=0xFFu64 {
        let matched = compiled.dispatch(opcode).is_ok();
        assert_eq!(matched, opcode == 0x18);
    }
}

#[test]
fn wildcard_entry_matches_the_whole_masked_range() {
    let table = InstructionTable {
        entries: vec![plain_entry("1010____", "out")],
    };
    let compiled = table.compile().unwrap();
    for opcode in 0..=0xFFu64 {
        let matched = compiled.dispatch(opcode).is_ok();
        assert_eq!(matched, opcode & 0xF0 == 0xA0);
    }
}

#[test]
fn register_scenario_dispatches_with_extracted_tag() {
    let table = InstructionTable {
        entries: vec![InstructionEntry {
            pattern: "11rr____".to_string(),
            handler: HandlerSpec {
                name: "impl_add".to_string(),
                generics: vec![GenericArg::Variable {
                    enum_type: "Register".to_string(),
                    var: 'r',
                }],
            },
            bindings: vec![VariableBinding {
                name: 'r',
                mappings: vec![
                    BitMapping { bits: "00".to_string(), tag: "R0".to_string() },
                    BitMapping { bits: "01".to_string(), tag: "R1".to_string() },
                    BitMapping { bits: "10".to_string(), tag: "R2".to_string() },
                    BitMapping { bits: "11".to_string(), tag: "R3".to_string() },
                ],
            }],
        }],
    };
    let compiled = table.compile().unwrap();
    let opcode: u64 = 0xCA;
    let hit = compiled.dispatch(opcode).unwrap();
    assert_eq!(hit.invocation.handler, "impl_add");
    match &hit.invocation.args[0] {
        bitdispatch::decision::ResolvedArg::Tagged { enum_type, variant } => {
            assert_eq!(enum_type, "Register");
            assert_eq!(variant, "R0");
        }
        other => panic!("expected a tagged argument, got {:?}", other),
    }
    let immediate = opcode & 0x0F;
    assert_eq!(immediate, 0xA);
}

#[test]
fn exact_entry_declared_first_beats_later_wildcard() {
    let table = InstructionTable {
        entries: vec![
            plain_entry("00111110", "exact"),
            plain_entry("0011____", "guard"),
        ],
    };
    let compiled = table.compile().unwrap();
    assert_eq!(compiled.dispatch(0x3E).unwrap().invocation.handler, "exact");
    assert_eq!(compiled.dispatch(0x31).unwrap().invocation.handler, "guard");
}

#[test]
fn later_guard_does_not_reclaim_precisely_owned_value() {
    let table = InstructionTable {
        entries: vec![
            plain_entry("00110000", "exact"),
            plain_entry("0011____", "guard"),
        ],
    };
    let compiled = table.compile().unwrap();
    assert_eq!(compiled.entries.len(), 1);
    assert_eq!(compiled.dispatch(0x30).unwrap().invocation.handler, "exact");
    assert!(compiled.dispatch(0x31).is_err());
}

#[test]
fn unmatched_opcode_reports_the_raw_opcode() {
    let table = InstructionTable {
        entries: vec![plain_entry("00011000", "Clc")],
    };
    let compiled = table.compile().unwrap();
    let err = compiled.dispatch(0xAB).unwrap_err();
    assert_eq!(err.opcode, 0xAB);
    let message = err.message();
    assert_eq!(message, "Unhandled opcode: 0xAB");
    assert!(message.contains("AB"));
}

#[test]
fn unmatched_message_pads_small_opcodes_to_two_digits() {
    let table = InstructionTable { entries: Vec::new() };
    let compiled = table.compile().unwrap();
    let err = compiled.dispatch(0x05).unwrap_err();
    assert_eq!(err.message(), "Unhandled opcode: 0x05");
    let err = compiled.dispatch(0x1234).unwrap_err();
    assert_eq!(err.message(), "Unhandled opcode: 0x1234");
    let err = compiled.dispatch(u64::MAX).unwrap_err();
    assert_eq!(err.message(), "Unhandled opcode: 0xFFFFFFFFFFFFFFFF");
}

#[test]
fn sixteen_bit_patterns_dispatch() {
    let table = InstructionTable {
        entries: vec![plain_entry("1010101010101010", "wide")],
    };
    let compiled = table.compile().unwrap();
    assert_eq!(compiled.dispatch(0xAAAA).unwrap().invocation.handler, "wide");
    assert!(compiled.dispatch(0xAAAB).is_err());
}

#[test]
fn catch_all_entry_accepts_everything() {
    let table = InstructionTable {
        entries: vec![
            plain_entry("00000001", "one"),
            plain_entry("________", "any"),
        ],
    };
    let compiled = table.compile().unwrap();
    assert_eq!(compiled.dispatch(0x01).unwrap().invocation.handler, "one");
    assert_eq!(compiled.dispatch(0x00).unwrap().invocation.handler, "any");
    assert_eq!(compiled.dispatch(0x42).unwrap().invocation.handler, "any");
    assert_eq!(compiled.dispatch(0xFF).unwrap().invocation.handler, "any");
}

#[test]
fn table_len_counts_decision_entries() {
    let table = InstructionTable {
        entries: vec![plain_entry("00000000", "zero"), plain_entry("00000001", "one")],
    };
    let compiled = table.compile().unwrap();
    assert_eq!(compiled.len(), 2);
}
