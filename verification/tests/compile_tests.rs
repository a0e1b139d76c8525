use bitdispatch::errors::{CompileError, ErrorKind};
use bitdispatch::table::{
    BitMapping, GenericArg, HandlerSpec, InstructionEntry, InstructionTable, VariableBinding,
};

fn plain_entry(pattern: &str, handler: &str) -> InstructionEntry {
    InstructionEntry {
        pattern: pattern.to_string(),
        handler: HandlerSpec {
            name: handler.to_string(),
            generics: Vec::new(),
        },
        bindings: Vec::new(),
    }
}

fn binding(name: char, pairs: &[(&str, &str)]) -> VariableBinding {
    let mut mappings = Vec::new();
    for (bits, tag) in pairs {
        mappings.push(BitMapping {
            bits: bits.to_string(),
            tag: tag.to_string(),
        });
    }
    VariableBinding { name, mappings }
}

fn register_entry() -> InstructionEntry {
    InstructionEntry {
        pattern: "11rr____".to_string(),
        handler: HandlerSpec {
            name: "impl_add".to_string(),
            generics: vec![GenericArg::Variable {
                enum_type: "Register".to_string(),
                var: 'r',
            }],
        },
        bindings: vec![binding(
            'r',
            &[("00", "R0"), ("01", "R1"), ("10", "R2"), ("11", "R3")],
        )],
    }
}

#[test]
fn exact_entry_compiles_to_full_mask() {
    let table = InstructionTable {
        entries: vec![plain_entry("00011000", "Clc")],
    };
    let compiled = table.compile().unwrap();
    assert_eq!(compiled.entries.len(), 1);
    assert_eq!(compiled.entries[0].mask, 0xFF);
    assert_eq!(compiled.entries[0].value, 0x18);
    assert_eq!(compiled.entries[0].invocation.handler, "Clc");
    assert_eq!(compiled.entries[0].invocation.args.len(), 0);
}

#[test]
fn variable_binding_expands_into_all_choices() {
    let table = InstructionTable {
        entries: vec![register_entry()],
    };
    let compiled = table.compile().unwrap();
    assert_eq!(compiled.entries.len(), 4);
    let expected = [
        (0xC0u64, "R0"),
        (0xD0u64, "R1"),
        (0xE0u64, "R2"),
        (0xF0u64, "R3"),
    ];
    for (entry, (value, tag)) in compiled.entries.iter().zip(expected.iter()) {
        assert_eq!(entry.mask, 0xF0);
        assert_eq!(entry.value, *value);
        assert_eq!(entry.invocation.handler, "impl_add");
        assert_eq!(entry.invocation.args.len(), 1);
        match &entry.invocation.args[0] {
            bitdispatch::decision::ResolvedArg::Tagged { enum_type, variant } => {
                assert_eq!(enum_type, "Register");
                assert_eq!(variant, *tag);
            }
            other => panic!("expected a tagged argument, got {:?}", other),
        }
    }
}

#[test]
fn expanded_values_differ_only_at_variable_bits() {
    let table = InstructionTable {
        entries: vec![register_entry()],
    };
    let compiled = table.compile().unwrap();
    let base = compiled.entries[0].value;
    for entry in &compiled.entries {
        assert_eq!(entry.value & !0b0011_0000, base & !0b0011_0000);
    }
}

#[test]
fn two_variables_expand_in_declaration_order() {
    let table = InstructionTable {
        entries: vec![InstructionEntry {
            pattern: "11rrqq00".to_string(),
            handler: HandlerSpec {
                name: "op".to_string(),
                generics: Vec::new(),
            },
            bindings: vec![
                binding('r', &[("0", "A"), ("1", "B")]),
                binding('q', &[("0", "X"), ("1", "Y")]),
            ],
        }],
    };
    let compiled = table.compile().unwrap();
    let values: Vec<u64> = compiled.entries.iter().map(|e| e.value).collect();
    assert_eq!(
        values,
        vec![0b1100_0000, 0b1100_0100, 0b1101_0000, 0b1101_0100]
    );
}

#[test]
fn unbound_variable_degrades_to_masked_match() {
    let table = InstructionTable {
        entries: vec![plain_entry("101000mm", "Load")],
    };
    let compiled = table.compile().unwrap();
    assert_eq!(compiled.entries.len(), 1);
    assert_eq!(compiled.entries[0].mask, 0b1111_1100);
    assert_eq!(compiled.entries[0].value, 0b1010_0000);
}

#[test]
fn fixed_generic_arguments_are_kept() {
    let table = InstructionTable {
        entries: vec![InstructionEntry {
            pattern: "00000001".to_string(),
            handler: HandlerSpec {
                name: "store".to_string(),
                generics: vec![GenericArg::Fixed {
                    text: "Absolute".to_string(),
                }],
            },
            bindings: Vec::new(),
        }],
    };
    let compiled = table.compile().unwrap();
    match &compiled.entries[0].invocation.args[0] {
        bitdispatch::decision::ResolvedArg::Fixed { text } => assert_eq!(text, "Absolute"),
        other => panic!("expected a fixed argument, got {:?}", other),
    }
}

#[test]
fn duplicate_exact_entry_is_dropped() {
    let table = InstructionTable {
        entries: vec![
            plain_entry("00000001", "first"),
            plain_entry("00000001", "second"),
        ],
    };
    let compiled = table.compile().unwrap();
    assert_eq!(compiled.entries.len(), 1);
    assert_eq!(compiled.entries[0].invocation.handler, "first");
}

#[test]
fn compilation_is_deterministic() {
    let build = || InstructionTable {
        entries: vec![register_entry(), plain_entry("00011000", "Clc")],
    };
    let first = build().compile().unwrap();
    let second = build().compile().unwrap();
    assert_eq!(first, second);
}

#[test]
fn pattern_length_error_names_the_entry() {
    let table = InstructionTable {
        entries: vec![plain_entry("00011000", "Clc"), plain_entry("0011", "Nop")],
    };
    assert_eq!(
        table.compile(),
        Err(CompileError {
            entry: 1,
            kind: ErrorKind::PatternLength { len: 4 },
        })
    );
}

#[test]
fn malformed_literal_is_rejected() {
    let table = InstructionTable {
        entries: vec![InstructionEntry {
            pattern: "11rr____".to_string(),
            handler: HandlerSpec {
                name: "op".to_string(),
                generics: Vec::new(),
            },
            bindings: vec![binding('r', &[("0b2", "Bad")])],
        }],
    };
    assert_eq!(
        table.compile(),
        Err(CompileError {
            entry: 0,
            kind: ErrorKind::MalformedLiteral { variable: 'r' },
        })
    );
}

#[test]
fn repeated_literal_value_is_rejected() {
    let table = InstructionTable {
        entries: vec![InstructionEntry {
            pattern: "11rr____".to_string(),
            handler: HandlerSpec {
                name: "op".to_string(),
                generics: Vec::new(),
            },
            bindings: vec![binding('r', &[("00", "A"), ("0b0", "B")])],
        }],
    };
    assert_eq!(
        table.compile(),
        Err(CompileError {
            entry: 0,
            kind: ErrorKind::DuplicateLiteral { variable: 'r' },
        })
    );
}

#[test]
fn unresolved_variable_reference_is_rejected() {
    let table = InstructionTable {
        entries: vec![InstructionEntry {
            pattern: "101000mm".to_string(),
            handler: HandlerSpec {
                name: "Load".to_string(),
                generics: vec![GenericArg::Variable {
                    enum_type: "AddrMode".to_string(),
                    var: 'm',
                }],
            },
            bindings: Vec::new(),
        }],
    };
    assert_eq!(
        table.compile(),
        Err(CompileError {
            entry: 0,
            kind: ErrorKind::UnresolvedVariable { name: 'm' },
        })
    );
}

#[test]
fn noncontiguous_variable_is_rejected() {
    let table = InstructionTable {
        entries: vec![plain_entry("a00a____", "op")],
    };
    assert_eq!(
        table.compile(),
        Err(CompileError {
            entry: 0,
            kind: ErrorKind::NonContiguousVariable { name: 'a' },
        })
    );
}
