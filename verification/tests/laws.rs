use guard2mask::compiler::compile;
use guard2mask::op;
use guard2mask::number::Number;
use guard2mask::parser::{parse_guard, Check, Constraint, Priority};
use guard2mask::solver::{solve, verify_all_binary};
use guard2mask::types::{format_gdsii_summary, generate_gdsii, Assignment, NameMap, TernaryWeight, CSP};
use guard2mask::via_gen::{generate_gdsii_file, generate_patterns, generate_patterns_with_size};

fn constraint(name: &str, checks: Vec<Check>) -> Constraint {
    Constraint { name: name.to_string(), priority: Priority::Hard, checks }
}

#[test]
fn name_map_reads_back_what_was_written() {
    let mut m: NameMap<TernaryWeight> = NameMap::new();
    assert_eq!(m.insert("a".to_string(), TernaryWeight::Neg), None);
    assert_eq!(m.insert("b".to_string(), TernaryWeight::Zero), None);
    assert_eq!(m.get("a"), Some(&TernaryWeight::Neg));
    assert_eq!(m.insert("a".to_string(), TernaryWeight::Pos), Some(TernaryWeight::Neg));
    assert_eq!(m.get("a"), Some(&TernaryWeight::Pos));
    assert_eq!(m.get("b"), Some(&TernaryWeight::Zero));
    assert_eq!(m.get("c"), None);
    assert!(!m.contains_key("c"));
    assert_eq!(m.len(), 2);
    assert_eq!(m.entries()[0].0, "a");
    assert_eq!(m.entries()[1].0, "b");
}

#[test]
fn gdsii_starts_with_header_and_ends_with_endlib() {
    let mut assign = Assignment::new();
    assign.values.insert("v".to_string(), TernaryWeight::Pos);
    for data in [generate_gdsii(&generate_patterns(&Assignment::new())), generate_gdsii_file(&assign)] {
        assert_eq!(data[0..8], [0u8, 8, 0, 2, 0, 3, 0, 0]);
        assert_eq!(data[data.len() - 4..], [0u8, 4, 4, 0]);
    }
}

#[test]
fn gdsii_empty_library_exact_bytes() {
    let data = generate_gdsii(&generate_patterns_with_size(&Assignment::new(), 500));
    let mut expected: Vec<u8> = vec![0, 8, 0, 2, 0, 3, 0, 0];
    expected.extend_from_slice(&[0, 12, 1, 2, 0, 0, 0, 0, 0, 0, 0, 0]);
    // the length counts the pad byte after the 15 bytes of the name
    expected.extend_from_slice(&[0, 20, 2, 6]);
    expected.extend_from_slice(b"guard2mask_lib\0\0");
    // GDSII reals: 1e-6 and 1e-9 in excess-64 base-16 form
    expected.extend_from_slice(&[0, 20, 3, 5]);
    expected.extend_from_slice(&[0x3c, 0x10, 0xc6, 0xf7, 0xa0, 0xb5, 0xed, 0x8d]);
    expected.extend_from_slice(&[0x39, 0x44, 0xb8, 0x2f, 0xa0, 0x9b, 0x5a, 0x54]);
    expected.extend_from_slice(&[0, 12, 5, 2, 0, 0, 0, 0, 0, 0, 0, 0]);
    expected.extend_from_slice(&[0, 8, 6, 6]);
    expected.extend_from_slice(b"TOP\0");
    expected.extend_from_slice(&[0, 4, 7, 0, 0, 4, 4, 0]);
    assert_eq!(data, expected);
}

#[test]
fn gdsii_file_is_the_generated_library() {
    let mut assign = Assignment::new();
    assign.values.insert("a".to_string(), TernaryWeight::Neg);
    assign.values.insert("b".to_string(), TernaryWeight::Pos);
    assert_eq!(generate_gdsii_file(&assign), generate_gdsii(&generate_patterns(&assign)));
}

#[test]
fn gdsii_box_coordinates() {
    let mut assign = Assignment::new();
    assign.values.insert("a".to_string(), TernaryWeight::Pos);
    let data = generate_gdsii_file(&assign);
    // the XY record of the single box: corner (250, 0), size 500
    let xy: Vec<u8> = [250i32, 0, 750, 0, 750, 500, 250, 500, 250, 0]
        .iter()
        .flat_map(|v| v.to_be_bytes())
        .collect();
    let mut rec = vec![0u8, 44, 0x10, 0x03];
    rec.extend_from_slice(&xy);
    assert!(data.windows(rec.len()).any(|w| w == rec.as_slice()));
}

#[test]
fn priority_counts_never_exceed_constraints() {
    let src = "constraint a @priority(HARD) {}\nconstraint b {}\nconstraint c @priority(SOFT) {}\n";
    let result = compile(&parse_guard(src).unwrap());
    assert_eq!(result.constraint_count, 3);
    assert_eq!(result.hard_count, 1);
    assert_eq!(result.soft_count, 1);
    assert!(result.hard_count + result.soft_count <= result.constraint_count);
}

#[test]
fn compile_exact_bytecode() {
    let src = "constraint a {\n range(-5, 300)\n bitmask(0x1FF)\n thermal(2.5)\n sparsity(260)\n}\n";
    let result = compile(&parse_guard(src).unwrap());
    assert_eq!(
        result.bytecode,
        vec![
            op::BITMASK_RANGE, 0, 255, op::ASSERT,
            op::PUSH, 0xFF, op::CHECK_DOMAIN, 0xFF, op::ASSERT,
            op::PUSH, 2, op::CMP_GE, op::ASSERT,
            op::PUSH, 4, op::CMP_GE, op::ASSERT,
            op::HALT, op::GUARD_TRAP,
        ]
    );
}

#[test]
fn compile_whitelist_exact_bytecode() {
    let result = compile(&parse_guard("constraint c { whitelist(A, BC) }").unwrap());
    // entry A compares with b'A'; entry BC (two bytes) with its position 2;
    // each jump target is the JNZ's own offset + 2 + 3 per later entry + 3
    assert_eq!(
        result.bytecode,
        vec![
            op::PUSH, b'A', op::EQ, op::JNZ, 11,
            op::PUSH, 2, op::EQ, op::JNZ, 13,
            op::PUSH, 0, op::ASSERT, op::NOP,
            op::HALT, op::GUARD_TRAP,
        ]
    );
}

#[test]
fn via_layers_go_round() {
    let mut assign = Assignment::new();
    for name in ["a", "b", "c", "d", "e", "f", "g"] {
        assign.values.insert(name.to_string(), TernaryWeight::Zero);
    }
    let result = generate_patterns(&assign);
    let layers: Vec<u32> = result.patterns.iter().map(|p| p.layer).collect();
    assert_eq!(layers, vec![1, 2, 3, 1, 2, 3, 1]);
}

#[test]
fn via_offsets_follow_weights() {
    let mut assign = Assignment::new();
    assign.values.insert("n".to_string(), TernaryWeight::Neg);
    assign.values.insert("z".to_string(), TernaryWeight::Zero);
    assign.values.insert("p".to_string(), TernaryWeight::Pos);
    let result = generate_patterns(&assign);
    assert_eq!((result.patterns[0].x, result.patterns[0].y), (-500, 0));
    assert_eq!((result.patterns[1].x, result.patterns[1].y), (0, 1000));
    assert_eq!((result.patterns[2].x, result.patterns[2].y), (500, 2000));
}

#[test]
fn via_columns_wrap_after_eleven() {
    let mut assign = Assignment::new();
    for i in 0..13 {
        assign.values.insert(format!("v{}", i), TernaryWeight::Zero);
    }
    let result = generate_patterns(&assign);
    assert_eq!((result.patterns[10].x, result.patterns[10].y), (0, 10000));
    assert_eq!((result.patterns[11].x, result.patterns[11].y), (3000, 0));
    assert_eq!((result.patterns[12].x, result.patterns[12].y), (3000, 1000));
}

#[test]
fn via_metadata_and_summary() {
    let mut assign = Assignment::new();
    assign.values.insert("throttle".to_string(), TernaryWeight::Zero);
    let result = generate_patterns(&assign);
    assert_eq!(result.metadata.get("via_size_nm"), Some(&"500".to_string()));
    assert_eq!(result.metadata.get("total_vias"), Some(&"1".to_string()));
    assert_eq!(result.metadata.get("library"), Some(&"guard2mask_lib".to_string()));
    assert_eq!(
        format_gdsii_summary(&result),
        "=== GDSII Layout Summary ===\nTotal vias: 1\n  Via 0: layer=1, pos=(0,0), size=500x500\nMetadata:\n  via_size_nm: 500\n  total_vias: 1\n  library: guard2mask_lib\n"
    );
}

#[test]
fn summary_of_negative_position_without_metadata() {
    let mut out = guard2mask::types::GDSIIOutput::new();
    out.patterns.push(guard2mask::types::ViaPattern { x: -1500, y: 20, layer: 3, width: 7, height: 9 });
    assert_eq!(
        format_gdsii_summary(&out),
        "=== GDSII Layout Summary ===\nTotal vias: 1\n  Via 0: layer=3, pos=(-1500,20), size=7x9\n"
    );
}

#[test]
fn solution_passes_verification() {
    let constraints = vec![
        constraint("a", vec![Check::Range { start: Number::from_int(1), end: Number::from_int(5) }]),
        constraint("b", vec![Check::Imply { target: "a".to_string() }]),
        constraint("c", vec![Check::NotEqual("a".to_string()), Check::Equal("b".to_string())]),
    ];
    let result = solve(&constraints).unwrap();
    assert!(verify_all_binary(&result, &constraints).is_ok());
}

#[test]
fn verify_reports_violations() {
    let constraints = vec![
        constraint("a", vec![]),
        constraint("b", vec![Check::Equal("a".to_string())]),
    ];
    let mut assign = Assignment::new();
    assign.values.insert("a".to_string(), TernaryWeight::Neg);
    assign.values.insert("b".to_string(), TernaryWeight::Pos);
    assert!(verify_all_binary(&assign, &constraints).is_err());
    let mut missing = Assignment::new();
    missing.values.insert("b".to_string(), TernaryWeight::Pos);
    assert!(verify_all_binary(&missing, &constraints).is_err());
}

#[test]
fn solve_prefers_neg_then_zero_then_pos() {
    let constraints = vec![constraint("free", vec![]), constraint("nonneg", vec![Check::Thermal(Number::from_int(0))])];
    let result = solve(&constraints).unwrap();
    assert_eq!(result.values.get("free"), Some(&TernaryWeight::Neg));
    assert_eq!(result.values.get("nonneg"), Some(&TernaryWeight::Zero));
    assert_eq!(result.values.entries()[0].0, "free");
    assert_eq!(result.values.entries()[1].0, "nonneg");
}

#[test]
fn solve_rejects_duplicate_names() {
    let constraints = vec![constraint("x", vec![]), constraint("x", vec![])];
    assert!(solve(&constraints).is_err());
}

#[test]
fn solve_imply_from_zero_is_free() {
    let constraints = vec![
        constraint("a", vec![Check::Range { start: Number::from_int(0), end: Number::from_int(0) }, Check::Imply { target: "b".to_string() }]),
        constraint("b", vec![Check::Range { start: Number::from_int(1), end: Number::from_int(2) }]),
    ];
    let result = solve(&constraints).unwrap();
    assert_eq!(result.values.get("a"), Some(&TernaryWeight::Zero));
    assert_eq!(result.values.get("b"), Some(&TernaryWeight::Pos));
}

#[test]
fn number_from_decimal_exact() {
    assert_eq!(Number::from_decimal(25, 1), Number { negative: false, whole: 2, fractional: true, nan: false });
    assert_eq!(Number::from_decimal(-300, 2), Number { negative: true, whole: 3, fractional: false, nan: false });
    assert_eq!(Number::from_decimal(7, 3), Number { negative: false, whole: 0, fractional: true, nan: false });
    assert_eq!(Number::from_int(i64::MIN), Number { negative: true, whole: 1u64 << 63, fractional: false, nan: false });
}

#[test]
fn weight_names() {
    assert_eq!(TernaryWeight::Neg.name(), "Neg");
    assert_eq!(TernaryWeight::Zero.name(), "Zero");
    assert_eq!(TernaryWeight::Pos.name(), "Pos");
}

#[test]
fn csp_builder_records_variables_and_constraints() {
    let mut csp = CSP::new();
    csp.add_variable("throttle", vec![TernaryWeight::Neg, TernaryWeight::Zero, TernaryWeight::Pos]);
    csp.add_variable("engine_rpm", vec![TernaryWeight::Zero]);
    csp.add_imply("throttle", TernaryWeight::Neg, "engine_rpm", TernaryWeight::Neg);
    csp.add_forbid_both("throttle", TernaryWeight::Pos, "engine_rpm", TernaryWeight::Pos);
    assert_eq!(csp.variables, vec!["throttle".to_string(), "engine_rpm".to_string()]);
    assert_eq!(csp.domains.get("engine_rpm"), Some(&vec![TernaryWeight::Zero]));
    assert_eq!(csp.constraints.len(), 2);
    assert_eq!(csp.constraints[0].variables(), vec!["throttle", "engine_rpm"]);
    assert_eq!(csp.constraints[1].variables(), vec!["throttle", "engine_rpm"]);
}

#[test]
fn gdsii_record_lengths_are_even_and_exact() {
    let mut assign = Assignment::new();
    for name in ["a", "b", "c", "d"] {
        assign.values.insert(name.to_string(), TernaryWeight::Pos);
    }
    let data = generate_gdsii_file(&assign);
    let mut pos = 0;
    while pos < data.len() {
        let len = u16::from_be_bytes([data[pos], data[pos + 1]]) as usize;
        assert!(len >= 4 && len % 2 == 0);
        pos += len;
    }
    assert_eq!(pos, data.len());
}

#[test]
fn solve_prunes_with_assigned_neighbours() {
    // b must differ from a and from c, a and c are pinned to Neg and Pos
    let constraints = vec![
        constraint("a", vec![Check::Range { start: Number::from_int(-2), end: Number::from_int(-1) }]),
        constraint("c", vec![Check::Range { start: Number::from_int(1), end: Number::from_int(2) }]),
        constraint("b", vec![Check::NotEqual("a".to_string()), Check::NotEqual("c".to_string())]),
    ];
    let result = solve(&constraints).unwrap();
    assert_eq!(result.values.get("b"), Some(&TernaryWeight::Zero));
    assert!(verify_all_binary(&result, &constraints).is_ok());
}

#[test]
fn nan_bounds_compare_false() {
    let nan = Number { negative: false, whole: 0, fractional: false, nan: true };
    // range(nan, 5): only "end > 0" holds, so only Pos
    let c1 = vec![constraint("r", vec![Check::Range { start: nan, end: Number::from_int(5) }])];
    assert_eq!(solve(&c1).unwrap().values.get("r"), Some(&TernaryWeight::Pos));
    // range(nan, nan): no comparison holds, no value is allowed
    let c2 = vec![constraint("r", vec![Check::Range { start: nan, end: nan }])];
    assert!(solve(&c2).is_err());
    // thermal(nan): neither "<= 0" nor "< 1" holds, every value stays
    let c3 = vec![constraint("t", vec![Check::Thermal(nan)])];
    assert_eq!(solve(&c3).unwrap().values.get("t"), Some(&TernaryWeight::Neg));
    // compiled, NaN becomes 0
    let prog = compile(&parse_guard("constraint t { thermal(nan) }").unwrap());
    assert_eq!(prog.bytecode, vec![op::PUSH, 0, op::CMP_GE, op::ASSERT, op::HALT, op::GUARD_TRAP]);
}
