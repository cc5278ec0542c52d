use guard2mask::compiler::compile;
use guard2mask::op;
use guard2mask::parser::parse_guard;

#[test]
fn compile_empty() {
    let items = parse_guard("").unwrap();
    let result = compile(&items);
    assert_eq!(result.constraint_count, 0);
    // Should be HALT + GUARD_TRAP
    assert!(result.bytecode.contains(&op::HALT));
    assert!(result.bytecode.contains(&op::GUARD_TRAP));
}

#[test]
fn compile_range() {
    let src = "constraint alt @priority(HARD) { range(0, 150) }";
    let items = parse_guard(src).unwrap();
    let result = compile(&items);
    assert_eq!(result.constraint_count, 1);
    assert_eq!(result.hard_count, 1);
    // Should contain BITMASK_RANGE with lo=0, hi=150
    let range_pos = result.bytecode.iter().position(|&b| b == op::BITMASK_RANGE).unwrap();
    assert_eq!(result.bytecode[range_pos + 1], 0); // lo
    assert_eq!(result.bytecode[range_pos + 2], 150); // hi
    assert!(result.bytecode.contains(&op::ASSERT));
}

#[test]
fn compile_bitmask() {
    let src = "constraint sensor { bitmask(63) }";
    let items = parse_guard(src).unwrap();
    let result = compile(&items);
    // Should contain CHECK_DOMAIN with mask=63
    let cd_pos = result.bytecode.iter().position(|&b| b == op::CHECK_DOMAIN).unwrap();
    assert_eq!(result.bytecode[cd_pos + 1], 63);
    assert!(result.bytecode.contains(&op::PUSH));
    assert!(result.bytecode.contains(&op::ASSERT));
}

#[test]
fn compile_multi_constraint() {
    let src = r#"
            constraint altitude @priority(HARD) { range(0, 150) }
            constraint power @priority(SOFT) { thermal(2) }
        "#;
    let items = parse_guard(src).unwrap();
    let result = compile(&items);
    assert_eq!(result.constraint_count, 2);
    assert_eq!(result.hard_count, 1);
    assert_eq!(result.soft_count, 1);
    // Should have BITMASK_RANGE for altitude and CMP_GE for thermal
    assert!(result.bytecode.contains(&op::BITMASK_RANGE));
    assert!(result.bytecode.contains(&op::CMP_GE));
}

#[test]
fn compile_whitelist() {
    let src = "constraint cmd { whitelist(A, B, C) }";
    let items = parse_guard(src).unwrap();
    let result = compile(&items);
    // Should have EQ and JNZ for whitelist checks
    assert!(result.bytecode.contains(&op::EQ));
    assert!(result.bytecode.contains(&op::JNZ));
    assert!(result.bytecode.contains(&op::ASSERT));
}
