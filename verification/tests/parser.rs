use guard2mask::number::Number;
use guard2mask::parser::{extract_constraints, parse_guard, Check, GuardItem, Priority};

#[test]
fn parse_empty() {
    let items = parse_guard("").unwrap();
    assert!(items.is_empty());
}

#[test]
fn parse_comments() {
    let items = parse_guard("// just a comment\n").unwrap();
    assert!(items.is_empty());
}

#[test]
fn parse_range_constraint() {
    let src = r#"
            constraint altitude @priority(HARD) {
                range(0, 15000)
            }
        "#;
    let items = parse_guard(src).unwrap();
    let constraints = extract_constraints(&items);
    assert_eq!(constraints.len(), 1);
    assert_eq!(constraints[0].name, "altitude");
    assert_eq!(constraints[0].priority, Priority::Hard);
    assert_eq!(constraints[0].checks.len(), 1);
    assert!(matches!(&constraints[0].checks[0], Check::Range { start, end }
        if *start == Number::from_int(0) && *end == Number::from_int(15000)));
}

#[test]
fn parse_whitelist() {
    let src = r#"
            constraint flight_commands @priority(HARD) {
                whitelist(HOVER, ASCEND, DESCEND, LAND, EMERGENCY)
            }
        "#;
    let items = parse_guard(src).unwrap();
    let constraints = extract_constraints(&items);
    assert_eq!(constraints[0].checks.len(), 1);
    assert!(matches!(&constraints[0].checks[0], Check::Whitelist(v) if v.len() == 5));
}

#[test]
fn parse_bitmask_thermal() {
    let src = r#"
            constraint sensor_check {
                bitmask(0x3F)
                thermal(2.5)
                sparsity(128)
            }
        "#;
    let items = parse_guard(src).unwrap();
    let constraints = extract_constraints(&items);
    assert_eq!(constraints[0].checks.len(), 3);
    assert_eq!(constraints[0].priority, Priority::Default);
}

#[test]
fn parse_multiple_constraints() {
    let src = r#"
            constraint altitude @priority(HARD) {
                range(0, 15000)
            }
            constraint steering @priority(SOFT) {
                range(-12, 12)
            }
        "#;
    let items = parse_guard(src).unwrap();
    let constraints = extract_constraints(&items);
    assert_eq!(constraints.len(), 2);
    assert_eq!(constraints[0].name, "altitude");
    assert_eq!(constraints[1].name, "steering");
}

#[test]
fn parse_checks_exact_values() {
    let src = "constraint s {\n bitmask(0x3F)\n thermal(2.5)\n sparsity(128)\n range(-12, 12)\n}\n";
    let items = parse_guard(src).unwrap();
    let cs = extract_constraints(&items);
    assert_eq!(cs.len(), 1);
    assert_eq!(cs[0].checks[0], Check::Bitmask(63));
    assert_eq!(cs[0].checks[1], Check::Thermal(Number::from_decimal(25, 1)));
    assert_eq!(cs[0].checks[1], Check::Thermal(Number { negative: false, whole: 2, fractional: true, nan: false }));
    assert_eq!(cs[0].checks[2], Check::Sparsity(128));
    assert_eq!(cs[0].checks[3], Check::Range { start: Number::from_int(-12), end: Number::from_int(12) });
}

#[test]
fn parse_top_level_text_is_comment() {
    let items = parse_guard("hello world // trailing\n}\n").unwrap();
    assert_eq!(items.len(), 2);
    assert_eq!(items[0], GuardItem::Comment("hello world".to_string()));
    assert_eq!(items[1], GuardItem::Comment("}".to_string()));
}

#[test]
fn parse_unclosed_block_is_kept() {
    let items = parse_guard("constraint open_one {\n range(1, 2)\n").unwrap();
    let cs = extract_constraints(&items);
    assert_eq!(cs.len(), 1);
    assert_eq!(cs[0].name, "open_one");
    assert_eq!(cs[0].checks.len(), 1);
}

#[test]
fn parse_header_closes_previous_block() {
    let items = parse_guard("constraint a {\n range(1, 2)\nconstraint b {\n}\n").unwrap();
    let cs = extract_constraints(&items);
    assert_eq!(cs.len(), 2);
    assert_eq!(cs[0].name, "a");
    assert_eq!(cs[1].name, "b");
    assert!(cs[1].checks.is_empty());
}

#[test]
fn parse_priority_on_its_own_line() {
    let items = parse_guard("constraint a {\n @priority(SOFT)\n}\n").unwrap();
    let cs = extract_constraints(&items);
    assert_eq!(cs[0].priority, Priority::Soft);
    assert!(cs[0].checks.is_empty());
}

#[test]
fn parse_whitelist_values_trimmed_and_unquoted() {
    let items = parse_guard("constraint c { whitelist(\"A\", B ,, \"\") }").unwrap();
    let cs = extract_constraints(&items);
    assert_eq!(cs[0].checks[0], Check::Whitelist(vec!["A".to_string(), "B".to_string()]));
}

#[test]
fn parse_number_forms() {
    let items = parse_guard(
        "constraint n {\n range(1e3, -0.5)\n bitmask(0x0X10)\n sparsity(4294967296)\n thermal(-inf)\n}\n",
    )
    .unwrap();
    let cs = extract_constraints(&items);
    assert_eq!(
        cs[0].checks[0],
        Check::Range {
            start: Number::from_int(1000),
            end: Number { negative: true, whole: 0, fractional: true, nan: false },
        }
    );
    assert_eq!(cs[0].checks[1], Check::Bitmask(16));
    assert_eq!(cs[0].checks[2], Check::Sparsity(u32::MAX));
    assert_eq!(cs[0].checks[3], Check::Thermal(Number { negative: true, whole: u64::MAX, fractional: false, nan: false }));
}

#[test]
fn parse_error_header_without_name() {
    let err = parse_guard("\nconstraint {\n").unwrap_err();
    assert_eq!(err.line, 1);
    assert_eq!(err.message, "Expected: constraint name {");
    assert_eq!(err.to_string(), "Line 1: Expected: constraint name {");
}

#[test]
fn parse_error_invalid_number() {
    let err = parse_guard("constraint a {\n thermal(abc)\n}").unwrap_err();
    assert_eq!(err.line, 1);
    assert_eq!(err.message, "Invalid number: abc");
}

#[test]
fn parse_error_invalid_hex() {
    let err = parse_guard("constraint a {\n bitmask(0xZZ)\n}").unwrap_err();
    assert_eq!(err.message, "Invalid hex: 0xZZ");
}

#[test]
fn parse_error_hex_overflow() {
    let err = parse_guard("constraint a { bitmask(0x10000000000000000) }").unwrap_err();
    assert_eq!(err.line, 0);
    assert_eq!(err.message, "Invalid hex: 0x10000000000000000");
}

#[test]
fn parse_error_missing_paren() {
    let err = parse_guard("constraint a {\n\n range(1, 2\n}").unwrap_err();
    assert_eq!(err.line, 2);
    assert_eq!(err.message, "Missing closing ')' in range");
}

#[test]
fn parse_error_two_numbers() {
    let err = parse_guard("constraint a {\n range(1, 2, 3)\n}").unwrap_err();
    assert_eq!(err.message, "Expected two numbers, got: 1, 2, 3");
}

#[test]
fn parse_crlf_and_unicode_space() {
    let items = parse_guard("constraint a {\r\n\u{3000}range(1, 2)\u{a0}\r\n}\r\n").unwrap();
    let cs = extract_constraints(&items);
    assert_eq!(cs.len(), 1);
    assert_eq!(cs[0].checks[0], Check::Range { start: Number::from_int(1), end: Number::from_int(2) });
}

#[test]
fn parse_unknown_check_lines_are_skipped() {
    let items = parse_guard("constraint a {\n frobnicate(3)\n @note\n}\n").unwrap();
    let cs = extract_constraints(&items);
    assert!(cs[0].checks.is_empty());
}

#[test]
fn parse_inline_priority_only() {
    let items = parse_guard("constraint a { @priority(SOFT) }").unwrap();
    let cs = extract_constraints(&items);
    assert_eq!(cs[0].priority, Priority::Soft);
    assert!(cs[0].checks.is_empty());
}

#[test]
fn parse_empty_braces_stay_open() {
    // `{ }` on the header line leaves the block open until a later `}`
    let items = parse_guard("constraint a { }\nrange(1, 2)\n}\n").unwrap();
    let cs = extract_constraints(&items);
    assert_eq!(cs.len(), 1);
    assert_eq!(cs[0].checks.len(), 1);
}

fn single_check(line: &str) -> Result<Check, String> {
    let src = format!("constraint n {{\n{}\n}}\n", line);
    match parse_guard(&src) {
        Ok(items) => Ok(extract_constraints(&items)[0].checks[0].clone()),
        Err(e) => Err(e.message),
    }
}

#[test]
fn parse_decimal_numeral_forms() {
    let n = |negative: bool, whole: u64, fractional: bool| Number { negative, whole, fractional, nan: false };
    assert_eq!(single_check("thermal(.5)"), Ok(Check::Thermal(n(false, 0, true))));
    assert_eq!(single_check("thermal(5.)"), Ok(Check::Thermal(n(false, 5, false))));
    assert_eq!(single_check("thermal(+3)"), Ok(Check::Thermal(n(false, 3, false))));
    assert_eq!(single_check("thermal(-0)"), Ok(Check::Thermal(n(true, 0, false))));
    assert_eq!(single_check("thermal(12.50e-1)"), Ok(Check::Thermal(n(false, 1, true))));
    assert_eq!(single_check("thermal(25E+2)"), Ok(Check::Thermal(n(false, 2500, false))));
    assert_eq!(single_check("thermal(1e400)"), Ok(Check::Thermal(n(false, u64::MAX, false))));
    assert_eq!(single_check("thermal(0e400)"), Ok(Check::Thermal(n(false, 0, false))));
    assert_eq!(single_check("thermal(7e-400)"), Ok(Check::Thermal(n(false, 0, true))));
    assert_eq!(single_check("thermal(INFINITY)"), Ok(Check::Thermal(n(false, u64::MAX, false))));
    assert_eq!(single_check("thermal(  42  )"), Ok(Check::Thermal(n(false, 42, false))));
}

#[test]
fn parse_rejected_numerals() {
    assert_eq!(single_check("thermal(1e)"), Err("Invalid number: 1e".to_string()));
    assert_eq!(single_check("thermal(.)"), Err("Invalid number: .".to_string()));
    assert_eq!(single_check("thermal(e5)"), Err("Invalid number: e5".to_string()));
    assert_eq!(single_check("thermal(1 2)"), Err("Invalid number: 1 2".to_string()));
    assert_eq!(single_check("thermal()"), Err("Invalid number: ".to_string()));
    assert_eq!(single_check("bitmask(0x)"), Err("Invalid hex: 0x".to_string()));
    assert_eq!(single_check("bitmask(0x-1)"), Err("Invalid hex: 0x-1".to_string()));
    assert_eq!(single_check("bitmask(0X0x1)"), Err("Invalid hex: 0X0x1".to_string()));
}

#[test]
fn parse_hex_numeral_forms() {
    assert_eq!(single_check("bitmask(0x+1F)"), Ok(Check::Bitmask(31)));
    assert_eq!(single_check("bitmask(0xffffffffffffffff)"), Ok(Check::Bitmask(u64::MAX)));
    assert_eq!(single_check("sparsity(0x0x0x10)"), Ok(Check::Sparsity(16)));
    assert_eq!(single_check("bitmask(-3)"), Ok(Check::Bitmask(0)));
    assert_eq!(single_check("bitmask(2.9)"), Ok(Check::Bitmask(2)));
}

#[test]
fn parse_missing_paren_in_each_check() {
    for func in ["whitelist", "bitmask", "thermal", "sparsity"] {
        assert_eq!(single_check(&format!("{}(1", func)), Err(format!("Missing closing ')' in {}", func)));
    }
    assert_eq!(single_check("range(1"), Err("Missing closing ')' in range".to_string()));
    assert_eq!(single_check("range(1)"), Err("Expected two numbers, got: 1".to_string()));
}

#[test]
fn parse_nan_numerals() {
    let nan = |negative: bool| Number { negative, whole: 0, fractional: false, nan: true };
    assert_eq!(single_check("thermal(nan)"), Ok(Check::Thermal(nan(false))));
    assert_eq!(single_check("thermal(NaN)"), Ok(Check::Thermal(nan(false))));
    assert_eq!(single_check("thermal(-NAN)"), Ok(Check::Thermal(nan(true))));
    // NaN converts to 0 as an integer
    assert_eq!(single_check("bitmask(nan)"), Ok(Check::Bitmask(0)));
    assert_eq!(single_check("sparsity(nan)"), Ok(Check::Sparsity(0)));
    assert_eq!(single_check("thermal(nanx)"), Err("Invalid number: nanx".to_string()));
}
