use guard2mask::number::Number;
use guard2mask::parser::{Check, Constraint, Priority};
use guard2mask::solver::solve;
use guard2mask::types::TernaryWeight;

fn range(start: i64, end: i64) -> Check {
    Check::Range { start: Number::from_int(start), end: Number::from_int(end) }
}

#[test]
fn solve_empty_constraints() {
    let result = solve(&[]);
    assert!(result.is_ok());
    assert!(result.unwrap().values.is_empty());
}

#[test]
fn solve_range_zero_centered() {
    // Range [0, 15000] includes 0 → Zero must be valid
    let constraints = vec![Constraint {
        name: "altitude".to_string(),
        priority: Priority::Hard,
        checks: vec![range(0, 15000)],
    }];
    let result = solve(&constraints).unwrap();
    assert!(result.values.contains_key("altitude"));
    // The value could be Zero (since 0 is in range) or Pos (since 15000 > 0)
    let val = result.values.get("altitude").unwrap();
    assert!(*val == TernaryWeight::Zero || *val == TernaryWeight::Pos);
}

#[test]
fn solve_range_entirely_negative() {
    // Range [-100, -1] is entirely negative → only Neg is valid
    let constraints = vec![Constraint {
        name: "depth".to_string(),
        priority: Priority::Hard,
        checks: vec![range(-100, -1)],
    }];
    let result = solve(&constraints).unwrap();
    assert_eq!(result.values.get("depth").unwrap(), &TernaryWeight::Neg);
}

#[test]
fn solve_range_entirely_positive() {
    // Range [1, 100] is entirely positive → only Pos is valid
    let constraints = vec![Constraint {
        name: "speed".to_string(),
        priority: Priority::Hard,
        checks: vec![range(1, 100)],
    }];
    let result = solve(&constraints).unwrap();
    assert_eq!(result.values.get("speed").unwrap(), &TernaryWeight::Pos);
}

#[test]
fn solve_range_exactly_zero() {
    // Range [0, 0] = exactly zero → only Zero is valid
    let constraints = vec![Constraint {
        name: "null_var".to_string(),
        priority: Priority::Hard,
        checks: vec![range(0, 0)],
    }];
    let result = solve(&constraints).unwrap();
    assert_eq!(result.values.get("null_var").unwrap(), &TernaryWeight::Zero);
}

#[test]
fn solve_equal_constraint() {
    // Two variables constrained to be equal
    let constraints = vec![
        Constraint {
            name: "a".to_string(),
            priority: Priority::Hard,
            checks: vec![
                range(1, 10), // a must be Pos
            ],
        },
        Constraint {
            name: "b".to_string(),
            priority: Priority::Hard,
            checks: vec![
                Check::Equal("a".to_string()), // b must equal a
            ],
        },
    ];
    let result = solve(&constraints).unwrap();
    assert_eq!(result.values.get("a").unwrap(), &TernaryWeight::Pos);
    assert_eq!(result.values.get("b").unwrap(), &TernaryWeight::Pos);
}

#[test]
fn solve_not_equal() {
    let constraints = vec![
        Constraint {
            name: "x".to_string(),
            priority: Priority::Hard,
            checks: vec![
                range(0, 0), // x must be Zero
            ],
        },
        Constraint {
            name: "y".to_string(),
            priority: Priority::Hard,
            checks: vec![
                Check::NotEqual("x".to_string()), // y must NOT equal x
            ],
        },
    ];
    let result = solve(&constraints).unwrap();
    assert_eq!(result.values.get("x").unwrap(), &TernaryWeight::Zero);
    assert_ne!(result.values.get("y").unwrap(), &TernaryWeight::Zero);
}

#[test]
fn solve_imply_constraint() {
    // Imply: the constraint's variable value implies the target's value.
    // Here "a implies b": if a is non-zero, b must match.
    // Since a is Pos (range 1-10), b must also be Pos.
    let constraints = vec![
        Constraint {
            name: "a".to_string(),
            priority: Priority::Hard,
            checks: vec![
                range(1, 10),                             // a must be Pos
                Check::Imply { target: "b".to_string() }, // a implies b
            ],
        },
        Constraint { name: "b".to_string(), priority: Priority::Hard, checks: vec![] },
    ];
    let result = solve(&constraints).unwrap();
    assert_eq!(result.values.get("a").unwrap(), &TernaryWeight::Pos);
    assert_eq!(result.values.get("b").unwrap(), &TernaryWeight::Pos);
}

#[test]
fn solve_conflicting_constraints_error() {
    // x must be Pos (range positive) AND x must differ from itself
    let constraints = vec![Constraint {
        name: "x".to_string(),
        priority: Priority::Hard,
        checks: vec![
            range(1, 10),                      // x must be Pos
            Check::NotEqual("x".to_string()), // self-contradiction: x != x is impossible
        ],
    }];
    // NotEqual("x") on x itself means x != x
    // Since x is the same variable, this is unsatisfiable
    let result = solve(&constraints);
    assert!(result.is_err());
}

#[test]
fn solve_conflicting_binary_constraints() {
    // a must equal b AND a must not equal b → impossible
    let constraints = vec![
        Constraint {
            name: "a".to_string(),
            priority: Priority::Hard,
            checks: vec![Check::Equal("b".to_string()), Check::NotEqual("b".to_string())],
        },
        Constraint {
            name: "b".to_string(),
            priority: Priority::Hard,
            checks: vec![
                range(1, 10), // b must be Pos
            ],
        },
    ];
    let result = solve(&constraints);
    assert!(result.is_err());
}

#[test]
fn solve_thermal_sparsity() {
    let constraints = vec![Constraint {
        name: "sensor".to_string(),
        priority: Priority::Hard,
        checks: vec![
            Check::Thermal(Number::from_decimal(5, 1)), // small budget (0.5) → Neg or Zero
            Check::Sparsity(0),                         // max zero non-zeros → must be Zero
        ],
    }];
    let result = solve(&constraints).unwrap();
    assert_eq!(result.values.get("sensor").unwrap(), &TernaryWeight::Zero);
}

#[test]
fn solve_multiple_variables() {
    let constraints = vec![
        Constraint {
            name: "altitude".to_string(),
            priority: Priority::Hard,
            checks: vec![range(0, 150)],
        },
        Constraint {
            name: "steering".to_string(),
            priority: Priority::Soft,
            checks: vec![range(-12, 12)],
        },
        Constraint {
            name: "power".to_string(),
            priority: Priority::Default,
            checks: vec![Check::Thermal(Number::from_int(2))],
        },
    ];
    let result = solve(&constraints).unwrap();
    assert!(result.values.contains_key("altitude"));
    assert!(result.values.contains_key("steering"));
    assert!(result.values.contains_key("power"));
    // steering contains negative range
    assert_eq!(result.values.get("steering").unwrap(), &TernaryWeight::Neg);
}

#[test]
fn solve_bitmask_zero() {
    // Bitmask 0 → only Zero allowed
    let constraints = vec![Constraint {
        name: "masked".to_string(),
        priority: Priority::Hard,
        checks: vec![Check::Bitmask(0)],
    }];
    let result = solve(&constraints).unwrap();
    assert_eq!(result.values.get("masked").unwrap(), &TernaryWeight::Zero);
}

#[test]
fn verify_assignments_valid() {
    // Verify that all returned assignments satisfy the constraints
    let constraints = vec![
        Constraint {
            name: "a".to_string(),
            priority: Priority::Hard,
            checks: vec![range(-10, 10)],
        },
        Constraint {
            name: "b".to_string(),
            priority: Priority::Hard,
            checks: vec![Check::Equal("a".to_string())],
        },
    ];
    let result = solve(&constraints).unwrap();
    assert_eq!(result.values.get("a"), result.values.get("b"));
}
