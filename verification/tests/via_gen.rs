use guard2mask::types::{generate_gdsii, Assignment, TernaryWeight};
use guard2mask::via_gen::{generate_patterns, generate_patterns_with_size, VIA_SIZE};

#[test]
fn generate_empty() {
    let result = generate_patterns(&Assignment::new());
    assert!(result.patterns.is_empty());
}

#[test]
fn generate_single_via() {
    let mut assign = Assignment::new();
    assign.values.insert("throttle".to_string(), TernaryWeight::Zero);
    let result = generate_patterns(&assign);
    assert_eq!(result.patterns.len(), 1);
    let p = &result.patterns[0];
    assert_eq!(p.width, VIA_SIZE);
    assert_eq!(p.height, VIA_SIZE);
    assert_eq!(p.layer, 1);
    // Zero value should be centered
    assert_eq!(p.x, 0);
    assert_eq!(p.y, 0);
}

#[test]
fn generate_three_vias_different_layers() {
    let mut assign = Assignment::new();
    assign.values.insert("a".to_string(), TernaryWeight::Neg);
    assign.values.insert("b".to_string(), TernaryWeight::Zero);
    assign.values.insert("c".to_string(), TernaryWeight::Pos);
    let result = generate_patterns(&assign);
    assert_eq!(result.patterns.len(), 3);
    // Layers should be 1, 2, 3
    for (i, p) in result.patterns.iter().enumerate() {
        assert_eq!(p.layer, ((i as u32) % 3) + 1);
    }
}

#[test]
fn generate_gdsii_binary() {
    let mut assign = Assignment::new();
    assign.values.insert("throttle".to_string(), TernaryWeight::Neg);
    assign.values.insert("engine_rpm".to_string(), TernaryWeight::Zero);
    assign.values.insert("rudder".to_string(), TernaryWeight::Pos);
    let patterns = generate_patterns(&assign);
    let binary = generate_gdsii(&patterns);
    assert!(binary.len() > 100, "GDSII binary too short");
    // Verify ASCII strings are present
    let ascii = String::from_utf8_lossy(&binary);
    assert!(ascii.contains("guard2mask_lib"), "Missing library name");
    assert!(ascii.contains("VIA_LAYER_1"), "Missing VIA_LAYER_1");
    assert!(ascii.contains("TOP"), "Missing TOP structure");
}

#[test]
fn generate_with_custom_size() {
    let mut assign = Assignment::new();
    assign.values.insert("x".to_string(), TernaryWeight::Pos);
    let result = generate_patterns_with_size(&assign, 1000);
    assert_eq!(result.patterns[0].width, 1000);
    assert_eq!(result.patterns[0].height, 1000);
    // Pos should be offset right
    assert_eq!(result.patterns[0].x, 1000);
}
