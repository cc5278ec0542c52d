use guard2mask::types::{generate_gdsii, GDSIIOutput, ViaPattern};

#[test]
fn gdsii_empty_library() {
    let output = GDSIIOutput::new();
    let data = generate_gdsii(&output);
    // Should have header, bgnlib, libname, units, bgnstr, endstr, endlib at minimum
    assert!(data.len() > 40, "GDSII data too short: {} bytes", data.len());
    // First 2 bytes should be the length of header record (4 + 4 = 8)
    assert_eq!(data[0..2], [0x00, 0x08], "Header record length wrong");
}

#[test]
fn gdsii_with_vias() {
    let mut output = GDSIIOutput::new();
    output.patterns.push(ViaPattern { x: 0, y: 0, layer: 1, width: 500, height: 500 });
    output.patterns.push(ViaPattern { x: 1000, y: 1000, layer: 2, width: 500, height: 500 });
    let data = generate_gdsii(&output);
    assert!(data.len() > 100, "GDSII data too short: {} bytes", data.len());
    // Should contain layer structures
    let ascii = String::from_utf8_lossy(&data);
    assert!(ascii.contains("VIA_LAYER_1"), "Missing VIA_LAYER_1");
    assert!(ascii.contains("VIA_LAYER_2"), "Missing VIA_LAYER_2");
    assert!(ascii.contains("TOP"), "Missing TOP structure");
}
