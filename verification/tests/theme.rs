use roses::theme::{accent_from, leaf, muted, parse_hex, rose, rose_deep, rose_light, Rgb};

#[test]
fn parse_hex_accepts_six_and_three_digit_forms() {
    let rose_rgb = Rgb { r: 0xE0, g: 0x6C, b: 0x9A };
    assert_eq!(parse_hex("#e06c9a"), Some(rose_rgb), "with leading #");
    assert_eq!(parse_hex("e06c9a"), Some(rose_rgb), "without #");
    assert_eq!(parse_hex("E06C9A"), Some(rose_rgb), "case-insensitive");
    assert_eq!(parse_hex("  #E06c9A  "), Some(rose_rgb), "surrounding whitespace");
    assert_eq!(parse_hex("#f00"), Some(Rgb { r: 0xFF, g: 0x00, b: 0x00 }));
    assert_eq!(parse_hex("0f0"), Some(Rgb { r: 0x00, g: 0xFF, b: 0x00 }));
    assert_eq!(parse_hex("#abc"), Some(Rgb { r: 0xAA, g: 0xBB, b: 0xCC }));
}

#[test]
fn parse_hex_rejects_malformed_input() {
    for bad in ["", "#", "12345", "1234567", "#12", "#gg0000", "xyzxyz", "#e06c9", "rgb(1,2,3)"] {
        assert_eq!(parse_hex(bad), None, "should reject {bad:?}");
    }
}

#[test]
fn palette_and_accent_fallback() {
    assert_eq!(rose(), Rgb { r: 0xE0, g: 0x6C, b: 0x9A });
    assert_eq!(muted(), Rgb { r: 0x80, g: 0x80, b: 0x80 });
    assert_eq!(rose_light(), Rgb { r: 0xF2, g: 0xA9, b: 0xC4 });
    assert_eq!(rose_deep(), Rgb { r: 0xB0, g: 0x39, b: 0x5B });
    assert_eq!(leaf(), Rgb { r: 0x6B, g: 0x9E, b: 0x78 });
    assert_eq!(accent_from(None), rose());
    assert_eq!(accent_from(Some("bogus")), rose());
    assert_eq!(accent_from(Some("#123456")), Rgb { r: 0x12, g: 0x34, b: 0x56 });
}
