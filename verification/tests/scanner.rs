//! Extracting prefixes on UTF-8 character boundaries.

use compile_fmt::ClippedStr;

#[test]
fn extracting_first_chars_from_ascii_string() {
    assert_eq!(ClippedStr::new("Test", 1), ClippedStr::Clipped(b"T"));
    assert_eq!(ClippedStr::new("Test", 2), ClippedStr::Clipped(b"Te"));
    assert_eq!(ClippedStr::new("Test", 3), ClippedStr::Clipped(b"Tes"));
    for char_count in [4, 5, 8, 32, 128] {
        assert_eq!(
            ClippedStr::new("Test", char_count),
            ClippedStr::Full(b"Test")
        );
    }
}

#[test]
fn extracting_first_chars_from_utf8_string() {
    assert_eq!(
        ClippedStr::new("💣Test", 1),
        ClippedStr::Clipped("💣".as_bytes())
    );
    assert_eq!(
        ClippedStr::new("💣Test", 2),
        ClippedStr::Clipped("💣T".as_bytes())
    );
    assert_eq!(
        ClippedStr::new("T💣est", 3),
        ClippedStr::Clipped("T💣e".as_bytes())
    );
    assert_eq!(
        ClippedStr::new("T💣eßtℝ", 4),
        ClippedStr::Clipped("T💣eß".as_bytes())
    );
    assert_eq!(
        ClippedStr::new("Tℝ💣eßt", 4),
        ClippedStr::Clipped("Tℝ💣e".as_bytes())
    );
    assert_eq!(
        ClippedStr::new("Tℝ💣eßt", 5),
        ClippedStr::Clipped("Tℝ💣eß".as_bytes())
    );

    for char_count in [6, 8, 32, 128] {
        assert_eq!(
            ClippedStr::new("Tℝ💣eßt", char_count),
            ClippedStr::Full("Tℝ💣eßt".as_bytes())
        );
    }
}
