use soul_symphony_ling::font::load_font;
use soul_symphony_ling::shaping::{shape_phrase, ShapedGlyph};

/// A tiny TrueType font: 1000 units per em, glyph 0 (.notdef, advance 600) and
/// glyph 1 ("A", advance 540).
const DEMO_FONT: &[u8] = &[
    0, 1, 0, 0, 0, 7, 0, 64, 0, 2, 0, 48, 99, 109, 97, 112, 0, 9, 0, 118, 0, 0, 1, 0, 0, 0, 0, 44,
    103, 108, 121, 102, 241, 203, 102, 152, 0, 0, 1, 52, 0, 0, 0, 92, 104, 101, 97, 100, 242, 53,
    221, 248, 0, 0, 0, 124, 0, 0, 0, 54, 104, 104, 101, 97, 6, 97, 0, 202, 0, 0, 0, 180, 0, 0, 0,
    36, 104, 109, 116, 120, 4, 116, 0, 106, 0, 0, 0, 248, 0, 0, 0, 8, 108, 111, 99, 97, 0, 46, 0,
    20, 0, 0, 1, 44, 0, 0, 0, 6, 109, 97, 120, 112, 0, 5, 0, 11, 0, 0, 0, 216, 0, 0, 0, 32, 0, 1, 0,
    0, 0, 1, 0, 0, 245, 156, 41, 68, 95, 15, 60, 245, 0, 2, 3, 232, 0, 0, 0, 0, 180, 146, 244, 0, 0,
    0, 0, 0, 220, 47, 166, 92, 0, 6, 0, 0, 2, 88, 2, 188, 0, 0, 0, 3, 0, 2, 0, 0, 0, 0, 0, 0, 0, 1,
    0, 0, 4, 0, 254, 112, 0, 0, 2, 88, 0, 6, 255, 255, 2, 88, 0, 1, 0, 0, 0, 0, 0, 0, 0, 0, 0, 0, 0,
    0, 0, 0, 0, 2, 0, 1, 0, 0, 0, 2, 0, 11, 0, 2, 0, 0, 0, 0, 0, 0, 0, 0, 0, 0, 0, 0, 0, 0, 0, 0, 0,
    0, 0, 0, 0, 0, 2, 88, 0, 100, 2, 28, 0, 6, 0, 0, 0, 1, 0, 0, 0, 3, 0, 0, 0, 12, 0, 4, 0, 32, 0,
    0, 0, 4, 0, 4, 0, 1, 0, 0, 0, 65, 255, 255, 0, 0, 0, 65, 255, 255, 255, 192, 0, 1, 0, 0, 0, 0,
    0, 0, 0, 20, 0, 46, 0, 0, 0, 2, 0, 100, 0, 0, 2, 88, 2, 188, 0, 3, 0, 7, 0, 0, 51, 17, 33, 17,
    37, 33, 17, 33, 100, 1, 244, 254, 52, 1, 164, 254, 92, 2, 188, 253, 68, 40, 2, 108, 0, 2, 0, 6,
    0, 0, 2, 29, 2, 144, 0, 2, 0, 10, 0, 0, 19, 51, 3, 1, 19, 51, 19, 35, 39, 35, 7, 173, 196, 99,
    254, 248, 218, 96, 221, 89, 62, 239, 66, 1, 11, 1, 64, 253, 181, 2, 144, 253, 112, 200, 200, 0
];

#[test]
fn a_phrase_is_shaped_into_glyphs() {
    let run = shape_phrase(DEMO_FONT, "A").expect("usable face");
    assert_eq!(run.units_per_em, 1000);
    assert_eq!(run.glyphs, vec![ShapedGlyph { glyph_id: 1, x_advance: 540, x_offset: 0, y_offset: 0 }]);
}

#[test]
fn unmapped_characters_shape_to_notdef() {
    let run = shape_phrase(DEMO_FONT, "AB").expect("usable face");
    assert_eq!(
        run.glyphs,
        vec![
            ShapedGlyph { glyph_id: 1, x_advance: 540, x_offset: 0, y_offset: 0 },
            ShapedGlyph { glyph_id: 0, x_advance: 600, x_offset: 0, y_offset: 0 },
        ]
    );
}

#[test]
fn an_empty_phrase_has_no_glyphs() {
    let run = shape_phrase(DEMO_FONT, "").expect("usable face");
    assert!(run.glyphs.is_empty());
}

#[test]
fn garbage_is_not_a_face() {
    assert!(shape_phrase(b"not a font", "A").is_none());
    assert!(shape_phrase(&[], "A").is_none());
}

#[test]
fn fonts_load_or_fail() {
    assert!(load_font(DEMO_FONT).is_ok());
    assert!(load_font(b"not a font").is_err());
}
