use lib::shade::{shade_glyph, SHADE_LEVELS};

#[test]
fn ramp_runs_from_dim_to_bright() {
    let expected = ['.', ',', '-', '~', ':', ';', '=', '!', '*', '#', '$', '@'];
    assert_eq!(SHADE_LEVELS, expected.len());
    for (level, glyph) in expected.iter().enumerate() {
        assert_eq!(shade_glyph(level, '?'), *glyph);
    }
}

#[test]
fn dimmest_and_brightest_levels() {
    assert_eq!(shade_glyph(0, '#'), '.');
    assert_eq!(shade_glyph(SHADE_LEVELS - 1, '#'), '@');
}

#[test]
fn level_past_the_ramp_uses_fallback() {
    assert_eq!(shade_glyph(SHADE_LEVELS, '@'), '@');
    assert_eq!(shade_glyph(SHADE_LEVELS, '#'), '#');
    assert_eq!(shade_glyph(usize::MAX, '$'), '$');
}
