use vstd::prelude::*;

verus! {

/// The glyphs of lit surfaces, from the dimmest to the brightest.
pub open spec fn shade_ramp() -> Seq<char> {
    seq!['.', ',', '-', '~', ':', ';', '=', '!', '*', '#', '$', '@']
}

/// How many brightness levels the ramp has.
pub const SHADE_LEVELS: usize = 12;

/// `SHADE_LEVELS` counts the glyphs of the ramp, so levels
/// `0..SHADE_LEVELS` are exactly the ones that show a ramp glyph.
pub proof fn lemma_shade_levels_cover_ramp()
    ensures
        SHADE_LEVELS == shade_ramp().len(),
{
}

/// The glyph that shows brightness `level`; a level past the brightest one
/// shows `fallback` instead.
pub fn shade_glyph(level: usize, fallback: char) -> (glyph: char)
    ensures
        level < shade_ramp().len() ==> glyph == shade_ramp()[level as int],
        level >= shade_ramp().len() ==> glyph == fallback,
        level < 12 ==> glyph == seq!['.', ',', '-', '~', ':', ';', '=', '!', '*', '#', '$', '@'][level as int],
        level >= 12 ==> glyph == fallback,
{
    match level {
        0 => '.',
        1 => ',',
        2 => '-',
        3 => '~',
        4 => ':',
        5 => ';',
        6 => '=',
        7 => '!',
        8 => '*',
        9 => '#',
        10 => '$',
        11 => '@',
        _ => fallback,
    }
}

} // verus!
