//! Terrain styles ("eras"): eight fixed visual themes, selected modulo 8.
use vstd::prelude::*;

verus! {

/// Number of terrain styles; an era selects style `era % STYLE_COUNT`.
pub const STYLE_COUNT: u16 = 8;

/// The descriptive name of terrain style `style` (meaningful for `style < 8`).
pub open spec fn style_name(style: u16) -> Seq<char> {
    if style == 0 {
        "Badlands"@
    } else if style == 1 {
        "Space Platform"@
    } else if style == 2 {
        "Installation"@
    } else if style == 3 {
        "Ashworld"@
    } else if style == 4 {
        "Jungle"@
    } else if style == 5 {
        "Desert"@
    } else if style == 6 {
        "Arctic"@
    } else {
        "Twilight"@
    }
}

/// The name of the terrain style that `era` selects.
pub fn era_as_str(era: u16) -> (r: &'static str)
    ensures
        r@ == style_name(era % STYLE_COUNT),
{
    let style: u16 = era % STYLE_COUNT;
    if style == 0 {
        "Badlands"
    } else if style == 1 {
        "Space Platform"
    } else if style == 2 {
        "Installation"
    } else if style == 3 {
        "Ashworld"
    } else if style == 4 {
        "Jungle"
    } else if style == 5 {
        "Desert"
    } else if style == 6 {
        "Arctic"
    } else {
        "Twilight"
    }
}

} // verus!
