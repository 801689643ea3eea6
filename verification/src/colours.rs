//! The palette: 24-bit colour values.

use vstd::prelude::*;

verus! {

pub const WHITE: u32 = 0xFFFFFF;

pub const BLACK: u32 = 0x0;

pub const RED: u32 = 0xFF0000;

pub const GREEN: u32 = 0x00FF00;

pub const BLUE: u32 = 0x0000FF;

pub const CERISE: u32 = 0xE83D84;

pub const RUST: u32 = 0xF74C00;

/// The light theme, one pastel per tree depth; deeper levels fall back
/// to white.
pub open spec fn light_theme_at(i: int) -> u32 {
    if i == 0 {
        0xACDDDE
    } else if i == 1 {
        0xCAF1DE
    } else if i == 2 {
        0xE1F8DC
    } else if i == 3 {
        0xFEF8DD
    } else if i == 4 {
        0xFFE7C7
    } else if i == 5 {
        0xF7D8BA
    } else {
        WHITE
    }
}

pub fn light_theme(i: usize) -> (c: u32)
    ensures
        c == light_theme_at(i as int),
{
    if i == 0 {
        0xACDDDE
    } else if i == 1 {
        0xCAF1DE
    } else if i == 2 {
        0xE1F8DC
    } else if i == 3 {
        0xFEF8DD
    } else if i == 4 {
        0xFFE7C7
    } else if i == 5 {
        0xF7D8BA
    } else {
        WHITE
    }
}

} // verus!
