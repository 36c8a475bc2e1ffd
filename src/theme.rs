//! The named colours of the editor's palette, as `0xRRGGBB` values.
use vstd::prelude::*;
use crate::load_save::{chars_of, same_chars};

verus! {

/// A palette entry.
#[derive(Debug, Clone, Copy, PartialEq, Eq, Hash, Structural)]
pub enum Theme {
    Background,
    Text,
    Pillar,
    Red,
    Orange,
    Yellow,
    Green,
    Blue,
    Indigo,
    Violet,
    Brown,
    HighLight,
    HighLight1,
}

/// A word that names no colour of the palette.
#[derive(Debug, Clone, PartialEq, Eq)]
pub struct UnknownColor {
    pub name: String,
}

pub const ROSEPINE_BG: u32 = 0x26233a;
pub const DRAGON_WHITE: u32 = 0xc5c9c5;
pub const AUTUMN_RED: u32 = 0xC34043;
pub const SURIMI_ORANGE: u32 = 0xFFA066;
pub const AUTUMN_YELLOW: u32 = 0xDCA561;
pub const AUTUMN_GREEN: u32 = 0x76946A;
pub const SPRING_BLUE: u32 = 0x7FB4CA;
pub const ONI_VIOLET: u32 = 0x957FB8;
pub const LOTUS_VIOLET4: u32 = 0x624c83;
pub const WINTER_RED: u32 = 0x43242B;
pub const PEACH_RED: u32 = 0xFF5D62;
pub const WAVE_RED: u32 = 0xE46876;

/// The colour of each palette entry.
pub open spec fn theme_rgb(t: Theme) -> u32 {
    match t {
        Theme::Background => ROSEPINE_BG,
        Theme::Text => DRAGON_WHITE,
        Theme::Pillar => ROSEPINE_BG,
        Theme::Red => AUTUMN_RED,
        Theme::Orange => SURIMI_ORANGE,
        Theme::Yellow => AUTUMN_YELLOW,
        Theme::Green => AUTUMN_GREEN,
        Theme::Blue => SPRING_BLUE,
        Theme::Indigo => ONI_VIOLET,
        Theme::Violet => LOTUS_VIOLET4,
        Theme::Brown => WINTER_RED,
        Theme::HighLight => PEACH_RED,
        Theme::HighLight1 => WAVE_RED,
    }
}

/// The entries a map may name, by their names.
pub open spec fn theme_of_name(s: Seq<char>) -> Option<Theme> {
    if s == seq!['R', 'e', 'd'] {
        Some(Theme::Red)
    } else if s == seq!['O', 'r', 'a', 'n', 'g', 'e'] {
        Some(Theme::Orange)
    } else if s == seq!['Y', 'e', 'l', 'l', 'o', 'w'] {
        Some(Theme::Yellow)
    } else if s == seq!['G', 'r', 'e', 'e', 'n'] {
        Some(Theme::Green)
    } else if s == seq!['B', 'l', 'u', 'e'] {
        Some(Theme::Blue)
    } else if s == seq!['I', 'n', 'd', 'i', 'g', 'o'] {
        Some(Theme::Indigo)
    } else if s == seq!['V', 'i', 'o', 'l', 'e', 't'] {
        Some(Theme::Violet)
    } else if s == seq!['B', 'r', 'o', 'w', 'n'] {
        Some(Theme::Brown)
    } else {
        None
    }
}

impl Theme {
    /// The entry's colour as `0xRRGGBB`.
    pub fn u32(&self) -> (r: u32)
        ensures
            r == theme_rgb(*self),
    {
        match self {
            Theme::Background => ROSEPINE_BG,
            Theme::Text => DRAGON_WHITE,
            Theme::Pillar => ROSEPINE_BG,
            Theme::Red => AUTUMN_RED,
            Theme::Orange => SURIMI_ORANGE,
            Theme::Yellow => AUTUMN_YELLOW,
            Theme::Green => AUTUMN_GREEN,
            Theme::Blue => SPRING_BLUE,
            Theme::Indigo => ONI_VIOLET,
            Theme::Violet => LOTUS_VIOLET4,
            Theme::Brown => WINTER_RED,
            Theme::HighLight => PEACH_RED,
            Theme::HighLight1 => WAVE_RED,
        }
    }

    /// Reads a colour name; only the eight plain colours can be named.
    pub fn from_str(s: &str) -> (r: Result<Theme, UnknownColor>)
        ensures
            theme_of_name(s@) is Some ==> r == Ok::<Theme, UnknownColor>(theme_of_name(s@)->Some_0),
            theme_of_name(s@) is None ==> r is Err && r->Err_0.name@ == s@,
    {
        let c = chars_of(s);
        match theme_from_chars(&c) {
            Some(t) => Ok(t),
            None => Err(UnknownColor { name: s.to_string() }),
        }
    }
}

/// Reads a colour name given as characters.
pub(crate) fn theme_from_chars(c: &Vec<char>) -> (r: Option<Theme>)
    ensures
        r == theme_of_name(c@),
{
    let red = ['R', 'e', 'd'];
    let orange = ['O', 'r', 'a', 'n', 'g', 'e'];
    let yellow = ['Y', 'e', 'l', 'l', 'o', 'w'];
    let green = ['G', 'r', 'e', 'e', 'n'];
    let blue = ['B', 'l', 'u', 'e'];
    let indigo = ['I', 'n', 'd', 'i', 'g', 'o'];
    let violet = ['V', 'i', 'o', 'l', 'e', 't'];
    let brown = ['B', 'r', 'o', 'w', 'n'];
    assert(red@ =~= seq!['R', 'e', 'd']);
    assert(orange@ =~= seq!['O', 'r', 'a', 'n', 'g', 'e']);
    assert(yellow@ =~= seq!['Y', 'e', 'l', 'l', 'o', 'w']);
    assert(green@ =~= seq!['G', 'r', 'e', 'e', 'n']);
    assert(blue@ =~= seq!['B', 'l', 'u', 'e']);
    assert(indigo@ =~= seq!['I', 'n', 'd', 'i', 'g', 'o']);
    assert(violet@ =~= seq!['V', 'i', 'o', 'l', 'e', 't']);
    assert(brown@ =~= seq!['B', 'r', 'o', 'w', 'n']);
    if same_chars(c, &red) {
        Some(Theme::Red)
    } else if same_chars(c, &orange) {
        Some(Theme::Orange)
    } else if same_chars(c, &yellow) {
        Some(Theme::Yellow)
    } else if same_chars(c, &green) {
        Some(Theme::Green)
    } else if same_chars(c, &blue) {
        Some(Theme::Blue)
    } else if same_chars(c, &indigo) {
        Some(Theme::Indigo)
    } else if same_chars(c, &violet) {
        Some(Theme::Violet)
    } else if same_chars(c, &brown) {
        Some(Theme::Brown)
    } else {
        None
    }
}

} // verus!
