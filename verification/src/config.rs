//! Faces: how the parts of a line are coloured.

use vstd::prelude::*;

verus! {

/// One of the eight basic terminal colours.
#[derive(Clone, Copy, Debug, PartialEq, Eq)]
pub enum Color {
    Black,
    Blue,
    Green,
    Red,
    Cyan,
    Magenta,
    Yellow,
    White,
}

/// Foreground, background and weight of a stretch of text.
#[derive(Clone, Copy, Debug, PartialEq, Eq)]
pub struct Face {
    pub fg: Option<Color>,
    pub bg: Option<Color>,
    pub bold: bool,
}

/// The face with the given attributes.
pub fn color_spec(fg: Option<Color>, bg: Option<Color>, bold: bool) -> (face: Face)
    ensures
        face == (Face { fg, bg, bold }),
{
    Face { fg, bg, bold }
}

/// The face of text that is not coloured at all.
pub open spec fn plain_face() -> Face {
    Face { fg: None, bg: None, bold: false }
}

impl Face {
    /// The face of text that is not coloured at all.
    pub fn plain() -> (face: Face)
        ensures
            face == plain_face(),
    {
        Face { fg: None, bg: None, bold: false }
    }
}

/// The faces of the four kinds of text in a hunk, and whether timings are
/// taken.
#[derive(Clone, Copy, Debug)]
pub struct AppConfig {
    pub debug: bool,
    pub added_face: Face,
    pub refine_added_face: Face,
    pub removed_face: Face,
    pub refine_removed_face: Face,
}

/// The configuration that applies where nothing else is asked for.
pub open spec fn default_config() -> AppConfig {
    AppConfig {
        debug: false,
        added_face: Face { fg: Some(Color::Green), bg: None, bold: false },
        refine_added_face: Face { fg: Some(Color::White), bg: Some(Color::Green), bold: true },
        removed_face: Face { fg: Some(Color::Red), bg: None, bold: false },
        refine_removed_face: Face { fg: Some(Color::White), bg: Some(Color::Red), bold: true },
    }
}

impl Default for AppConfig {
    fn default() -> (config: Self)
        ensures
            config == default_config(),
    {
        AppConfig {
            debug: false,
            added_face: color_spec(Some(Color::Green), None, false),
            refine_added_face: color_spec(Some(Color::White), Some(Color::Green), true),
            removed_face: color_spec(Some(Color::Red), None, false),
            refine_removed_face: color_spec(Some(Color::White), Some(Color::Red), true),
        }
    }
}

} // verus!
