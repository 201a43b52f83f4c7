//! The settings the front end persists: the overlay's font face and the
//! furigana filter switch. A stored face name other than `serif` reads as
//! sans, and every setting the store lacks reads as its default.
use vstd::prelude::*;
use crate::text::{chars_equal, chars_of};

verus! {

/// The name of the settings file inside the data directory.
pub const SETTINGS_FILE: &'static str = "settings.json";

/// The face the overlay paints in.
#[derive(Debug, Clone, Copy, PartialEq, Eq, Structural)]
pub enum FontFace {
    Sans,
    Serif,
}

impl Default for FontFace {
    fn default() -> (r: Self)
        ensures
            r == FontFace::Sans,
    {
        FontFace::Sans
    }
}

/// The face a stored name selects: `serif` is serif, any other name sans.
pub open spec fn face_named(name: Seq<char>) -> FontFace {
    if name == "serif"@ {
        FontFace::Serif
    } else {
        FontFace::Sans
    }
}

/// The stored name of a face.
pub open spec fn face_name(face: FontFace) -> Seq<char> {
    match face {
        FontFace::Sans => "sans"@,
        FontFace::Serif => "serif"@,
    }
}

impl FontFace {
    /// The face a stored name selects (see [`face_named`]).
    pub fn from_name(name: &str) -> (r: FontFace)
        ensures
            r == face_named(name@),
    {
        if chars_equal(&chars_of(name), &chars_of("serif")) {
            FontFace::Serif
        } else {
            FontFace::Sans
        }
    }

    /// The name under which a face is stored (see [`face_name`]).
    pub fn name(&self) -> (r: String)
        ensures
            r@ == face_name(*self),
    {
        match self {
            FontFace::Sans => String::from_str("sans"),
            FontFace::Serif => String::from_str("serif"),
        }
    }
}

/// A face survives being stored by name and read back.
pub proof fn law_face_name_roundtrip(face: FontFace)
    ensures
        face_named(face_name(face)) == face,
{
    reveal_strlit("sans");
    reveal_strlit("serif");
    assert("sans"@.len() != "serif"@.len());
}

/// Everything the front end persists.
#[derive(Debug, Clone, PartialEq, Eq, Structural)]
pub struct AppSettings {
    /// The face the overlay and the dictionary panel paint in.
    pub overlay_font: FontFace,
    /// Whether small contours that look like furigana are dropped from
    /// screenshots before recognition; off unless switched on.
    pub furigana_filter: bool,
}

impl Default for AppSettings {
    fn default() -> (r: Self)
        ensures
            r == (AppSettings { overlay_font: FontFace::Sans, furigana_filter: false }),
    {
        AppSettings { overlay_font: FontFace::Sans, furigana_filter: false }
    }
}

} // verus!
