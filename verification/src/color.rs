//! The palette of tile states: six playable colors plus a distinguished
//! blank ("not a color") sentinel used for empty cells.

use rand::Rng;
use vstd::prelude::*;

verus! {

/// One member of the fixed seven-value palette: six playable tile colors
/// plus the `_BLANK` empty-cell sentinel.
#[derive(Debug, Clone, Copy, PartialEq, Eq, Structural)]
pub enum Color {
    /// Blank — "not-a-color", the empty-cell sentinel.
    _BLANK,
    /// Red
    R,
    /// Green
    G,
    /// Blue
    B,
    /// Yellow
    Y,
    /// Black
    X,
    /// White
    O,
}

/// The color selected by a random draw of `i` from `{0, 1, 2, 3, 4, 5}`.
pub open spec fn spec_from_index(i: int) -> Color {
    if i == 0 {
        Color::B
    } else if i == 1 {
        Color::G
    } else if i == 2 {
        Color::O
    } else if i == 3 {
        Color::R
    } else if i == 4 {
        Color::X
    } else {
        Color::Y
    }
}

/// The 4-channel pixel value (red, green, blue, alpha) of a color, each
/// channel on the 0-255 scale.
pub open spec fn spec_rgba(c: Color) -> (u32, u32, u32, u32) {
    match c {
        Color::B => (0u32, 0u32, 255u32, 255u32),
        Color::G => (0u32, 255u32, 0u32, 255u32),
        Color::O => (255u32, 255u32, 255u32, 255u32),
        Color::R => (255u32, 0u32, 0u32, 255u32),
        Color::X => (0u32, 0u32, 0u32, 255u32),
        Color::Y => (255u32, 255u32, 0u32, 255u32),
        Color::_BLANK => (0u32, 0u32, 0u32, 0u32),
    }
}

/// The single-character textual glyph of a color.
pub open spec fn glyph_char(c: Color) -> char {
    match c {
        Color::B => 'B',
        Color::G => 'G',
        Color::O => '#',
        Color::R => 'R',
        Color::Y => 'Y',
        Color::X => '-',
        Color::_BLANK => ' ',
    }
}

/// Relies on rand's `thread_rng` and `Rng::gen_range`: a draw from the
/// range `0..6` is a value in `{0, 1, 2, 3, 4, 5}`. Nothing more is
/// assumed of the draw.
#[verifier::external_body]
fn random_index() -> (i: u32)
    ensures
        i < 6,
{
    rand::thread_rng().gen_range(0u32..6u32)
}

impl Color {
    /// Generate a "blank" [Color].
    pub fn blank() -> (c: Self)
        ensures
            c == Color::_BLANK,
    {
        Self::_BLANK
    }

    /// The playable color assigned to a sampled index in `{0, ..., 5}`.
    pub fn from_index(i: u32) -> (c: Self)
        requires
            i < 6,
        ensures
            c == spec_from_index(i as int),
            c != Color::_BLANK,
    {
        match i {
            0 => Self::B,
            1 => Self::G,
            2 => Self::O,
            3 => Self::R,
            4 => Self::X,
            _ => Self::Y,
        }
    }

    /// Generate a random [Color]: always one of the six playable members,
    /// never `_BLANK`.
    pub fn random() -> (c: Self)
        ensures
            c != Color::_BLANK,
    {
        Self::from_index(random_index())
    }

    /// The pixel value of this color: a (red, green, blue, alpha) tuple of
    /// channels on the 0-255 scale.
    pub fn as_rgba(&self) -> (rgba: (u32, u32, u32, u32))
        ensures
            rgba == spec_rgba(*self),
    {
        match self {
            Self::B => (0, 0, 255, 255),
            Self::G => (0, 255, 0, 255),
            Self::O => (255, 255, 255, 255),
            Self::R => (255, 0, 0, 255),
            Self::X => (0, 0, 0, 255),
            Self::Y => (255, 255, 0, 255),
            Self::_BLANK => (0, 0, 0, 0),
        }
    }

    /// The one-character textual glyph of this color, as a string slice.
    pub fn glyph(&self) -> (g: &'static str)
        ensures
            g@ == seq![glyph_char(*self)],
    {
        let g: &'static str = match self {
            Self::B => "B",
            Self::G => "G",
            Self::O => "#",
            Self::R => "R",
            Self::Y => "Y",
            Self::X => "-",
            Self::_BLANK => " ",
        };
        proof {
            reveal_strlit("B");
            reveal_strlit("G");
            reveal_strlit("#");
            reveal_strlit("R");
            reveal_strlit("Y");
            reveal_strlit("-");
            reveal_strlit(" ");
            assert(g@ =~= seq![glyph_char(*self)]);
        }
        g
    }
}

} // verus!
