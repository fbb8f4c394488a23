//! The kinds of keys and their colours.
//!
//! Colours are 24-bit RGB values, red in the highest byte.

use vstd::prelude::*;

verus! {

/// The kind of a key, which decides its colours.
#[derive(Clone, Copy, Debug, PartialEq, Eq, Structural)]
pub enum ButtonStyle {
    /// A digit or the point.
    Number,
    /// An arithmetic operator.
    Operator,
    /// The key that asks for the result.
    Equal,
    /// Brackets and clearing.
    Misc,
}

impl Default for ButtonStyle {
    /// A key is a number key unless it is said to be another.
    fn default() -> (r: ButtonStyle)
        ensures
            r == ButtonStyle::Number,
    {
        ButtonStyle::Number
    }
}

impl ButtonStyle {
    /// The colour of the key at rest.
    pub open spec fn resting(self) -> u32 {
        match self {
            ButtonStyle::Number => 0x666666,
            ButtonStyle::Operator | ButtonStyle::Equal => 0x103f61,
            ButtonStyle::Misc => 0x3a3a3a,
        }
    }

    /// The colour of the key under the pointer.
    pub open spec fn hovered(self) -> u32 {
        match self {
            ButtonStyle::Number => 0x9c9c9c,
            ButtonStyle::Operator | ButtonStyle::Equal => 0x165a8a,
            ButtonStyle::Misc => 0x545454,
        }
    }

    /// The colour of the key while it is held down.
    pub open spec fn pressed(self) -> u32 {
        match self {
            ButtonStyle::Number => 0x474747,
            ButtonStyle::Operator | ButtonStyle::Equal => 0x09263b,
            ButtonStyle::Misc => 0x171717,
        }
    }
}

/// The background colour of a key at rest.
pub fn get_background_color(style: &ButtonStyle) -> (rgb: u32)
    ensures
        rgb == style.resting(),
{
    match style {
        ButtonStyle::Number => 0x666666,
        ButtonStyle::Operator => 0x103f61,
        ButtonStyle::Equal => 0x103f61,
        ButtonStyle::Misc => 0x3a3a3a,
    }
}

/// The background colour of a key under the pointer.
pub fn get_hovered_background_color(style: &ButtonStyle) -> (rgb: u32)
    ensures
        rgb == style.hovered(),
{
    match style {
        ButtonStyle::Number => 0x9c9c9c,
        ButtonStyle::Operator => 0x165a8a,
        ButtonStyle::Equal => 0x165a8a,
        ButtonStyle::Misc => 0x545454,
    }
}

/// The background colour of a key while it is held down.
pub fn get_pressed_background_color(style: &ButtonStyle) -> (rgb: u32)
    ensures
        rgb == style.pressed(),
{
    match style {
        ButtonStyle::Number => 0x474747,
        ButtonStyle::Operator => 0x09263b,
        ButtonStyle::Equal => 0x09263b,
        ButtonStyle::Misc => 0x171717,
    }
}

} // verus!
