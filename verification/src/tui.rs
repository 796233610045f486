//! Descriptions of window decoration, read by a renderer.

use vstd::prelude::*;

verus! {

/// The eight glyphs that draw a frame around a pane.
#[derive(Clone, Copy, Debug)]
pub struct BorderSet {
    pub top_left: char,
    pub top: char,
    pub top_right: char,
    pub left: char,
    pub right: char,
    pub bottom_left: char,
    pub bottom: char,
    pub bottom_right: char,
}

impl BorderSet {
    /// Builds a border set from its glyphs, clockwise from the top-left corner
    /// for the top row, then the two sides, then the bottom row.
    pub fn new(
        top_left: char,
        top: char,
        top_right: char,
        left: char,
        right: char,
        bottom_left: char,
        bottom: char,
        bottom_right: char,
    ) -> (set: Self)
        ensures
            set == (BorderSet {
                top_left,
                top,
                top_right,
                left,
                right,
                bottom_left,
                bottom,
                bottom_right,
            }),
    {
        Self { top_left, top, top_right, left, right, bottom_left, bottom, bottom_right }
    }
}

impl Default for BorderSet {
    /// A frame of light lines with rounded corners.
    fn default() -> (set: Self)
        ensures
            set == (BorderSet {
                top_left: '\u{256d}',
                top: '\u{2500}',
                top_right: '\u{256e}',
                left: '\u{2502}',
                right: '\u{2502}',
                bottom_left: '\u{256f}',
                bottom: '\u{2500}',
                bottom_right: '\u{2570}',
            }),
    {
        Self {
            top_left: '\u{256d}',
            top: '\u{2500}',
            top_right: '\u{256e}',
            left: '\u{2502}',
            right: '\u{2502}',
            bottom_left: '\u{256f}',
            bottom: '\u{2500}',
            bottom_right: '\u{2570}',
        }
    }
}

/// Whether a pane has a frame, and which.
#[derive(Clone, Copy, Debug)]
pub enum Border {
    /// No frame.
    Nopers,
    /// A frame drawn with the given glyphs.
    Bordered(BorderSet),
}

/// What can be shown in a window.
pub trait Pane {

}

} // verus!
