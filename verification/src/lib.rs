//! Diff-aware, width-aware text rendering for a terminal typing trainer.
//!
//! The library compares a target phrase against the text a user has typed,
//! marks matching, mismatched, missing and extra characters with zero-width
//! style tokens, wraps the result into display lines that stay within a
//! configured column width, and centers the block of lines on the screen.

use vstd::prelude::*;

pub mod style;
pub mod wrap;
pub mod render;
pub mod session;

verus! {

/// Holds the state of a typing session; currently empty.
#[derive(PartialEq, Eq, Structural)]
pub struct SpacedTyping;

impl SpacedTyping {
    pub fn new() -> (s: Self)
        ensures
            s == (SpacedTyping {}),
    {
        Self
    }
}

} // verus!
