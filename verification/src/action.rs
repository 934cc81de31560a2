//! Editing commands.
//!
//! An [`Action`] is one keystroke-level command that an editor front end can
//! apply to a diagram.  The engine itself never produces these; they are plain
//! data that callers route to their own handling.

use vstd::prelude::*;

verus! {

/// One editing command from the user.
#[derive(Clone, Debug, PartialEq)]
pub enum Action {
    Char(char),
    Backspace,
    LeftArrow,
    RightArrow,
    UpArrow,
    DownArrow,
    LeftControlArrow,
    RightControlArrow,
    UpControlArrow,
    DownControlArrow,
    Escape,
    Enter,
    Paste(String),
    Copy,
}

} // verus!
