//! Session state transitions: how one logical key event changes the
//! typed-text buffer and whether it ends the session. The host loop
//! acquires events and draws; the decision itself lives here.

use vstd::prelude::*;

verus! {

/// A logical key event, as the key-event collaborator reports it.
#[derive(Clone, Copy, Debug, PartialEq, Eq, Structural)]
pub enum KeyEvent {
    /// A printable character was typed.
    Character(char),
    /// The last typed character is to be removed.
    Backspace,
    /// The session is to end.
    Quit,
    /// Any other key; ignored.
    Other,
}

/// Applies one key event to the typed-text buffer and reports whether
/// the session should end: a character is appended, a backspace removes
/// the last character (and leaves an empty buffer unchanged), a quit
/// request changes nothing but ends the session, and any other key is
/// ignored.
pub fn apply_event(typed: &mut Vec<char>, ev: KeyEvent) -> (quit: bool)
    ensures
        match ev {
            KeyEvent::Character(c) => final(typed)@ == old(typed)@.push(c) && !quit,
            KeyEvent::Backspace => (if old(typed)@.len() == 0 {
                final(typed)@ == old(typed)@
            } else {
                final(typed)@ == old(typed)@.drop_last()
            }) && !quit,
            KeyEvent::Quit => final(typed)@ == old(typed)@ && quit,
            KeyEvent::Other => final(typed)@ == old(typed)@ && !quit,
        },
{
    match ev {
        KeyEvent::Character(c) => {
            typed.push(c);
            false
        },
        KeyEvent::Backspace => {
            typed.pop();
            proof {
                if old(typed)@.len() > 0 {
                    assert(typed@ =~= old(typed)@.drop_last());
                }
            }
            false
        },
        KeyEvent::Quit => true,
        KeyEvent::Other => false,
    }
}

} // verus!
