use spaced_typing::session::{apply_event, KeyEvent};
use spaced_typing::SpacedTyping;

#[test]
fn character_appends() {
    let mut typed: Vec<char> = vec!['c', 'a'];
    let quit = apply_event(&mut typed, KeyEvent::Character('t'));
    assert!(!quit);
    assert_eq!(typed, vec!['c', 'a', 't']);
}

#[test]
fn backspace_removes_last() {
    let mut typed: Vec<char> = vec!['c', 'a', 't'];
    let quit = apply_event(&mut typed, KeyEvent::Backspace);
    assert!(!quit);
    assert_eq!(typed, vec!['c', 'a']);
}

#[test]
fn backspace_on_empty_buffer_changes_nothing() {
    let mut typed: Vec<char> = Vec::new();
    let quit = apply_event(&mut typed, KeyEvent::Backspace);
    assert!(!quit);
    assert!(typed.is_empty());
}

#[test]
fn quit_ends_session_without_changing_buffer() {
    let mut typed: Vec<char> = vec!['c'];
    let quit = apply_event(&mut typed, KeyEvent::Quit);
    assert!(quit);
    assert_eq!(typed, vec!['c']);
}

#[test]
fn other_keys_are_ignored() {
    let mut typed: Vec<char> = vec!['c'];
    let quit = apply_event(&mut typed, KeyEvent::Other);
    assert!(!quit);
    assert_eq!(typed, vec!['c']);
}

#[test]
fn session_state_constructs() {
    let _app = SpacedTyping::new();
}
