use spaced_typing::render::{render, DisplayLine, RenderError};
use spaced_typing::style::{diff_tokens, StyleKind, Token};

fn chars(s: &str) -> Vec<char> {
    s.chars().collect()
}

fn v(c: char) -> Token {
    Token::Visible(c as u32)
}

fn visible_of(tokens: &[Token]) -> Vec<u32> {
    tokens
        .iter()
        .filter_map(|t| match t {
            Token::Visible(c) => Some(*c),
            _ => None,
        })
        .collect()
}

fn visible_str(tokens: &[Token]) -> String {
    visible_of(tokens)
        .iter()
        .map(|&c| char::from_u32(c).unwrap())
        .collect()
}

fn error_styled_count(tokens: &[Token]) -> usize {
    let mut open = false;
    let mut n = 0;
    for t in tokens {
        match t {
            Token::Start(k) => {
                if *k == StyleKind::Error {
                    open = true;
                }
            }
            Token::End(k) => {
                if *k == StyleKind::Error {
                    open = false;
                }
            }
            Token::Visible(_) => {
                if open {
                    n += 1;
                }
            }
        }
    }
    n
}

fn faint_styled_count(tokens: &[Token]) -> usize {
    let mut open = false;
    let mut n = 0;
    for t in tokens {
        match t {
            Token::Start(k) => {
                if *k == StyleKind::Faint {
                    open = true;
                }
            }
            Token::End(k) => {
                if *k == StyleKind::Faint {
                    open = false;
                }
            }
            Token::Visible(_) => {
                if open {
                    n += 1;
                }
            }
        }
    }
    n
}

#[test]
fn mismatch_third_character() {
    let lines = render(&chars("cat"), &chars("cap"), 50, 80, 24).unwrap();
    assert_eq!(lines.len(), 1);
    assert_eq!(
        lines[0].tokens,
        vec![
            v('c'),
            v('a'),
            Token::Start(StyleKind::Error),
            v('p'),
            Token::End(StyleKind::Error),
        ]
    );
    assert_eq!(lines[0].width, 3);
}

#[test]
fn extra_characters_styled_as_one_run() {
    let lines = render(&chars("cat"), &chars("catdog"), 50, 80, 24).unwrap();
    assert_eq!(lines.len(), 1);
    assert_eq!(
        lines[0].tokens,
        vec![
            v('c'),
            v('a'),
            v('t'),
            Token::Start(StyleKind::Error),
            v('d'),
            v('o'),
            v('g'),
            Token::End(StyleKind::Error),
        ]
    );
}

#[test]
fn pending_characters_styled_faint() {
    let lines = render(&chars("cat"), &chars("ca"), 50, 80, 24).unwrap();
    assert_eq!(lines.len(), 1);
    assert_eq!(
        lines[0].tokens,
        vec![
            v('c'),
            v('a'),
            Token::Start(StyleKind::Faint),
            v('t'),
            Token::End(StyleKind::Faint),
        ]
    );
}

#[test]
fn wraps_at_space_boundaries() {
    let text = "alpha beta gamma delta";
    let lines = render(&chars(text), &chars(text), 10, 80, 24).unwrap();
    assert_eq!(lines.len(), 3);
    assert_eq!(visible_str(&lines[0].tokens), "alpha beta");
    assert_eq!(visible_str(&lines[1].tokens), "gamma");
    assert_eq!(visible_str(&lines[2].tokens), "delta");
    for line in &lines {
        assert!(line.width <= 10);
        assert_eq!(line.width as usize, visible_of(&line.tokens).len());
    }
}

#[test]
fn zero_max_width_is_a_configuration_error() {
    let r = render(&chars("cat"), &chars("ca"), 0, 80, 24);
    assert_eq!(r, Err(RenderError::InvalidMaxWidth));
}

#[test]
fn equal_length_mismatch_count() {
    // three differing positions out of five
    let toks = diff_tokens(&chars("abcde"), &chars("axcxx"));
    assert_eq!(error_styled_count(&toks), 3);
    assert_eq!(faint_styled_count(&toks), 0);
    assert_eq!(visible_str(&toks), "axcxx");
}

#[test]
fn longer_typed_extra_count() {
    // one mismatch in the overlap, two extra characters
    let toks = diff_tokens(&chars("ab"), &chars("xbcd"));
    assert_eq!(error_styled_count(&toks), 3);
    assert_eq!(faint_styled_count(&toks), 0);
    assert_eq!(visible_str(&toks), "xbcd");
}

#[test]
fn shorter_typed_pending_count() {
    let toks = diff_tokens(&chars("abcde"), &chars("ab"));
    assert_eq!(error_styled_count(&toks), 0);
    assert_eq!(faint_styled_count(&toks), 3);
    assert_eq!(visible_str(&toks), "abcde");
}

#[test]
fn mismatch_and_pending_together() {
    let toks = diff_tokens(&chars("abcd"), &chars("ax"));
    assert_eq!(
        toks,
        vec![
            v('a'),
            Token::Start(StyleKind::Error),
            v('x'),
            Token::End(StyleKind::Error),
            Token::Start(StyleKind::Faint),
            v('c'),
            v('d'),
            Token::End(StyleKind::Faint),
        ]
    );
}

#[test]
fn empty_texts_produce_no_tokens() {
    let toks = diff_tokens(&chars(""), &chars(""));
    assert!(toks.is_empty());
}

#[test]
fn rendering_twice_is_identical() {
    let target = chars("this is a test sentence");
    let typed = chars("this is a tast");
    let a: Vec<DisplayLine> = render(&target, &typed, 12, 100, 40).unwrap();
    let b: Vec<DisplayLine> = render(&target, &typed, 12, 100, 40).unwrap();
    assert_eq!(a, b);
}

#[test]
fn empty_texts_render_no_lines() {
    let lines = render(&chars(""), &chars(""), 50, 80, 24).unwrap();
    assert_eq!(lines.len(), 0);
}

#[test]
fn single_overlong_word_is_not_split() {
    let word = "abcdefghijkl";
    let lines = render(&chars(word), &chars(word), 5, 80, 24).unwrap();
    assert_eq!(lines.len(), 1);
    assert_eq!(visible_str(&lines[0].tokens), word);
    assert_eq!(lines[0].width, 12);
}

#[test]
fn styled_run_stays_balanced_across_wrap() {
    // the extra run spans a line break: both lines must carry balanced markers
    let lines = render(&chars("cat"), &chars("cat hello world xyz"), 10, 80, 24).unwrap();
    assert_eq!(lines.len(), 2);
    assert_eq!(
        lines[0].tokens,
        vec![
            v('c'),
            v('a'),
            v('t'),
            Token::Start(StyleKind::Error),
            v(' '),
            v('h'),
            v('e'),
            v('l'),
            v('l'),
            v('o'),
            Token::End(StyleKind::Error),
        ]
    );
    assert_eq!(
        lines[1].tokens,
        vec![
            Token::Start(StyleKind::Error),
            v('w'),
            v('o'),
            v('r'),
            v('l'),
            v('d'),
            v(' '),
            v('x'),
            v('y'),
            v('z'),
            Token::End(StyleKind::Error),
        ]
    );
}

#[test]
fn concatenation_restores_visible_characters() {
    let text = "alpha beta gamma delta";
    let lines = render(&chars(text), &chars(text), 10, 80, 24).unwrap();
    let joined: Vec<String> = lines.iter().map(|l| visible_str(&l.tokens)).collect();
    assert_eq!(joined.join(" "), text);
}

#[test]
fn block_is_centered() {
    let lines = render(&chars("cat"), &chars("cat"), 50, 100, 40).unwrap();
    assert_eq!(lines.len(), 1);
    // column: 100/2 - 50/2; row: 40/2 - 1/2
    assert_eq!(lines[0].col, 25);
    assert_eq!(lines[0].row, 20);
}

#[test]
fn rows_are_consecutive_from_block_start() {
    let text = "alpha beta gamma delta";
    let lines = render(&chars(text), &chars(text), 10, 80, 25).unwrap();
    assert_eq!(lines.len(), 3);
    // row of the block: 25/2 - 3/2 = 12 - 1 = 11
    assert_eq!(lines[0].row, 11);
    assert_eq!(lines[1].row, 12);
    assert_eq!(lines[2].row, 13);
    // all lines share the same left edge
    assert_eq!(lines[0].col, lines[1].col);
    assert_eq!(lines[1].col, lines[2].col);
}

#[test]
fn origins_may_be_negative_without_clamping() {
    let text = "alpha beta gamma delta";
    let lines = render(&chars(text), &chars(text), 30, 10, 1).unwrap();
    assert_eq!(lines.len(), 1);
    // column: 10/2 - 30/2 = -10; the renderer defers clipping
    assert_eq!(lines[0].col, -10);
}
