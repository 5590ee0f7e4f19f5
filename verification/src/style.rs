//! Style token model: classifies each position of the (target, typed)
//! comparison and represents the outcome as a linear stream of visible
//! characters and zero-width style markers.
//!
//! Characters are handled as Unicode scalar values (`u32`), one comparison
//! unit per scalar.

use vstd::prelude::*;

verus! {

/// A visual style applied to a run of characters.
#[derive(Clone, Copy, Debug, PartialEq, Eq, Structural)]
pub enum StyleKind {
    /// Marks a mismatched or extra character.
    Error,
    /// Marks a character of the target not yet typed.
    Faint,
}

/// One element of a styled text stream: a visible character (as its Unicode
/// scalar value), or a zero-width marker opening or closing a styled run.
#[derive(Clone, Copy, Debug, PartialEq, Eq, Structural)]
pub enum Token {
    Visible(u32),
    Start(StyleKind),
    End(StyleKind),
}

/// The Unicode scalar values of a character sequence, in order.
pub open spec fn scalars(cs: Seq<char>) -> Seq<u32> {
    cs.map_values(|c: char| c as u32)
}

/// The visible scalars a single token contributes: one for a character,
/// none for a marker.
pub open spec fn tok_vis(t: Token) -> Seq<u32> {
    match t {
        Token::Visible(c) => seq![c],
        Token::Start(_) => Seq::empty(),
        Token::End(_) => Seq::empty(),
    }
}

/// The visible scalars of a token stream, in order, markers stripped.
pub open spec fn visible(toks: Seq<Token>) -> Seq<u32>
    decreases toks.len(),
{
    if toks.len() == 0 {
        Seq::empty()
    } else {
        tok_vis(toks[0]) + visible(toks.skip(1))
    }
}

/// The scalars of `cs`, each as a visible token.
pub open spec fn chars_as_tokens(cs: Seq<u32>) -> Seq<Token> {
    Seq::new(cs.len(), |i: int| Token::Visible(cs[i]))
}

/// The tokens produced for one position of the overlapping prefix:
/// the typed character, wrapped in error markers when it differs from
/// the target character.
pub open spec fn diff_one(tc: u32, sc: u32) -> Seq<Token> {
    if sc == tc {
        seq![Token::Visible(sc)]
    } else {
        seq![Token::Start(StyleKind::Error), Token::Visible(sc), Token::End(StyleKind::Error)]
    }
}

/// The tokens produced for the first `n` positions of the overlapping prefix.
pub open spec fn diff_overlap(target: Seq<u32>, typed: Seq<u32>, n: int) -> Seq<Token>
    decreases n,
{
    if n <= 0 {
        Seq::empty()
    } else {
        diff_overlap(target, typed, n - 1) + diff_one(target[n - 1], typed[n - 1])
    }
}

/// A contiguous styled run: the characters of `cs` between one pair of
/// start/end markers of kind `k`.
pub open spec fn styled_run(k: StyleKind, cs: Seq<u32>) -> Seq<Token> {
    seq![Token::Start(k)] + chars_as_tokens(cs) + seq![Token::End(k)]
}

/// Length of the overlapping prefix of the two texts.
pub open spec fn overlap_len(target: Seq<u32>, typed: Seq<u32>) -> int {
    if target.len() <= typed.len() {
        target.len() as int
    } else {
        typed.len() as int
    }
}

/// The full diff of `typed` against `target`, both given as scalar
/// sequences: the overlapping prefix compared position by position, then
/// the excess of the longer text as one contiguous run — error-styled
/// extra characters when typed is longer, faint-styled pending characters
/// when target is longer.
pub open spec fn diff_scalars(target: Seq<u32>, typed: Seq<u32>) -> Seq<Token> {
    let base = diff_overlap(target, typed, overlap_len(target, typed));
    if typed.len() > target.len() {
        base + styled_run(StyleKind::Error, typed.skip(target.len() as int))
    } else if target.len() > typed.len() {
        base + styled_run(StyleKind::Faint, target.skip(typed.len() as int))
    } else {
        base
    }
}

/// The full diff of the typed text against the target text.
pub open spec fn diff_spec(target: Seq<char>, typed: Seq<char>) -> Seq<Token> {
    diff_scalars(scalars(target), scalars(typed))
}

/// The number of positions among the first `n` where the two texts differ.
pub open spec fn mismatch_count(target: Seq<u32>, typed: Seq<u32>, n: int) -> int
    decreases n,
{
    if n <= 0 {
        0
    } else {
        mismatch_count(target, typed, n - 1) + if typed[n - 1] != target[n - 1] {
            1int
        } else {
            0int
        }
    }
}

/// The number of visible characters that lie inside a styled run of kind
/// `k`, scanning `toks` with `open` telling whether such a run is already
/// open at the start.
pub open spec fn styled_count_from(toks: Seq<Token>, k: StyleKind, open: bool) -> int
    decreases toks.len(),
{
    if toks.len() == 0 {
        0
    } else {
        match toks[0] {
            Token::Start(k2) => styled_count_from(toks.skip(1), k, open || k2 == k),
            Token::End(k2) => styled_count_from(toks.skip(1), k, open && k2 != k),
            Token::Visible(_) => (if open {
                1int
            } else {
                0int
            }) + styled_count_from(toks.skip(1), k, open),
        }
    }
}

/// The number of visible characters styled with kind `k` in `toks`.
pub open spec fn styled_count(toks: Seq<Token>, k: StyleKind) -> int {
    styled_count_from(toks, k, false)
}

/// Whether a run of kind `k` is open after scanning all of `toks`,
/// starting from `open`.
pub open spec fn open_after(toks: Seq<Token>, k: StyleKind, open: bool) -> bool
    decreases toks.len(),
{
    if toks.len() == 0 {
        open
    } else {
        match toks[0] {
            Token::Start(k2) => open_after(toks.skip(1), k, open || k2 == k),
            Token::End(k2) => open_after(toks.skip(1), k, open && k2 != k),
            Token::Visible(_) => open_after(toks.skip(1), k, open),
        }
    }
}

proof fn lemma_count_concat(a: Seq<Token>, b: Seq<Token>, k: StyleKind, open: bool)
    ensures
        styled_count_from(a + b, k, open) == styled_count_from(a, k, open) + styled_count_from(
            b,
            k,
            open_after(a, k, open),
        ),
        open_after(a + b, k, open) == open_after(b, k, open_after(a, k, open)),
    decreases a.len(),
{
    if a.len() == 0 {
        assert(a + b =~= b);
    } else {
        assert((a + b)[0] == a[0]);
        assert((a + b).skip(1) =~= a.skip(1) + b);
        match a[0] {
            Token::Start(k2) => lemma_count_concat(a.skip(1), b, k, open || k2 == k),
            Token::End(k2) => lemma_count_concat(a.skip(1), b, k, open && k2 != k),
            Token::Visible(_) => lemma_count_concat(a.skip(1), b, k, open),
        }
    }
}

proof fn lemma_count_chars(cs: Seq<u32>, k: StyleKind, open: bool)
    ensures
        open_after(chars_as_tokens(cs), k, open) == open,
        styled_count_from(chars_as_tokens(cs), k, open) == if open {
            cs.len() as int
        } else {
            0int
        },
    decreases cs.len(),
{
    if cs.len() != 0 {
        assert(chars_as_tokens(cs)[0] == Token::Visible(cs[0]));
        assert(chars_as_tokens(cs).skip(1) =~= chars_as_tokens(cs.skip(1)));
        lemma_count_chars(cs.skip(1), k, open);
    }
}

proof fn lemma_count_diff_one(tc: u32, sc: u32, k: StyleKind)
    ensures
        open_after(diff_one(tc, sc), k, false) == false,
        styled_count_from(diff_one(tc, sc), k, false) == if sc != tc && k == StyleKind::Error {
            1int
        } else {
            0int
        },
{
    reveal_with_fuel(styled_count_from, 5);
    reveal_with_fuel(open_after, 5);
    if sc == tc {
        let s = diff_one(tc, sc);
        assert(s.skip(1) =~= Seq::<Token>::empty());
    } else {
        let s = diff_one(tc, sc);
        assert(s.skip(1) =~= seq![Token::Visible(sc), Token::End(StyleKind::Error)]);
        assert(s.skip(1).skip(1) =~= seq![Token::End(StyleKind::Error)]);
        assert(s.skip(1).skip(1).skip(1) =~= Seq::<Token>::empty());
    }
}

proof fn lemma_count_run(k2: StyleKind, cs: Seq<u32>, k: StyleKind)
    ensures
        open_after(styled_run(k2, cs), k, false) == false,
        styled_count_from(styled_run(k2, cs), k, false) == if k2 == k {
            cs.len() as int
        } else {
            0int
        },
{
    reveal_with_fuel(styled_count_from, 3);
    reveal_with_fuel(open_after, 3);
    let s = seq![Token::Start(k2)];
    let e = seq![Token::End(k2)];
    lemma_count_chars(cs, k, k2 == k);
    assert(s.skip(1) =~= Seq::<Token>::empty());
    assert(e.skip(1) =~= Seq::<Token>::empty());
    lemma_count_concat(s, chars_as_tokens(cs), k, false);
    lemma_count_concat(s + chars_as_tokens(cs), e, k, false);
}

proof fn lemma_count_overlap(target: Seq<u32>, typed: Seq<u32>, n: int, k: StyleKind)
    ensures
        open_after(diff_overlap(target, typed, n), k, false) == false,
        styled_count_from(diff_overlap(target, typed, n), k, false) == if k == StyleKind::Error {
            mismatch_count(target, typed, n)
        } else {
            0int
        },
    decreases n,
{
    if n > 0 {
        lemma_count_overlap(target, typed, n - 1, k);
        lemma_count_diff_one(target[n - 1], typed[n - 1], k);
        lemma_count_concat(
            diff_overlap(target, typed, n - 1),
            diff_one(target[n - 1], typed[n - 1]),
            k,
            false,
        );
    }
}

/// For texts of equal length, the diff contains exactly one error-styled
/// character for each position where the two differ, and no faint-styled
/// characters.
pub proof fn lemma_equal_length_mismatches(target: Seq<u32>, typed: Seq<u32>)
    requires
        target.len() == typed.len(),
    ensures
        styled_count(diff_scalars(target, typed), StyleKind::Error) == mismatch_count(
            target,
            typed,
            target.len() as int,
        ),
        styled_count(diff_scalars(target, typed), StyleKind::Faint) == 0,
{
    lemma_count_overlap(target, typed, target.len() as int, StyleKind::Error);
    lemma_count_overlap(target, typed, target.len() as int, StyleKind::Faint);
}

/// When the typed text is longer than the target, the diff ends with the
/// excess characters as one contiguous error-styled run; the error-styled
/// characters are the mismatches of the overlap plus exactly
/// `typed.len() - target.len()` extra characters, and no character is
/// faint-styled.
pub proof fn lemma_extra_styling(target: Seq<u32>, typed: Seq<u32>)
    requires
        typed.len() > target.len(),
    ensures
        diff_scalars(target, typed) == diff_overlap(target, typed, target.len() as int)
            + styled_run(StyleKind::Error, typed.skip(target.len() as int)),
        styled_count(diff_scalars(target, typed), StyleKind::Error) == mismatch_count(
            target,
            typed,
            target.len() as int,
        ) + (typed.len() - target.len()),
        styled_count(diff_scalars(target, typed), StyleKind::Faint) == 0,
{
    let n = target.len() as int;
    let run = styled_run(StyleKind::Error, typed.skip(n));
    lemma_count_overlap(target, typed, n, StyleKind::Error);
    lemma_count_overlap(target, typed, n, StyleKind::Faint);
    lemma_count_run(StyleKind::Error, typed.skip(n), StyleKind::Error);
    lemma_count_run(StyleKind::Error, typed.skip(n), StyleKind::Faint);
    lemma_count_concat(diff_overlap(target, typed, n), run, StyleKind::Error, false);
    lemma_count_concat(diff_overlap(target, typed, n), run, StyleKind::Faint, false);
}

/// When the target is longer than the typed text, the diff ends with the
/// characters not yet typed as one contiguous faint-styled run; exactly
/// `target.len() - typed.len()` characters are faint-styled, and the
/// error-styled characters are the mismatches of the overlap alone.
pub proof fn lemma_pending_styling(target: Seq<u32>, typed: Seq<u32>)
    requires
        target.len() > typed.len(),
    ensures
        diff_scalars(target, typed) == diff_overlap(target, typed, typed.len() as int)
            + styled_run(StyleKind::Faint, target.skip(typed.len() as int)),
        styled_count(diff_scalars(target, typed), StyleKind::Faint) == target.len() - typed.len(),
        styled_count(diff_scalars(target, typed), StyleKind::Error) == mismatch_count(
            target,
            typed,
            typed.len() as int,
        ),
{
    let n = typed.len() as int;
    let run = styled_run(StyleKind::Faint, target.skip(n));
    lemma_count_overlap(target, typed, n, StyleKind::Error);
    lemma_count_overlap(target, typed, n, StyleKind::Faint);
    lemma_count_run(StyleKind::Faint, target.skip(n), StyleKind::Error);
    lemma_count_run(StyleKind::Faint, target.skip(n), StyleKind::Faint);
    lemma_count_concat(diff_overlap(target, typed, n), run, StyleKind::Error, false);
    lemma_count_concat(diff_overlap(target, typed, n), run, StyleKind::Faint, false);
}

/// Whether the marker transitions of a styled stream are valid, starting
/// with `open` as the run already open: a run opens only when none is
/// open, and an end marker closes exactly the run that is open.
pub open spec fn wf_from(toks: Seq<Token>, open: Option<StyleKind>) -> bool
    decreases toks.len(),
{
    if toks.len() == 0 {
        true
    } else {
        match toks[0] {
            Token::Start(k) => open is None && wf_from(toks.skip(1), Some(k)),
            Token::End(k) => open == Some(k) && wf_from(toks.skip(1), None),
            Token::Visible(_) => wf_from(toks.skip(1), open),
        }
    }
}

/// The run still open after scanning all of `toks` from the state `open`.
pub open spec fn scan_open(toks: Seq<Token>, open: Option<StyleKind>) -> Option<StyleKind>
    decreases toks.len(),
{
    if toks.len() == 0 {
        open
    } else {
        match toks[0] {
            Token::Start(k) => scan_open(toks.skip(1), Some(k)),
            Token::End(_) => scan_open(toks.skip(1), None),
            Token::Visible(_) => scan_open(toks.skip(1), open),
        }
    }
}

/// A well-formed styled text: every start marker has a matching end,
/// opened then closed, runs never nest, and no run is left open.
pub open spec fn balanced(toks: Seq<Token>) -> bool {
    wf_from(toks, None) && scan_open(toks, None) is None
}

/// Well-formedness and the scan state distribute over concatenation.
pub proof fn lemma_wf_concat(a: Seq<Token>, b: Seq<Token>, open: Option<StyleKind>)
    ensures
        wf_from(a + b, open) == (wf_from(a, open) && wf_from(b, scan_open(a, open))),
        scan_open(a + b, open) == scan_open(b, scan_open(a, open)),
    decreases a.len(),
{
    if a.len() == 0 {
        assert(a + b =~= b);
    } else {
        assert((a + b)[0] == a[0]);
        assert((a + b).skip(1) =~= a.skip(1) + b);
        match a[0] {
            Token::Start(k) => lemma_wf_concat(a.skip(1), b, Some(k)),
            Token::End(_) => lemma_wf_concat(a.skip(1), b, None),
            Token::Visible(_) => lemma_wf_concat(a.skip(1), b, open),
        }
    }
}

proof fn lemma_wf_chars(cs: Seq<u32>, open: Option<StyleKind>)
    ensures
        wf_from(chars_as_tokens(cs), open),
        scan_open(chars_as_tokens(cs), open) == open,
    decreases cs.len(),
{
    if cs.len() != 0 {
        assert(chars_as_tokens(cs)[0] == Token::Visible(cs[0]));
        assert(chars_as_tokens(cs).skip(1) =~= chars_as_tokens(cs.skip(1)));
        lemma_wf_chars(cs.skip(1), open);
    }
}

proof fn lemma_wf_diff_one(tc: u32, sc: u32)
    ensures
        wf_from(diff_one(tc, sc), None),
        scan_open(diff_one(tc, sc), None) is None,
{
    reveal_with_fuel(wf_from, 5);
    reveal_with_fuel(scan_open, 5);
    let s = diff_one(tc, sc);
    if sc == tc {
        assert(s.skip(1) =~= Seq::<Token>::empty());
    } else {
        assert(s.skip(1) =~= seq![Token::Visible(sc), Token::End(StyleKind::Error)]);
        assert(s.skip(1).skip(1) =~= seq![Token::End(StyleKind::Error)]);
        assert(s.skip(1).skip(1).skip(1) =~= Seq::<Token>::empty());
    }
}

proof fn lemma_wf_run(k: StyleKind, cs: Seq<u32>)
    ensures
        wf_from(styled_run(k, cs), None),
        scan_open(styled_run(k, cs), None) is None,
{
    reveal_with_fuel(wf_from, 3);
    reveal_with_fuel(scan_open, 3);
    let s = seq![Token::Start(k)];
    let e = seq![Token::End(k)];
    lemma_wf_chars(cs, Some(k));
    assert(s.skip(1) =~= Seq::<Token>::empty());
    assert(e.skip(1) =~= Seq::<Token>::empty());
    lemma_wf_concat(s, chars_as_tokens(cs), None);
    lemma_wf_concat(s + chars_as_tokens(cs), e, None);
}

proof fn lemma_wf_overlap(target: Seq<u32>, typed: Seq<u32>, n: int)
    ensures
        wf_from(diff_overlap(target, typed, n), None),
        scan_open(diff_overlap(target, typed, n), None) is None,
    decreases n,
{
    if n > 0 {
        lemma_wf_overlap(target, typed, n - 1);
        lemma_wf_diff_one(target[n - 1], typed[n - 1]);
        lemma_wf_concat(
            diff_overlap(target, typed, n - 1),
            diff_one(target[n - 1], typed[n - 1]),
            None,
        );
    }
}

/// The diff's contract on markers: the stream it produces is well
/// formed — every start has its matching end, opened then closed, and
/// runs never nest.
pub proof fn lemma_diff_balanced(target: Seq<u32>, typed: Seq<u32>)
    ensures
        balanced(diff_scalars(target, typed)),
{
    let m = overlap_len(target, typed);
    lemma_wf_overlap(target, typed, m);
    if typed.len() > target.len() {
        lemma_wf_run(StyleKind::Error, typed.skip(target.len() as int));
        lemma_wf_concat(
            diff_overlap(target, typed, m),
            styled_run(StyleKind::Error, typed.skip(target.len() as int)),
            None,
        );
    } else if target.len() > typed.len() {
        lemma_wf_run(StyleKind::Faint, target.skip(typed.len() as int));
        lemma_wf_concat(
            diff_overlap(target, typed, m),
            styled_run(StyleKind::Faint, target.skip(typed.len() as int)),
            None,
        );
    }
}

/// Splitting a token stream distributes `visible` over the parts.
pub proof fn lemma_visible_concat(a: Seq<Token>, b: Seq<Token>)
    ensures
        visible(a + b) == visible(a) + visible(b),
    decreases a.len(),
{
    if a.len() == 0 {
        assert(a + b =~= b);
        assert(visible(a) + visible(b) =~= visible(b));
    } else {
        assert((a + b)[0] == a[0]);
        assert((a + b).skip(1) =~= a.skip(1) + b);
        lemma_visible_concat(a.skip(1), b);
        assert(visible(a + b) =~= visible(a) + visible(b));
    }
}

/// Appending one token appends its visible contribution.
pub proof fn lemma_visible_push(a: Seq<Token>, t: Token)
    ensures
        visible(a.push(t)) == visible(a) + tok_vis(t),
{
    reveal_with_fuel(visible, 3);
    assert(a.push(t) =~= a + seq![t]);
    lemma_visible_concat(a, seq![t]);
    assert(seq![t].skip(1) =~= Seq::<Token>::empty());
    assert(visible(a + seq![t]) == visible(a) + visible(seq![t]));
    assert(visible(seq![t]) =~= tok_vis(t));
}

/// A token stream has at most as many visible characters as tokens.
pub proof fn lemma_visible_len_le(a: Seq<Token>)
    ensures
        visible(a).len() <= a.len(),
    decreases a.len(),
{
    if a.len() != 0 {
        lemma_visible_len_le(a.skip(1));
    }
}

/// Every character of a plain run is visible.
pub proof fn lemma_visible_chars(cs: Seq<u32>)
    ensures
        visible(chars_as_tokens(cs)) == cs,
    decreases cs.len(),
{
    if cs.len() == 0 {
        assert(visible(chars_as_tokens(cs)) =~= cs);
    } else {
        assert(chars_as_tokens(cs)[0] == Token::Visible(cs[0]));
        assert(chars_as_tokens(cs).skip(1) =~= chars_as_tokens(cs.skip(1)));
        lemma_visible_chars(cs.skip(1));
        assert(visible(chars_as_tokens(cs)) =~= cs);
    }
}

/// The markers of a styled run are invisible: its visible characters are
/// exactly the run's characters.
pub proof fn lemma_visible_run(k: StyleKind, cs: Seq<u32>)
    ensures
        visible(styled_run(k, cs)) == cs,
{
    reveal_with_fuel(visible, 3);
    let s = seq![Token::Start(k)];
    let e = seq![Token::End(k)];
    lemma_visible_concat(s, chars_as_tokens(cs));
    lemma_visible_concat(s + chars_as_tokens(cs), e);
    lemma_visible_chars(cs);
    assert(s.skip(1) =~= Seq::<Token>::empty());
    assert(e.skip(1) =~= Seq::<Token>::empty());
    assert(visible(styled_run(k, cs)) =~= cs);
}

proof fn lemma_visible_overlap(target: Seq<u32>, typed: Seq<u32>, n: int)
    requires
        0 <= n <= typed.len(),
        n <= target.len(),
    ensures
        visible(diff_overlap(target, typed, n)) == typed.subrange(0, n),
    decreases n,
{
    reveal_with_fuel(visible, 5);
    if n <= 0 {
        assert(visible(diff_overlap(target, typed, n)) =~= typed.subrange(0, n));
    } else {
        lemma_visible_overlap(target, typed, n - 1);
        lemma_visible_concat(diff_overlap(target, typed, n - 1), diff_one(target[n - 1], typed[n - 1]));
        let one = diff_one(target[n - 1], typed[n - 1]);
        if typed[n - 1] == target[n - 1] {
            assert(one.skip(1) =~= Seq::<Token>::empty());
        } else {
            assert(one.skip(1) =~= seq![Token::Visible(typed[n - 1]), Token::End(StyleKind::Error)]);
            assert(one.skip(1).skip(1) =~= seq![Token::End(StyleKind::Error)]);
            assert(one.skip(1).skip(1).skip(1) =~= Seq::<Token>::empty());
        }
        assert(visible(one) =~= seq![typed[n - 1]]);
        assert(visible(diff_overlap(target, typed, n)) =~= typed.subrange(0, n));
    }
}

/// The visible characters of the diff: the typed text, followed by the
/// target's not-yet-typed tail when the target is longer.
pub proof fn lemma_visible_diff(target: Seq<u32>, typed: Seq<u32>)
    ensures
        typed.len() >= target.len() ==> visible(diff_scalars(target, typed)) == typed,
        typed.len() < target.len() ==> visible(diff_scalars(target, typed)) == typed + target.skip(
            typed.len() as int,
        ),
{
    let m = overlap_len(target, typed);
    lemma_visible_overlap(target, typed, m);
    if typed.len() > target.len() {
        lemma_visible_concat(
            diff_overlap(target, typed, m),
            styled_run(StyleKind::Error, typed.skip(target.len() as int)),
        );
        lemma_visible_run(StyleKind::Error, typed.skip(target.len() as int));
        assert(visible(diff_scalars(target, typed)) =~= typed);
    } else if target.len() > typed.len() {
        lemma_visible_concat(
            diff_overlap(target, typed, m),
            styled_run(StyleKind::Faint, target.skip(typed.len() as int)),
        );
        lemma_visible_run(StyleKind::Faint, target.skip(typed.len() as int));
        assert(visible(diff_scalars(target, typed)) =~= typed + target.skip(typed.len() as int));
    } else {
        assert(typed.subrange(0, m) =~= typed);
    }
}

/// Compares `typed` against `target` character by character and returns
/// the styled token stream described by `diff_spec`.
pub fn diff_tokens(target: &Vec<char>, typed: &Vec<char>) -> (r: Vec<Token>)
    ensures
        r@ == diff_spec(target@, typed@),
{
    let ghost starget = scalars(target@);
    let ghost styped = scalars(typed@);
    let overlap: usize = if target.len() <= typed.len() {
        target.len()
    } else {
        typed.len()
    };
    let mut r: Vec<Token> = Vec::new();
    let mut i: usize = 0;
    while i < overlap
        invariant
            i <= overlap,
            starget == scalars(target@) && styped == scalars(typed@),
            overlap == overlap_len(starget, styped),
            overlap <= target@.len() && overlap <= typed@.len(),
            r@ == diff_overlap(starget, styped, i as int),
        decreases overlap - i,
    {
        let ghost prev = r@;
        let tc = target[i] as u32;
        let sc = typed[i] as u32;
        if sc == tc {
            r.push(Token::Visible(sc));
        } else {
            r.push(Token::Start(StyleKind::Error));
            r.push(Token::Visible(sc));
            r.push(Token::End(StyleKind::Error));
        }
        proof {
            assert(r@ =~= prev + diff_one(starget[i as int], styped[i as int]));
        }
        i += 1;
    }
    if typed.len() > target.len() {
        r.push(Token::Start(StyleKind::Error));
        let mut j: usize = overlap;
        while j < typed.len()
            invariant
                overlap <= j <= typed@.len(),
                styped == scalars(typed@),
                r@ == diff_overlap(scalars(target@), styped, overlap as int) + seq![
                    Token::Start(StyleKind::Error),
                ] + chars_as_tokens(styped.subrange(overlap as int, j as int)),
            decreases typed@.len() - j,
        {
            r.push(Token::Visible(typed[j] as u32));
            proof {
                assert(r@ =~= diff_overlap(scalars(target@), styped, overlap as int) + seq![
                    Token::Start(StyleKind::Error),
                ] + chars_as_tokens(styped.subrange(overlap as int, j + 1)));
            }
            j += 1;
        }
        r.push(Token::End(StyleKind::Error));
        proof {
            assert(styped.subrange(overlap as int, styped.len() as int) =~= styped.skip(
                overlap as int,
            ));
            assert(r@ =~= diff_spec(target@, typed@));
        }
    } else if target.len() > typed.len() {
        r.push(Token::Start(StyleKind::Faint));
        let mut j: usize = overlap;
        while j < target.len()
            invariant
                overlap <= j <= target@.len(),
                starget == scalars(target@),
                r@ == diff_overlap(starget, scalars(typed@), overlap as int) + seq![
                    Token::Start(StyleKind::Faint),
                ] + chars_as_tokens(starget.subrange(overlap as int, j as int)),
            decreases target@.len() - j,
        {
            r.push(Token::Visible(target[j] as u32));
            proof {
                assert(r@ =~= diff_overlap(starget, scalars(typed@), overlap as int) + seq![
                    Token::Start(StyleKind::Faint),
                ] + chars_as_tokens(starget.subrange(overlap as int, j + 1)));
            }
            j += 1;
        }
        r.push(Token::End(StyleKind::Faint));
        proof {
            assert(starget.subrange(overlap as int, starget.len() as int) =~= starget.skip(
                overlap as int,
            ));
            assert(r@ =~= diff_spec(target@, typed@));
        }
    }
    r
}

} // verus!
