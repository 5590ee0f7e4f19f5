//! Greedy word-wrap over a styled token stream: splits the stream into
//! lines whose visible width stays within a configured maximum, breaking
//! at spaces and keeping style markers balanced on every line.

use vstd::prelude::*;
use crate::style::Token;
use crate::style::StyleKind;
use crate::style::visible;
use crate::style::tok_vis;
use crate::style::lemma_visible_push;
use crate::style::lemma_visible_concat;
use crate::style::lemma_visible_len_le;
use crate::style::wf_from;
use crate::style::scan_open;
use crate::style::balanced;
use crate::style::lemma_wf_concat;

verus! {

/// Whether a token is the visible space character, the only place a line
/// may break.
pub open spec fn is_space_tok(t: Token) -> bool {
    t == Token::Visible(32u32)
}

/// The index of the last space token of `buf`, if any.
pub open spec fn last_space(buf: Seq<Token>) -> Option<int>
    decreases buf.len(),
{
    if buf.len() == 0 {
        None
    } else if is_space_tok(buf.last()) {
        Some(buf.len() - 1)
    } else {
        last_space(buf.drop_last())
    }
}

/// The kind of the styled run still open at the end of `toks`, if any.
/// Styled runs never nest in the streams the diff produces, so scanning
/// backwards for the nearest marker decides it.
pub open spec fn open_style(toks: Seq<Token>) -> Option<StyleKind>
    decreases toks.len(),
{
    if toks.len() == 0 {
        None
    } else {
        match toks.last() {
            Token::Start(k) => Some(k),
            Token::End(_) => None,
            Token::Visible(_) => open_style(toks.drop_last()),
        }
    }
}

/// Intermediate state of the greedy wrap: the completed lines, and the
/// buffer of the line still being filled.
pub ghost struct WrapState {
    pub lines: Seq<Seq<Token>>,
    pub buf: Seq<Token>,
}

/// One step of the wrap: append `t` to the buffer; when the buffer's
/// visible width then exceeds `max`, break at the last space — everything
/// before it becomes a completed line, the space is dropped, and the rest
/// starts the next buffer. A run open at the break point is closed on the
/// outgoing line and reopened on the new buffer, so both stay balanced.
/// With no space to break at, the overlong word is kept whole.
pub open spec fn wrap_step(st: WrapState, t: Token, max: int) -> WrapState {
    let buf2 = st.buf.push(t);
    if visible(buf2).len() > max {
        match last_space(buf2) {
            Some(j) => {
                let head = buf2.subrange(0, j);
                let tail = buf2.subrange(j + 1, buf2.len() as int);
                match open_style(head) {
                    Some(k) => WrapState {
                        lines: st.lines.push(head.push(Token::End(k))),
                        buf: seq![Token::Start(k)] + tail,
                    },
                    None => WrapState { lines: st.lines.push(head), buf: tail },
                }
            },
            None => WrapState { lines: st.lines, buf: buf2 },
        }
    } else {
        WrapState { lines: st.lines, buf: buf2 }
    }
}

/// The wrap state after processing the first `n` tokens.
pub open spec fn wrap_fold(toks: Seq<Token>, n: int, max: int) -> WrapState
    decreases n,
{
    if n <= 0 {
        WrapState { lines: Seq::empty(), buf: Seq::empty() }
    } else {
        wrap_step(wrap_fold(toks, n - 1, max), toks[n - 1], max)
    }
}

/// The lines the wrap produces for `toks`: the completed lines, and the
/// final buffer as the last line when it is not empty.
pub open spec fn wrap_lines(toks: Seq<Token>, max: int) -> Seq<Seq<Token>> {
    let st = wrap_fold(toks, toks.len() as int, max);
    if st.buf.len() > 0 {
        st.lines.push(st.buf)
    } else {
        st.lines
    }
}

/// Where `last_space` points, a space stands, and none stands after it;
/// where it is `None`, the buffer holds no space at all.
pub proof fn lemma_last_space_props(s: Seq<Token>)
    ensures
        match last_space(s) {
            Some(j) => 0 <= j < s.len() && is_space_tok(s[j]) && forall|i: int|
                j < i < s.len() ==> !is_space_tok(s[i]),
            None => forall|i: int| 0 <= i < s.len() ==> !is_space_tok(s[i]),
        },
    decreases s.len(),
{
    if s.len() != 0 && !is_space_tok(s.last()) {
        lemma_last_space_props(s.drop_last());
        assert(forall|i: int| 0 <= i < s.len() - 1 ==> s.drop_last()[i] == s[i]);
    }
}

/// Whether the stream holds a space token anywhere.
pub open spec fn has_space(toks: Seq<Token>) -> bool {
    exists|i: int| 0 <= i < toks.len() && is_space_tok(toks[i])
}

/// The visible characters of completed lines, each followed by the one
/// space dropped at its break.
pub open spec fn sep_cat(lines: Seq<Seq<Token>>) -> Seq<u32>
    decreases lines.len(),
{
    if lines.len() == 0 {
        Seq::empty()
    } else {
        sep_cat(lines.drop_last()) + visible(lines.last()) + seq![32u32]
    }
}

/// The visible characters of all lines joined with a single space at each
/// line break.
pub open spec fn joined_visible(lines: Seq<Seq<Token>>) -> Seq<u32> {
    if lines.len() == 0 {
        Seq::empty()
    } else {
        sep_cat(lines.drop_last()) + visible(lines.last())
    }
}

/// A prefix of a stream has at most the visible width of a longer prefix.
proof fn lemma_visible_prefix_le(s: Seq<Token>, a: int, b: int)
    requires
        0 <= a <= b <= s.len(),
    ensures
        visible(s.subrange(0, a)).len() <= visible(s.subrange(0, b)).len(),
{
    assert(s.subrange(0, b) =~= s.subrange(0, a) + s.subrange(a, b));
    lemma_visible_concat(s.subrange(0, a), s.subrange(a, b));
}

proof fn lemma_fold_concat(toks: Seq<Token>, n: int, max: int)
    requires
        0 <= n <= toks.len(),
    ensures
        ({
            let st = wrap_fold(toks, n, max);
            sep_cat(st.lines) + visible(st.buf) == visible(toks.subrange(0, n))
        }),
    decreases n,
{
    reveal_with_fuel(visible, 2);
    if n == 0 {
        assert(toks.subrange(0, 0) =~= Seq::<Token>::empty());
        assert(sep_cat(Seq::empty()) + visible(Seq::empty()) =~= visible(
            Seq::<Token>::empty(),
        ));
    } else {
        lemma_fold_concat(toks, n - 1, max);
        let st = wrap_fold(toks, n - 1, max);
        let st2 = wrap_fold(toks, n, max);
        let t = toks[n - 1];
        let buf2 = st.buf.push(t);
        lemma_visible_push(st.buf, t);
        assert(toks.subrange(0, n) =~= toks.subrange(0, n - 1).push(t));
        lemma_visible_push(toks.subrange(0, n - 1), t);
        if visible(buf2).len() > max && last_space(buf2) is Some {
            let j = last_space(buf2)->Some_0;
            lemma_last_space_props(buf2);
            let head = buf2.subrange(0, j);
            let tail = buf2.subrange(j + 1, buf2.len() as int);
            assert(buf2 =~= head + seq![buf2[j]] + tail);
            lemma_visible_concat(head, seq![buf2[j]]);
            lemma_visible_concat(head + seq![buf2[j]], tail);
            assert(seq![buf2[j]].skip(1) =~= Seq::<Token>::empty());
            assert(visible(seq![buf2[j]]) =~= seq![32u32]);
            assert(visible(buf2) =~= visible(head) + seq![32u32] + visible(tail));
            assert(visible(toks.subrange(0, n)) == visible(toks.subrange(0, n - 1)) + tok_vis(t));
            assert(visible(buf2) == visible(st.buf) + tok_vis(t));
            match open_style(head) {
                Some(k) => {
                    let line = head.push(Token::End(k));
                    lemma_visible_push(head, Token::End(k));
                    assert(visible(line) =~= visible(head));
                    let nb = seq![Token::Start(k)] + tail;
                    lemma_visible_concat(seq![Token::Start(k)], tail);
                    assert(visible(seq![Token::Start(k)]) =~= Seq::<u32>::empty());
                    assert(visible(nb) =~= visible(tail));
                    assert(st2.lines == st.lines.push(line));
                    assert(st2.buf == nb);
                    assert(st2.lines.drop_last() =~= st.lines);
                    assert(sep_cat(st2.lines) == sep_cat(st.lines) + visible(line) + seq![32u32]);
                    assert(sep_cat(st2.lines) + visible(st2.buf) =~= sep_cat(st.lines) + visible(
                        buf2,
                    ));
                    assert(sep_cat(st.lines) + visible(buf2) =~= (sep_cat(st.lines) + visible(
                        st.buf,
                    )) + tok_vis(t));
                    assert(sep_cat(st2.lines) + visible(st2.buf) == visible(toks.subrange(0, n)));
                },
                None => {
                    assert(st2.lines == st.lines.push(head));
                    assert(st2.buf == tail);
                    assert(st2.lines.drop_last() =~= st.lines);
                    assert(sep_cat(st2.lines) == sep_cat(st.lines) + visible(head) + seq![32u32]);
                    assert(sep_cat(st2.lines) + visible(st2.buf) =~= sep_cat(st.lines) + visible(
                        buf2,
                    ));
                    assert(sep_cat(st.lines) + visible(buf2) =~= (sep_cat(st.lines) + visible(
                        st.buf,
                    )) + tok_vis(t));
                    assert(sep_cat(st2.lines) + visible(st2.buf) == visible(toks.subrange(0, n)));
                },
            }
        } else {
            assert(sep_cat(st2.lines) + visible(st2.buf) =~= visible(toks.subrange(0, n)));
        }
    }
}

proof fn lemma_fold_width(toks: Seq<Token>, n: int, max: int)
    requires
        0 <= n <= toks.len(),
        max >= 0,
    ensures
        ({
            let st = wrap_fold(toks, n, max);
            &&& forall|q: int|
                0 <= q < st.lines.len() ==> (visible(st.lines[q]).len() <= max || !has_space(
                    st.lines[q],
                ))
            &&& (visible(st.buf).len() > max ==> !has_space(st.buf))
        }),
    decreases n,
{
    if n > 0 {
        lemma_fold_width(toks, n - 1, max);
        let st = wrap_fold(toks, n - 1, max);
        let st2 = wrap_fold(toks, n, max);
        let t = toks[n - 1];
        let buf2 = st.buf.push(t);
        lemma_visible_push(st.buf, t);
        if visible(buf2).len() > max {
            match last_space(buf2) {
                Some(j) => {
                    lemma_last_space_props(buf2);
                    let head = buf2.subrange(0, j);
                    let tail = buf2.subrange(j + 1, buf2.len() as int);
                    // the rest after the last space holds no space
                    assert(forall|i: int| 0 <= i < tail.len() ==> !is_space_tok(tail[i]));
                    assert(!has_space(tail));
                    match open_style(head) {
                        Some(k) => {
                            assert(!has_space(seq![Token::Start(k)] + tail));
                        },
                        None => {},
                    }
                    // the completed line is within the width, or is a single
                    // word that was already overlong and holds no space
                    if visible(st.buf).len() <= max {
                        assert(buf2.subrange(0, st.buf.len() as int) =~= st.buf);
                        lemma_visible_prefix_le(buf2, j, st.buf.len() as int);
                        assert(visible(head).len() <= max);
                    } else {
                        assert(!has_space(st.buf));
                        if j < st.buf.len() {
                            assert(is_space_tok(st.buf[j]));
                            assert(false);
                        }
                        assert(head =~= st.buf);
                        assert(!has_space(head));
                    }
                    match open_style(head) {
                        Some(k) => {
                            let line = head.push(Token::End(k));
                            lemma_visible_push(head, Token::End(k));
                            assert(visible(line) =~= visible(head));
                            assert(has_space(line) ==> has_space(head));
                        },
                        None => {},
                    }
                },
                None => {
                    lemma_last_space_props(buf2);
                    assert(!has_space(buf2));
                },
            }
        }
    }
}

/// Width invariant: every line the wrap produces keeps its visible width
/// within `max`, except a line holding a single word longer than `max`,
/// which contains no space and is emitted whole.
pub proof fn lemma_wrap_width(toks: Seq<Token>, max: int)
    requires
        max >= 0,
    ensures
        forall|q: int|
            0 <= q < wrap_lines(toks, max).len() ==> (visible(
                wrap_lines(toks, max)[q],
            ).len() <= max || !has_space(wrap_lines(toks, max)[q])),
{
    lemma_fold_width(toks, toks.len() as int, max);
}

/// Concatenation invariant: joining the visible characters of all
/// produced lines, with the single space dropped at each break put back
/// between lines, restores the visible characters of the input stream —
/// exactly, or up to one trailing space when the input's last break fell
/// on its final character.
pub proof fn lemma_wrap_concat(toks: Seq<Token>, max: int)
    ensures
        joined_visible(wrap_lines(toks, max)) == visible(toks) || joined_visible(
            wrap_lines(toks, max),
        ).push(32u32) == visible(toks),
{
    lemma_fold_concat(toks, toks.len() as int, max);
    let st = wrap_fold(toks, toks.len() as int, max);
    assert(toks.subrange(0, toks.len() as int) =~= toks);
    if st.buf.len() > 0 {
        assert(wrap_lines(toks, max).drop_last() =~= st.lines);
        assert(joined_visible(wrap_lines(toks, max)) =~= visible(toks));
    } else {
        assert(visible(st.buf) =~= Seq::<u32>::empty());
        if st.lines.len() == 0 {
            assert(joined_visible(wrap_lines(toks, max)) =~= visible(toks));
        } else {
            assert(sep_cat(st.lines) =~= visible(toks));
            assert(joined_visible(st.lines).push(32u32) =~= sep_cat(st.lines));
        }
    }
}

/// In a well-formed stream, the backward scan for the nearest marker
/// finds exactly the run the forward scan leaves open.
proof fn lemma_scan_open_style(toks: Seq<Token>)
    requires
        wf_from(toks, None),
    ensures
        open_style(toks) == scan_open(toks, None),
    decreases toks.len(),
{
    reveal_with_fuel(wf_from, 2);
    reveal_with_fuel(scan_open, 2);
    if toks.len() != 0 {
        let a = toks.drop_last();
        let t = toks.last();
        assert(toks =~= a + seq![t]);
        lemma_wf_concat(a, seq![t], None);
        lemma_scan_open_style(a);
        assert(seq![t].skip(1) =~= Seq::<Token>::empty());
    }
}

proof fn lemma_fold_balanced(toks: Seq<Token>, n: int, max: int)
    requires
        0 <= n <= toks.len(),
        wf_from(toks, None),
    ensures
        ({
            let st = wrap_fold(toks, n, max);
            &&& forall|q: int| 0 <= q < st.lines.len() ==> balanced(st.lines[q])
            &&& wf_from(st.buf, None)
            &&& scan_open(st.buf, None) == scan_open(toks.subrange(0, n), None)
        }),
    decreases n,
{
    reveal_with_fuel(wf_from, 2);
    reveal_with_fuel(scan_open, 2);
    if n == 0 {
        assert(toks.subrange(0, 0) =~= Seq::<Token>::empty());
    } else {
        lemma_fold_balanced(toks, n - 1, max);
        let st = wrap_fold(toks, n - 1, max);
        let st2 = wrap_fold(toks, n, max);
        let t = toks[n - 1];
        let buf2 = st.buf.push(t);
        lemma_visible_push(st.buf, t);
        // the input's transition at this token is valid from the state
        // the processed prefix reaches, which the buffer shares
        assert(toks =~= (toks.subrange(0, n - 1) + seq![t]) + toks.skip(n));
        lemma_wf_concat(toks.subrange(0, n - 1), seq![t], None);
        lemma_wf_concat(toks.subrange(0, n - 1) + seq![t], toks.skip(n), None);
        assert(toks.subrange(0, n) =~= toks.subrange(0, n - 1).push(t));
        assert(toks.subrange(0, n) =~= toks.subrange(0, n - 1) + seq![t]);
        assert(buf2 =~= st.buf + seq![t]);
        lemma_wf_concat(st.buf, seq![t], None);
        assert(seq![t].skip(1) =~= Seq::<Token>::empty());
        assert(wf_from(buf2, None));
        assert(scan_open(buf2, None) == scan_open(toks.subrange(0, n), None));
        if visible(buf2).len() > max && last_space(buf2) is Some {
            let j = last_space(buf2)->Some_0;
            lemma_last_space_props(buf2);
            let head = buf2.subrange(0, j);
            let sp = seq![buf2[j]];
            let tail = buf2.subrange(j + 1, buf2.len() as int);
            assert(buf2 =~= (head + sp) + tail);
            lemma_wf_concat(head, sp, None);
            lemma_wf_concat(head + sp, tail, None);
            lemma_scan_open_style(head);
            assert(sp.skip(1) =~= Seq::<Token>::empty());
            // the dropped break is a visible space and keeps the scan state
            assert(scan_open(sp, scan_open(head, None)) == scan_open(head, None));
            match open_style(head) {
                Some(k) => {
                    let line = head.push(Token::End(k));
                    let e = seq![Token::End(k)];
                    assert(line =~= head + e);
                    assert(e.skip(1) =~= Seq::<Token>::empty());
                    lemma_wf_concat(head, e, None);
                    assert(balanced(line));
                    let s = seq![Token::Start(k)];
                    let nb = s + tail;
                    assert(s.skip(1) =~= Seq::<Token>::empty());
                    lemma_wf_concat(s, tail, None);
                    assert(wf_from(nb, None));
                    assert(scan_open(nb, None) == scan_open(buf2, None));
                },
                None => {
                    assert(balanced(head));
                    assert(wf_from(tail, None));
                    assert(scan_open(tail, None) == scan_open(buf2, None));
                },
            }
        }
    }
}

/// Marker balance: fed a well-formed stream, every line the wrap
/// produces is itself well formed — a run crossing a break is closed on
/// the outgoing line and reopened on the next, so each line can be drawn
/// independently.
pub proof fn lemma_wrap_balanced(toks: Seq<Token>, max: int)
    requires
        balanced(toks),
    ensures
        forall|q: int| 0 <= q < wrap_lines(toks, max).len() ==> balanced(wrap_lines(toks, max)[q]),
{
    lemma_fold_balanced(toks, toks.len() as int, max);
    assert(toks.subrange(0, toks.len() as int) =~= toks);
}

fn find_last_space(buf: &Vec<Token>) -> (r: Option<usize>)
    ensures
        match r {
            Some(j) => last_space(buf@) == Some(j as int),
            None => last_space(buf@) is None,
        },
{
    let mut k: usize = buf.len();
    proof {
        assert(buf@.subrange(0, buf@.len() as int) =~= buf@);
    }
    while k > 0
        invariant
            k <= buf@.len(),
            last_space(buf@) == last_space(buf@.subrange(0, k as int)),
        decreases k,
    {
        let t = buf[k - 1];
        if t == Token::Visible(32u32) {
            proof {
                assert(buf@.subrange(0, k as int).last() == buf@[k - 1]);
            }
            return Some(k - 1);
        }
        proof {
            assert(buf@.subrange(0, k as int).drop_last() =~= buf@.subrange(0, k - 1));
        }
        k = k - 1;
    }
    proof {
        assert(buf@.subrange(0, 0) =~= Seq::<Token>::empty());
    }
    None
}

fn open_style_before(buf: &Vec<Token>, j: usize) -> (r: Option<StyleKind>)
    requires
        j <= buf@.len(),
    ensures
        r == open_style(buf@.subrange(0, j as int)),
{
    let mut k: usize = j;
    while k > 0
        invariant
            k <= j <= buf@.len(),
            open_style(buf@.subrange(0, j as int)) == open_style(buf@.subrange(0, k as int)),
        decreases k,
    {
        proof {
            assert(buf@.subrange(0, k as int).last() == buf@[k - 1]);
            assert(buf@.subrange(0, k as int).drop_last() =~= buf@.subrange(0, k - 1));
        }
        match buf[k - 1] {
            Token::Start(k2) => {
                return Some(k2);
            },
            Token::End(_) => {
                return None;
            },
            Token::Visible(_) => {},
        }
        k = k - 1;
    }
    proof {
        assert(buf@.subrange(0, 0) =~= Seq::<Token>::empty());
    }
    None
}

/// Counts the visible characters of a token stream; markers are
/// zero-width and do not count.
pub fn count_visible(toks: &Vec<Token>) -> (n: usize)
    ensures
        n == visible(toks@).len(),
{
    let mut n: usize = 0;
    let mut i: usize = 0;
    while i < toks.len()
        invariant
            i <= toks@.len(),
            n == visible(toks@.subrange(0, i as int)).len(),
            n <= i,
        decreases toks@.len() - i,
    {
        let t = toks[i];
        proof {
            assert(toks@.subrange(0, i + 1) =~= toks@.subrange(0, i as int).push(toks@[i as int]));
            lemma_visible_push(toks@.subrange(0, i as int), toks@[i as int]);
        }
        match t {
            Token::Visible(_) => {
                n = n + 1;
            },
            _ => {},
        }
        i = i + 1;
    }
    proof {
        assert(toks@.subrange(0, toks@.len() as int) =~= toks@);
    }
    n
}

pub(crate) fn copy_range(src: &Vec<Token>, from: usize, to: usize) -> (r: Vec<Token>)
    requires
        from <= to <= src@.len(),
    ensures
        r@ == src@.subrange(from as int, to as int),
{
    let mut r: Vec<Token> = Vec::new();
    let mut k: usize = from;
    while k < to
        invariant
            from <= k <= to <= src@.len(),
            r@ == src@.subrange(from as int, k as int),
        decreases to - k,
    {
        r.push(src[k]);
        proof {
            assert(src@.subrange(from as int, k + 1) =~= src@.subrange(from as int, k as int).push(
                src@[k as int],
            ));
        }
        k = k + 1;
    }
    r
}

/// Wraps the token stream into lines as `wrap_lines` describes: greedy,
/// breaking at the last space once the visible width exceeds `max_width`,
/// never splitting a word, and keeping style markers balanced per line.
pub fn wrap_tokens(toks: &Vec<Token>, max_width: usize) -> (lines: Vec<Vec<Token>>)
    ensures
        lines@.len() == wrap_lines(toks@, max_width as int).len(),
        forall|q: int|
            0 <= q < lines@.len() ==> lines@[q]@ == wrap_lines(toks@, max_width as int)[q],
{
    let ghost max = max_width as int;
    let mut lines: Vec<Vec<Token>> = Vec::new();
    let mut buf: Vec<Token> = Vec::new();
    let mut width: usize = 0;
    let mut i: usize = 0;
    while i < toks.len()
        invariant
            i <= toks@.len(),
            max == max_width as int,
            lines@.len() == wrap_fold(toks@, i as int, max).lines.len(),
            forall|q: int|
                0 <= q < lines@.len() ==> lines@[q]@ == wrap_fold(toks@, i as int, max).lines[q],
            buf@ == wrap_fold(toks@, i as int, max).buf,
            width == visible(buf@).len(),
        decreases toks@.len() - i,
    {
        let ghost st = wrap_fold(toks@, i as int, max);
        let t = toks[i];
        buf.push(t);
        proof {
            lemma_visible_push(st.buf, toks@[i as int]);
            lemma_visible_len_le(buf@);
        }
        match t {
            Token::Visible(_) => {
                proof {
                    assert(width + 1 == visible(buf@).len() && visible(buf@).len() <= buf.len());
                }
                width = width + 1;
            },
            _ => {},
        }
        if width > max_width {
            match find_last_space(&buf) {
                Some(j) => {
                    proof {
                        lemma_last_space_props(buf@);
                    }
                    let open = open_style_before(&buf, j);
                    let mut line = copy_range(&buf, 0, j);
                    let mut rest: Vec<Token> = Vec::new();
                    match open {
                        Some(k) => {
                            line.push(Token::End(k));
                            rest.push(Token::Start(k));
                        },
                        None => {},
                    }
                    let buf_len: usize = buf.len();
                    proof {
                        assert(j < buf_len);
                    }
                    let mut k: usize = j + 1;
                    while k < buf.len()
                        invariant
                            j < k <= buf@.len(),
                            open == open_style(buf@.subrange(0, j as int)),
                            rest@ == (match open {
                                Some(s) => seq![Token::Start(s)],
                                None => Seq::<Token>::empty(),
                            }) + buf@.subrange(j + 1, k as int),
                        decreases buf@.len() - k,
                    {
                        rest.push(buf[k]);
                        proof {
                            assert(buf@.subrange(j + 1, k + 1) =~= buf@.subrange(
                                j + 1,
                                k as int,
                            ).push(buf@[k as int]));
                            assert(rest@ =~= (match open {
                                Some(s) => seq![Token::Start(s)],
                                None => Seq::<Token>::empty(),
                            }) + buf@.subrange(j + 1, k + 1));
                        }
                        k = k + 1;
                    }
                    lines.push(line);
                    buf = rest;
                    width = count_visible(&buf);
                    proof {
                        let st2 = wrap_fold(toks@, i + 1, max);
                        assert(st2 == wrap_step(st, toks@[i as int], max));
                        assert(buf@ == st2.buf);
                        assert(lines@.len() == st2.lines.len());
                        assert(forall|q: int|
                            0 <= q < lines@.len() ==> lines@[q]@ == st2.lines[q]);
                    }
                },
                None => {
                    proof {
                        let st2 = wrap_fold(toks@, i + 1, max);
                        assert(st2 == wrap_step(st, toks@[i as int], max));
                    }
                },
            }
        } else {
            proof {
                let st2 = wrap_fold(toks@, i + 1, max);
                assert(st2 == wrap_step(st, toks@[i as int], max));
            }
        }
        i = i + 1;
    }
    if buf.len() > 0 {
        lines.push(buf);
    }
    lines
}

} // verus!
