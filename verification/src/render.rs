//! Diff-wrap renderer: turns the (target, typed) comparison into display
//! lines bounded by a maximum width and positions the block of lines
//! centered in the terminal.

use vstd::prelude::*;
use crate::style::Token;
use crate::style::visible;
use crate::style::scalars;
use crate::style::diff_spec;
use crate::style::diff_tokens;
use crate::style::lemma_visible_diff;
use crate::style::balanced;
use crate::style::lemma_diff_balanced;
use crate::wrap::wrap_lines;
use crate::wrap::wrap_tokens;
use crate::wrap::count_visible;
use crate::wrap::copy_range;
use crate::wrap::has_space;
use crate::wrap::joined_visible;
use crate::wrap::lemma_wrap_width;
use crate::wrap::lemma_wrap_concat;
use crate::wrap::lemma_wrap_balanced;

verus! {

/// Raised before any wrapping begins when the configured maximum line
/// width is not positive.
#[derive(Clone, Copy, Debug, PartialEq, Eq, Structural)]
pub enum RenderError {
    InvalidMaxWidth,
}

/// One row of output: its tokens, its visible width, and the screen
/// column and row where it starts. Origins may be negative when the
/// terminal is smaller than the content; the renderer does not clamp,
/// clipping is the terminal writer's concern.
#[derive(Clone, Debug, PartialEq, Eq)]
pub struct DisplayLine {
    pub tokens: Vec<Token>,
    pub width: usize,
    pub col: i128,
    pub row: i128,
}

/// Mathematical model of a display line.
pub ghost struct LineModel {
    pub tokens: Seq<Token>,
    pub width: int,
    pub col: int,
    pub row: int,
}

impl View for DisplayLine {
    type V = LineModel;

    open spec fn view(&self) -> LineModel {
        LineModel {
            tokens: self.tokens@,
            width: self.width as int,
            col: self.col as int,
            row: self.row as int,
        }
    }
}

/// The lines a render call describes: the diff of the two texts, wrapped
/// at `max` columns, every line starting at the same left edge so the
/// block is centered horizontally, and the block centered vertically.
pub open spec fn render_spec(
    target: Seq<char>,
    typed: Seq<char>,
    max: int,
    tw: int,
    th: int,
) -> Seq<LineModel> {
    let ls = wrap_lines(diff_spec(target, typed), max);
    let col = tw / 2 - max / 2;
    let row0 = th / 2 - (ls.len() as int) / 2;
    Seq::new(
        ls.len(),
        |i: int|
            LineModel {
                tokens: ls[i],
                width: visible(ls[i]).len() as int,
                col: col,
                row: row0 + i,
            },
    )
}

/// Renders the typed text against the target text: rejects a zero
/// maximum width before any processing, otherwise produces exactly the
/// lines of `render_spec`.
pub fn render(
    target: &Vec<char>,
    typed: &Vec<char>,
    max_width: usize,
    term_width: u16,
    term_height: u16,
) -> (r: Result<Vec<DisplayLine>, RenderError>)
    ensures
        max_width == 0 <==> r is Err,
        r matches Err(e) ==> e == RenderError::InvalidMaxWidth,
        r matches Ok(lines) ==> {
            let spec_lines = render_spec(
                target@,
                typed@,
                max_width as int,
                term_width as int,
                term_height as int,
            );
            &&& lines@.len() == spec_lines.len()
            &&& forall|i: int| 0 <= i < lines@.len() ==> lines@[i]@ == spec_lines[i]
        },
{
    if max_width == 0 {
        return Err(RenderError::InvalidMaxWidth);
    }
    let toks = diff_tokens(target, typed);
    let wrapped = wrap_tokens(&toks, max_width);
    let col: i128 = (term_width / 2) as i128 - (max_width / 2) as i128;
    let row0: i128 = (term_height / 2) as i128 - (wrapped.len() / 2) as i128;
    let ghost spec_lines = render_spec(
        target@,
        typed@,
        max_width as int,
        term_width as int,
        term_height as int,
    );
    let mut out: Vec<DisplayLine> = Vec::new();
    let mut i: usize = 0;
    while i < wrapped.len()
        invariant
            i <= wrapped@.len(),
            col == term_width as int / 2 - max_width as int / 2,
            row0 == term_height as int / 2 - (wrapped@.len() as int) / 2,
            wrapped@.len() == spec_lines.len(),
            spec_lines == render_spec(
                target@,
                typed@,
                max_width as int,
                term_width as int,
                term_height as int,
            ),
            forall|q: int|
                0 <= q < wrapped@.len() ==> wrapped@[q]@ == wrap_lines(
                    diff_spec(target@, typed@),
                    max_width as int,
                )[q],
            out@.len() == i,
            forall|q: int| 0 <= q < i ==> out@[q]@ == spec_lines[q],
        decreases wrapped@.len() - i,
    {
        let line_ref: &Vec<Token> = &wrapped[i];
        let toks_i = copy_range(line_ref, 0, line_ref.len());
        proof {
            assert(toks_i@ =~= wrapped@[i as int]@);
        }
        let w = count_visible(&toks_i);
        out.push(DisplayLine { tokens: toks_i, width: w, col: col, row: row0 + i as i128 });
        i = i + 1;
    }
    Ok(out)
}

/// Rendering is deterministic: one input describes one output. Two
/// renders of the same target, typed text, width and terminal size yield
/// identical lines.
pub proof fn lemma_render_deterministic(
    target: Seq<char>,
    typed: Seq<char>,
    max: int,
    tw: int,
    th: int,
    a: Seq<LineModel>,
    b: Seq<LineModel>,
)
    requires
        a == render_spec(target, typed, max, tw, th),
        b == render_spec(target, typed, max, tw, th),
    ensures
        a == b,
{
}

/// Width invariant at the render level: every described line keeps its
/// visible width within the maximum, except a line holding a single word
/// longer than the maximum, which contains no space.
pub proof fn lemma_render_width(target: Seq<char>, typed: Seq<char>, max: int, tw: int, th: int)
    requires
        max >= 0,
    ensures
        ({
            let ls = render_spec(target, typed, max, tw, th);
            forall|q: int|
                0 <= q < ls.len() ==> (ls[q].width <= max || !has_space(ls[q].tokens))
        }),
{
    lemma_wrap_width(diff_spec(target, typed), max);
}

/// Marker balance at the render level: every described line carries
/// correctly balanced start/end markers, so each line is independently
/// well formed when drawn.
pub proof fn lemma_render_balanced(target: Seq<char>, typed: Seq<char>, max: int, tw: int, th: int)
    ensures
        ({
            let ls = render_spec(target, typed, max, tw, th);
            forall|q: int| 0 <= q < ls.len() ==> balanced(ls[q].tokens)
        }),
{
    lemma_diff_balanced(scalars(target), scalars(typed));
    lemma_wrap_balanced(diff_spec(target, typed), max);
}

/// The tokens of each described line, in order.
pub open spec fn line_tokens(ls: Seq<LineModel>) -> Seq<Seq<Token>> {
    Seq::new(ls.len(), |i: int| ls[i].tokens)
}

/// Concatenation invariant at the render level: joining the visible
/// characters of all described lines, with the single space dropped at
/// each break put back between lines, restores the visible characters of
/// the diff — the typed text followed by the target's pending tail —
/// exactly, or up to one trailing space.
pub proof fn lemma_render_concat(target: Seq<char>, typed: Seq<char>, max: int, tw: int, th: int)
    ensures
        ({
            let lt = line_tokens(render_spec(target, typed, max, tw, th));
            let all = if typed.len() >= target.len() {
                scalars(typed)
            } else {
                scalars(typed) + scalars(target).skip(typed.len() as int)
            };
            joined_visible(lt) == all || joined_visible(lt).push(32u32) == all
        }),
{
    let d = diff_spec(target, typed);
    assert(line_tokens(render_spec(target, typed, max, tw, th)) =~= wrap_lines(d, max));
    lemma_wrap_concat(d, max);
    lemma_visible_diff(scalars(target), scalars(typed));
}

} // verus!
