//! Properties of the grammar as a whole.

use vstd::prelude::*;
use crate::grammar::{
    at, bad_in_line, blank_end, block_loop, block_spec, comment_spec, expression_spec, gv,
    line_stop, missing_at, newline_run_end, tab_run_end, tabs_ahead, words,
};
use crate::tree::ElementModel;
use crate::types::{concat, views, ErrorModel, Input};
use crate::values::{
    is_char_spec, is_disallowed_char, is_newline_spec, is_regular_spec, is_space_spec, is_tab_spec,
};

verus! {

/// The graphemes that lie ahead of the cursor.
pub open spec fn rest_of<'a>(c: Input<'a>) -> Seq<Seq<char>> {
    views(c.items@).subrange(c.pos as int, c.items@.len() as int)
}

/// Two cursors with the same graphemes ahead and the same context; the items
/// behind them, and so their positions, may differ.
pub open spec fn same_input<'a, 'b>(c1: Input<'a>, c2: Input<'b>) -> bool {
    &&& c1.items@.len() <= usize::MAX
    &&& c2.items@.len() <= usize::MAX
    &&& c1.pos <= c1.len()
    &&& c2.pos <= c2.len()
    &&& rest_of(c1) == rest_of(c2)
    &&& c1.context == c2.context
}

proof fn lemma_len_same<'a, 'b>(c1: Input<'a>, c2: Input<'b>)
    requires
        same_input(c1, c2),
    ensures
        c2.len() - c2.pos == c1.len() - c1.pos,
{
    assert(rest_of(c1).len() == rest_of(c2).len());
}

proof fn lemma_gv_same<'a, 'b>(c1: Input<'a>, c2: Input<'b>, p: int)
    requires
        same_input(c1, c2),
        c1.pos <= p < c1.len(),
    ensures
        gv(c1, p) == gv(c2, p + (c2.pos - c1.pos)),
{
    lemma_len_same(c1, c2);
    let i = p - c1.pos;
    assert(rest_of(c1)[i] == gv(c1, p));
    assert(rest_of(c2)[i] == gv(c2, c2.pos + i));
}

proof fn lemma_at_same<'a, 'b>(c1: Input<'a>, c2: Input<'b>, p: int)
    requires
        same_input(c1, c2),
        c1.pos <= p <= c1.len(),
    ensures
        same_input(at(c1, p), at(c2, p + (c2.pos - c1.pos))),
        at(c1, p).pos == p,
        at(c2, p + (c2.pos - c1.pos)).pos == p + (c2.pos - c1.pos),
        at(c1, p).items == c1.items,
        at(c2, p + (c2.pos - c1.pos)).items == c2.items,
{
    lemma_len_same(c1, c2);
    let n = (p - c1.pos) as nat;
    assert(c1.ahead(n) =~= rest_of(c1).subrange(0, n as int));
    assert(c2.ahead(n) =~= rest_of(c2).subrange(0, n as int));
    assert(rest_of(at(c1, p)) =~= rest_of(c1).subrange(n as int, rest_of(c1).len() as int));
    assert(rest_of(at(c2, p + (c2.pos - c1.pos))) =~= rest_of(c2).subrange(
        n as int,
        rest_of(c2).len() as int,
    ));
}

proof fn lemma_line_stop_same<'a, 'b>(c1: Input<'a>, c2: Input<'b>, p: int)
    requires
        same_input(c1, c2),
        c1.pos <= p,
    ensures
        line_stop(c2, p + (c2.pos - c1.pos)) == line_stop(c1, p) + (c2.pos - c1.pos),
    decreases c1.len() - p,
{
    lemma_len_same(c1, c2);
    if p < c1.len() {
        lemma_gv_same(c1, c2, p);
        lemma_line_stop_same(c1, c2, p + 1);
    }
}

proof fn lemma_blank_end_same<'a, 'b>(c1: Input<'a>, c2: Input<'b>, p: int)
    requires
        same_input(c1, c2),
        c1.pos <= p,
    ensures
        blank_end(c2, p + (c2.pos - c1.pos)) == blank_end(c1, p) + (c2.pos - c1.pos),
    decreases c1.len() - p,
{
    lemma_len_same(c1, c2);
    if p < c1.len() {
        lemma_gv_same(c1, c2, p);
        lemma_blank_end_same(c1, c2, p + 1);
    }
}

proof fn lemma_newline_run_end_same<'a, 'b>(c1: Input<'a>, c2: Input<'b>, p: int)
    requires
        same_input(c1, c2),
        c1.pos <= p,
    ensures
        newline_run_end(c2, p + (c2.pos - c1.pos)) == newline_run_end(c1, p) + (c2.pos - c1.pos),
    decreases c1.len() - p,
{
    lemma_len_same(c1, c2);
    if p < c1.len() {
        lemma_gv_same(c1, c2, p);
        lemma_newline_run_end_same(c1, c2, p + 1);
    }
}

proof fn lemma_tab_run_end_same<'a, 'b>(c1: Input<'a>, c2: Input<'b>, p: int, to: int)
    requires
        same_input(c1, c2),
        c1.pos <= p,
    ensures
        tab_run_end(c2, p + (c2.pos - c1.pos), to + (c2.pos - c1.pos)) == tab_run_end(c1, p, to)
            + (c2.pos - c1.pos),
    decreases to - p,
{
    lemma_len_same(c1, c2);
    if p < to && p < c1.len() {
        lemma_gv_same(c1, c2, p);
        lemma_tab_run_end_same(c1, c2, p + 1, to);
    }
}

proof fn lemma_bad_in_line_same<'a, 'b>(c1: Input<'a>, c2: Input<'b>, p: int, stop: int)
    requires
        same_input(c1, c2),
        c1.pos <= p,
        stop <= c1.len(),
    ensures
        bad_in_line(c2, p + (c2.pos - c1.pos), stop + (c2.pos - c1.pos)) == bad_in_line(
            c1,
            p,
            stop,
        ) + (c2.pos - c1.pos),
    decreases stop - p,
{
    if p < stop {
        lemma_gv_same(c1, c2, p);
        lemma_bad_in_line_same(c1, c2, p + 1, stop);
    }
}

proof fn lemma_words_same<'a, 'b>(
    c1: Input<'a>,
    c2: Input<'b>,
    p: int,
    stop: int,
    cur: Seq<Seq<char>>,
)
    requires
        same_input(c1, c2),
        c1.pos <= p,
        stop <= c1.len(),
    ensures
        words(c1, p, stop, cur) == words(
            c2,
            p + (c2.pos - c1.pos),
            stop + (c2.pos - c1.pos),
            cur,
        ),
    decreases stop - p,
{
    if p < stop {
        lemma_gv_same(c1, c2, p);
        lemma_words_same(c1, c2, p + 1, stop, Seq::empty());
        lemma_words_same(c1, c2, p + 1, stop, cur.push(gv(c1, p)));
    }
}

proof fn lemma_tabs_ahead_same<'a, 'b>(c1: Input<'a>, c2: Input<'b>, k: nat)
    requires
        same_input(c1, c2),
    ensures
        tabs_ahead(c1, k) == tabs_ahead(c2, k),
        tab_run_end(c2, c2.pos as int, c2.pos + k) == tab_run_end(c1, c1.pos as int, c1.pos + k)
            + (c2.pos - c1.pos),
{
    lemma_len_same(c1, c2);
    lemma_tab_run_end_same(c1, c2, c1.pos as int, c1.pos + k);
    if c1.pos + k <= c1.len() {
        assert forall|j: int| 0 <= j < k implies #[trigger] gv(c1, c1.pos + j) == gv(
            c2,
            c2.pos + j,
        ) by {
            lemma_gv_same(c1, c2, c1.pos + j);
        }
        if tabs_ahead(c1, k) {
            assert forall|j: int| 0 <= j < k implies is_tab_spec(#[trigger] gv(c2, c2.pos + j)) by {
                assert(gv(c1, c1.pos + j) == gv(c2, c2.pos + j));
            }
        }
        if tabs_ahead(c2, k) {
            assert forall|j: int| 0 <= j < k implies is_tab_spec(#[trigger] gv(c1, c1.pos + j)) by {
                assert(gv(c1, c1.pos + j) == gv(c2, c2.pos + j));
            }
        }
    }
}

proof fn lemma_missing_same<'a, 'b>(
    c1: Input<'a>,
    c2: Input<'b>,
    p: int,
    e: crate::types::Expected,
)
    requires
        same_input(c1, c2),
        c1.pos <= p <= c1.len(),
    ensures
        missing_at(c1, p, e) == missing_at(c2, p + (c2.pos - c1.pos), e),
{
    lemma_len_same(c1, c2);
    lemma_at_same(c1, c2, p);
    if p < c1.len() {
        lemma_gv_same(c1, c2, p);
    }
}

proof fn lemma_tab_run_end_le<'a>(c: Input<'a>, p: int, to: int)
    requires
        p <= c.len(),
    ensures
        tab_run_end(c, p, to) <= c.len(),
    decreases to - p,
{
    if p < to && p < c.len() && is_tab_spec(gv(c, p)) {
        lemma_tab_run_end_le(c, p + 1, to);
    }
}

proof fn lemma_blank_end_le<'a>(c: Input<'a>, p: int)
    requires
        p <= c.len(),
    ensures
        blank_end(c, p) <= c.len(),
    decreases c.len() - p,
{
    if p < c.len() && (is_tab_spec(gv(c, p)) || is_space_spec(gv(c, p))) {
        lemma_blank_end_le(c, p + 1);
    }
}

proof fn lemma_comment_same<'a, 'b>(c1: Input<'a>, c2: Input<'b>)
    requires
        same_input(c1, c2),
    ensures
        comment_spec(c1).0 == comment_spec(c2).0,
        same_input(comment_spec(c1).1, comment_spec(c2).1),
        comment_spec(c2).1.pos == comment_spec(c1).1.pos + (c2.pos - c1.pos),
        comment_spec(c1).1.items == c1.items,
        comment_spec(c2).1.items == c2.items,
{
    let d = c2.pos - c1.pos;
    lemma_len_same(c1, c2);
    let q = blank_end(c1, c1.pos as int);
    lemma_blank_end_same(c1, c2, c1.pos as int);
    lemma_blank_end_ge(c1, c1.pos as int);
    lemma_blank_end_le(c1, c1.pos as int);
    lemma_missing_same(c1, c2, q, crate::types::Expected::CommentMarker);
    if q < c1.len() {
        lemma_gv_same(c1, c2, q);
        lemma_line_stop_bounds(c1, q + 1);
        lemma_line_stop_same(c1, c2, q + 1);
        let stop = line_stop(c1, q + 1);
        lemma_newline_run_end_same(c1, c2, stop);
        lemma_newline_run_end_bounds(c1, stop);
        lemma_at_same(c1, c2, newline_run_end(c1, stop));
        assert(views(c1.items@).subrange(q + 1, stop) =~= rest_of(c1).subrange(
            q + 1 - c1.pos,
            stop - c1.pos,
        ));
        assert(views(c2.items@).subrange(q + 1 + d, stop + d) =~= rest_of(c2).subrange(
            q + 1 - c1.pos,
            stop - c1.pos,
        ));
    }
}

proof fn lemma_expression_same<'a, 'b>(c1: Input<'a>, c2: Input<'b>)
    requires
        same_input(c1, c2),
    ensures
        expression_spec(c1).0 == expression_spec(c2).0,
        same_input(expression_spec(c1).1, expression_spec(c2).1),
        expression_spec(c2).1.pos == expression_spec(c1).1.pos + (c2.pos - c1.pos),
        expression_spec(c1).1.items == c1.items,
        expression_spec(c2).1.items == c2.items,
    decreases c1.len() - c1.pos, 0nat,
{
    let d = c2.pos - c1.pos;
    let k = c1.context.indent as nat;
    lemma_len_same(c1, c2);
    lemma_tabs_ahead_same(c1, c2, k);
    lemma_tab_run_end_ge(c1, c1.pos as int, c1.pos + k);
    lemma_tab_run_end_le(c1, c1.pos as int, c1.pos + k);
    lemma_missing_same(
        c1,
        c2,
        tab_run_end(c1, c1.pos as int, c1.pos + k),
        crate::types::Expected::Tab,
    );
    if tabs_ahead(c1, k) {
        let p = c1.pos + k;
        lemma_line_stop_same(c1, c2, p);
        lemma_line_stop_bounds(c1, p);
        let stop = line_stop(c1, p);
        lemma_missing_same(c1, c2, p, crate::types::Expected::Identifier);
        if p < c1.len() {
            lemma_gv_same(c1, c2, p);
        }
        if p < stop {
            lemma_bad_in_line_same(c1, c2, p, stop);
            lemma_bad_in_line_ge(c1, p, stop);
            lemma_missing_same(
                c1,
                c2,
                bad_in_line(c1, p, stop),
                crate::types::Expected::Newline,
            );
            lemma_words_same(c1, c2, p, stop, Seq::empty());
            lemma_newline_run_end_same(c1, c2, stop);
            lemma_newline_run_end_bounds(c1, stop);
            let e = newline_run_end(c1, stop);
            lemma_at_same(c1, c2, e);
            let inner1 = at(c1, e).with_indent((k + 1) as usize);
            let inner2 = at(c2, e + d).with_indent((k + 1) as usize);
            if c1.pos < inner1.pos <= c1.len() {
                lemma_block_same(inner1, inner2);
            }
        }
    }
}

proof fn lemma_line_stop_bounds<'a>(c: Input<'a>, p: int)
    requires
        0 <= p <= c.len(),
    ensures
        p <= line_stop(c, p) <= c.len(),
        forall|m: int| p <= m < line_stop(c, p) ==> !is_newline_spec(#[trigger] gv(c, m)),
        line_stop(c, p) < c.len() ==> is_newline_spec(gv(c, line_stop(c, p))),
    decreases c.len() - p,
{
    if p < c.len() && !is_newline_spec(gv(c, p)) {
        lemma_line_stop_bounds(c, p + 1);
    }
}

proof fn lemma_newline_run_end_bounds<'a>(c: Input<'a>, p: int)
    requires
        0 <= p <= c.len(),
    ensures
        p <= newline_run_end(c, p) <= c.len(),
    decreases c.len() - p,
{
    if p < c.len() && is_newline_spec(gv(c, p)) {
        lemma_newline_run_end_bounds(c, p + 1);
    }
}

proof fn lemma_tab_run_end_ge<'a>(c: Input<'a>, p: int, to: int)
    ensures
        tab_run_end(c, p, to) >= p,
    decreases to - p,
{
    if p < to && p < c.len() && is_tab_spec(gv(c, p)) {
        lemma_tab_run_end_ge(c, p + 1, to);
    }
}

proof fn lemma_blank_end_ge<'a>(c: Input<'a>, p: int)
    ensures
        blank_end(c, p) >= p,
    decreases c.len() - p,
{
    if p < c.len() && (is_tab_spec(gv(c, p)) || is_space_spec(gv(c, p))) {
        lemma_blank_end_ge(c, p + 1);
    }
}

proof fn lemma_bad_in_line_ge<'a>(c: Input<'a>, p: int, stop: int)
    requires
        p <= stop,
    ensures
        p <= bad_in_line(c, p, stop) <= stop,
    decreases stop - p,
{
    if p < stop && (is_regular_spec(gv(c, p)) || is_space_spec(gv(c, p))) {
        lemma_bad_in_line_ge(c, p + 1, stop);
    }
}

proof fn lemma_loop_same<'a, 'b>(
    c1: Input<'a>,
    c2: Input<'b>,
    elems: Seq<ElementModel>,
    diags: Seq<ErrorModel>,
)
    requires
        same_input(c1, c2),
    ensures
        block_loop(c1, elems, diags).0 == block_loop(c2, elems, diags).0,
        same_input(block_loop(c1, elems, diags).1, block_loop(c2, elems, diags).1),
        block_loop(c2, elems, diags).1.pos == block_loop(c1, elems, diags).1.pos + (c2.pos
            - c1.pos),
        block_loop(c1, elems, diags).1.items == c1.items,
        block_loop(c2, elems, diags).1.items == c2.items,
    decreases c1.len() - c1.pos, 1nat,
{
    let d = c2.pos - c1.pos;
    let k = c1.context.indent as nat;
    lemma_len_same(c1, c2);
    lemma_tabs_ahead_same(c1, c2, k);
    if !(c1.pos >= c1.len() || !tabs_ahead(c1, k)) {
        lemma_comment_same(c1, c2);
        let cm1 = comment_spec(c1);
        let cm2 = comment_spec(c2);
        if cm1.0 is Ok {
            if c1.pos < cm1.1.pos <= c1.len() {
                lemma_loop_same(cm1.1, cm2.1, elems.push(cm1.0->Ok_0), diags);
            }
        } else {
            lemma_expression_same(c1, c2);
            let ex1 = expression_spec(c1);
            let ex2 = expression_spec(c2);
            if ex1.0 is Ok {
                if ex1.1.items == c1.items && c1.pos < ex1.1.pos <= c1.len() {
                    lemma_loop_same(ex1.1, ex2.1, elems.push(ex1.0->Ok_0), diags);
                }
            } else {
                lemma_line_stop_same(c1, c2, c1.pos as int);
                lemma_line_stop_bounds(c1, c1.pos as int);
                let s = line_stop(c1, c1.pos as int);
                let q = if s < c1.len() {
                    s + 1
                } else {
                    s
                };
                lemma_at_same(c1, c2, q);
                let next1 = at(c1, q);
                let next2 = at(c2, q + d);
                if c1.pos < next1.pos <= c1.len() {
                    lemma_loop_same(next1, next2, elems, diags.push(ex1.0->Err_0));
                }
            }
        }
    }
}

proof fn lemma_block_same<'a, 'b>(c1: Input<'a>, c2: Input<'b>)
    requires
        same_input(c1, c2),
    ensures
        block_spec(c1).0 == block_spec(c2).0,
        same_input(block_spec(c1).1, block_spec(c2).1),
        block_spec(c2).1.pos == block_spec(c1).1.pos + (c2.pos - c1.pos),
        block_spec(c1).1.items == c1.items,
        block_spec(c2).1.items == c2.items,
    decreases c1.len() - c1.pos, 2nat,
{
    lemma_tabs_ahead_same(c1, c2, c1.context.indent as nat);
    if tabs_ahead(c1, c1.context.indent as nat) {
        lemma_loop_same(c1, c2, Seq::empty(), Seq::empty());
    }
}

/// Parsing depends on what lies ahead and nothing else: `block` run on two
/// cursors with the same graphemes ahead and the same context (whatever lies
/// behind them, wherever the items are stored) yields the same tree, moves
/// on by the same number of items, and stops with the same graphemes ahead
/// and the same context.
pub proof fn lemma_block_deterministic<'a, 'b>(c1: Input<'a>, c2: Input<'b>)
    requires
        c1.wf(),
        c2.wf(),
        rest_of(c1) == rest_of(c2),
        c1.context == c2.context,
    ensures
        block_spec(c1).0 == block_spec(c2).0,
        block_spec(c2).1.pos - c2.pos == block_spec(c1).1.pos - c1.pos,
        rest_of(block_spec(c1).1) == rest_of(block_spec(c2).1),
        block_spec(c1).1.context == block_spec(c2).1.context,
{
    lemma_block_same(c1, c2);
}

proof fn lemma_blank_end_at<'a>(c: Input<'a>, p: int, q: int)
    requires
        p <= q < c.len(),
        forall|m: int| p <= m < q ==> is_tab_spec(#[trigger] gv(c, m)) || is_space_spec(gv(c, m)),
        !is_tab_spec(gv(c, q)),
        !is_space_spec(gv(c, q)),
    ensures
        blank_end(c, p) == q,
    decreases q - p,
{
    if p < q {
        lemma_blank_end_at(c, p + 1, q);
    }
}

/// A comment line is recognised at any indentation: after any tabs and
/// spaces comes `#`. It becomes a `Comment` element holding the rest of the
/// line, and parsing goes on after the newlines that end it; the end of the
/// input ends it too. Inside a block (at least the block's depth of tabs
/// ahead) the block takes it as its next element: no block is parsed under a
/// comment.
pub proof fn lemma_comment_line<'a>(
    c: Input<'a>,
    q: int,
    elems: Seq<ElementModel>,
    diags: Seq<ErrorModel>,
)
    requires
        c.wf(),
        c.pos <= q < c.len(),
        forall|m: int|
            c.pos <= m < q ==> is_tab_spec(#[trigger] gv(c, m)) || is_space_spec(gv(c, m)),
        is_char_spec(gv(c, q), '#'),
    ensures
        comment_spec(c).0 == Ok::<ElementModel, ErrorModel>(
            ElementModel::Comment(concat(views(c.items@).subrange(q + 1, line_stop(c, q + 1)))),
        ),
        comment_spec(c).1 == at(c, newline_run_end(c, line_stop(c, q + 1))),
        tabs_ahead(c, c.context.indent as nat) ==> block_loop(c, elems, diags) == block_loop(
            comment_spec(c).1,
            elems.push(comment_spec(c).0->Ok_0),
            diags,
        ),
{
    lemma_blank_end_at(c, c.pos as int, q);
    lemma_line_stop_bounds(c, q + 1);
    lemma_newline_run_end_bounds(c, line_stop(c, q + 1));
}

proof fn lemma_line_stop_past<'a>(c: Input<'a>, p: int, d: int)
    requires
        0 <= p <= d < c.len(),
        forall|m: int| p <= m <= d ==> !is_newline_spec(#[trigger] gv(c, m)),
    ensures
        line_stop(c, p) > d,
    decreases d - p,
{
    lemma_line_stop_bounds(c, p + 1);
    if p < d {
        lemma_line_stop_past(c, p + 1, d);
    }
}

proof fn lemma_bad_at<'a>(c: Input<'a>, p: int, d: int, stop: int)
    requires
        p <= d < stop,
        forall|m: int| p <= m < d ==> is_regular_spec(#[trigger] gv(c, m)) || is_space_spec(gv(c, m)),
        !is_regular_spec(gv(c, d)),
        !is_space_spec(gv(c, d)),
    ensures
        bad_in_line(c, p, stop) == d,
    decreases d - p,
{
    if p < d {
        lemma_bad_at(c, p + 1, d, stop);
    }
}

/// Once a block has collected a diagnostic, it ends `Malformed`, holding
/// every diagnostic collected so far, in order, first.
proof fn lemma_loop_keeps_diags<'a>(c: Input<'a>, elems: Seq<ElementModel>, diags: Seq<ErrorModel>)
    requires
        diags.len() > 0,
    ensures
        block_loop(c, elems, diags).0 is Malformed,
        block_loop(c, elems, diags).0->Malformed_0.len() >= diags.len(),
        forall|i: int|
            0 <= i < diags.len() ==> #[trigger] block_loop(c, elems, diags).0->Malformed_0[i]
                == diags[i],
    decreases c.len() - c.pos,
{
    if !(c.pos >= c.len() || crate::grammar::dedent_spec(c)) {
        let cm = comment_spec(c);
        if cm.0 is Ok {
            if c.pos < cm.1.pos <= c.len() {
                lemma_loop_keeps_diags(cm.1, elems.push(cm.0->Ok_0), diags);
            }
        } else {
            let ex = expression_spec(c);
            if ex.0 is Ok {
                if ex.1.items == c.items && c.pos < ex.1.pos <= c.len() {
                    lemma_loop_keeps_diags(ex.1, elems.push(ex.0->Ok_0), diags);
                }
            } else {
                let next = at(c, crate::grammar::line_after(c));
                let more = diags.push(ex.0->Err_0);
                if c.pos < next.pos <= c.len() {
                    lemma_loop_keeps_diags(next, elems, more);
                    assert forall|i: int| 0 <= i < diags.len() implies #[trigger] block_loop(
                        c,
                        elems,
                        diags,
                    ).0->Malformed_0[i] == diags[i] by {
                        assert(more[i] == diags[i]);
                    }
                }
            }
        }
    }
}

/// A disallowed control character (a C0 control other than tab, line feed
/// and carriage return) where an expression line has its identifiers makes
/// that line fail with `UnexpectedCharacter` naming it, at its line and
/// column; the block holding the line ends `Malformed` with that diagnostic
/// among its own. Here the line, after the block's tabs, starts with the
/// control character, or with an identifier item other than a tab and then
/// only identifier items and spaces up to the control character.
pub proof fn lemma_control_char_malformed<'a>(
    c: Input<'a>,
    d: int,
    elems: Seq<ElementModel>,
    diags: Seq<ErrorModel>,
)
    requires
        c.wf(),
        tabs_ahead(c, c.context.indent as nat),
        c.pos + c.context.indent <= d < c.len(),
        d == c.pos + c.context.indent || (is_regular_spec(gv(c, c.pos + c.context.indent))
            && !is_tab_spec(gv(c, c.pos + c.context.indent))),
        forall|m: int|
            c.pos + c.context.indent <= m < d ==> is_regular_spec(#[trigger] gv(c, m))
                || is_space_spec(gv(c, m)),
        gv(c, d).len() == 1,
        is_disallowed_char(gv(c, d)[0]),
    ensures
        expression_spec(c).0 matches Err(ErrorModel::UnexpectedCharacter { context, found, .. })
            && context == at(c, d).context && found == gv(c, d),
        block_loop(c, elems, diags).0 is Malformed,
        block_loop(c, elems, diags).0->Malformed_0.contains(expression_spec(c).0->Err_0),
{
    let k = c.context.indent as nat;
    let p = c.pos + k;
    let g = gv(c, d);
    assert(!is_newline_spec(g)) by {
        if is_newline_spec(g) {
            assert(g[0] == '\n' || g[0] == '\r');
        }
    }
    assert(!is_regular_spec(g));
    assert(!is_space_spec(g));
    assert forall|m: int| p <= m <= d implies !is_newline_spec(#[trigger] gv(c, m)) by {
        if m < d {
            if is_space_spec(gv(c, m)) {
                assert(gv(c, m)[0] == ' ');
            }
        }
    }
    lemma_line_stop_past(c, p, d);
    let stop = line_stop(c, p);
    if p < d {
        lemma_bad_at(c, p, d, stop);
    }
    let first = gv(c, p);
    assert(!is_space_spec(first) && !is_tab_spec(first));
    assert forall|m: int| c.pos <= m < p implies is_tab_spec(#[trigger] gv(c, m)) || is_space_spec(
        gv(c, m),
    ) by {
        assert(gv(c, c.pos + (m - c.pos)) == gv(c, m));
    }
    lemma_blank_end_at(c, c.pos as int, p);
    assert(!is_char_spec(first, '#')) by {
        if is_char_spec(first, '#') {
            assert(first[0] == '#');
        }
    }
    let e = expression_spec(c).0->Err_0;
    lemma_line_stop_bounds(c, c.pos as int);
    let next = at(c, crate::grammar::line_after(c));
    lemma_loop_keeps_diags(next, elems, diags.push(e));
    let ds = block_loop(c, elems, diags).0->Malformed_0;
    assert(ds[diags.len() as int] == diags.push(e)[diags.len() as int]);
}

} // verus!
