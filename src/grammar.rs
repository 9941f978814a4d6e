//! The indentation-sensitive grammar: a block is a run of lines indented by
//! the current depth, each an expression (identifiers, then the block nested
//! one tab deeper) or a comment. A line that fails to parse is skipped and its
//! diagnostic kept, so one bad line marks its own block as malformed without
//! ending the parse.

use vstd::prelude::*;
use itertools::Itertools;
use crate::combinators::{multiple, repeats};
use crate::primitives::{eof, one_item_post, tab};
use crate::types::{
    concat, lemma_reaches_refl, lemma_reaches_trans, lemma_reaches_wf, lemma_skip_add,
    lemma_skip_with_indent, lemma_track_indent, views, ErrorModel, Expected, Input, Output,
    ParseError,
};
use crate::values::{
    is_char_spec, is_newline, is_newline_spec, is_regular, is_regular_spec, is_space,
    is_space_spec, is_tab, is_tab_spec,
};
use crate::tree::{
    block_model, element_model, elements_model, errors_model, Block, BlockModel, Element,
    ElementModel, Expression,
};

verus! {

/// The grapheme at absolute position `p`.
pub open spec fn gv<'a>(c: Input<'a>, p: int) -> Seq<char> {
    c.items@[p]@
}

/// The cursor moved on to absolute position `p`.
pub open spec fn at<'a>(c: Input<'a>, p: int) -> Input<'a> {
    c.skip((p - c.pos) as nat)
}

/// `k` tabs lie directly ahead of the cursor.
pub open spec fn tabs_ahead<'a>(c: Input<'a>, k: nat) -> bool {
    &&& c.pos + k <= c.len()
    &&& forall|j: int| 0 <= j < k ==> is_tab_spec(#[trigger] gv(c, c.pos + j))
}

/// The current block has ended: fewer tabs lie ahead than its depth.
pub open spec fn dedent_spec<'a>(c: Input<'a>) -> bool {
    !tabs_ahead(c, c.context.indent as nat)
}

/// First position from `p` on, before `to`, that holds no tab; else `p`
/// stops at `to` or the end.
pub open spec fn tab_run_end<'a>(c: Input<'a>, p: int, to: int) -> int
    decreases to - p,
{
    if p >= to || p >= c.len() || !is_tab_spec(gv(c, p)) {
        p
    } else {
        tab_run_end(c, p + 1, to)
    }
}

/// First newline at or after `p`, or the end.
pub open spec fn line_stop<'a>(c: Input<'a>, p: int) -> int
    decreases c.len() - p,
{
    if p >= c.len() || is_newline_spec(gv(c, p)) {
        p
    } else {
        line_stop(c, p + 1)
    }
}

/// First position at or after `p` that holds neither a tab nor a space.
pub open spec fn blank_end<'a>(c: Input<'a>, p: int) -> int
    decreases c.len() - p,
{
    if p >= c.len() || !(is_tab_spec(gv(c, p)) || is_space_spec(gv(c, p))) {
        p
    } else {
        blank_end(c, p + 1)
    }
}

/// First position at or after `p` that holds no newline.
pub open spec fn newline_run_end<'a>(c: Input<'a>, p: int) -> int
    decreases c.len() - p,
{
    if p >= c.len() || !is_newline_spec(gv(c, p)) {
        p
    } else {
        newline_run_end(c, p + 1)
    }
}

/// First position in `[p, stop)` that holds neither an identifier item nor
/// a space, or `stop`.
pub open spec fn bad_in_line<'a>(c: Input<'a>, p: int, stop: int) -> int
    decreases stop - p,
{
    if p >= stop {
        stop
    } else if is_regular_spec(gv(c, p)) || is_space_spec(gv(c, p)) {
        bad_in_line(c, p + 1, stop)
    } else {
        p
    }
}

/// The words of positions `[p, stop)`, split at spaces, where `cur` holds the
/// graphemes of a word begun before `p`.
pub open spec fn words<'a>(c: Input<'a>, p: int, stop: int, cur: Seq<Seq<char>>) -> Seq<
    Seq<char>,
>
    decreases stop - p,
{
    let closed = if cur.len() > 0 {
        seq![concat(cur)]
    } else {
        Seq::empty()
    };
    if p >= stop {
        closed
    } else if is_space_spec(gv(c, p)) {
        closed + words(c, p + 1, stop, Seq::empty())
    } else {
        words(c, p + 1, stop, cur.push(gv(c, p)))
    }
}

/// The diagnostic where a required item is missing at `p`.
pub open spec fn missing_at<'a>(c: Input<'a>, p: int, expected: Expected) -> ErrorModel {
    if p >= c.len() {
        ErrorModel::UnexpectedEOF { context: at(c, p).context, expected }
    } else {
        ErrorModel::UnexpectedCharacter { context: at(c, p).context, expected, found: gv(c, p) }
    }
}

/// The diagnostic where fewer than `k` tabs lie ahead.
pub open spec fn indent_error<'a>(c: Input<'a>, k: nat) -> ErrorModel {
    missing_at(c, tab_run_end(c, c.pos as int, c.pos + k), Expected::Tab)
}

/// Position after the current line and its newline.
pub open spec fn line_after<'a>(c: Input<'a>) -> int {
    let s = line_stop(c, c.pos as int);
    if s < c.len() {
        s + 1
    } else {
        s
    }
}

/// A comment line: any tabs and spaces, `#`, then the rest of the line as
/// its text; the newlines after it are consumed. The indentation is not
/// checked here: a block checks its depth before it tries a line.
pub open spec fn comment_spec<'a>(c: Input<'a>) -> (Result<ElementModel, ErrorModel>, Input<'a>) {
    let q = blank_end(c, c.pos as int);
    if q >= c.len() || !is_char_spec(gv(c, q), '#') {
        (Err(missing_at(c, q, Expected::CommentMarker)), c)
    } else {
        let stop = line_stop(c, q + 1);
        let text = concat(views(c.items@).subrange(q + 1, stop));
        (Ok(ElementModel::Comment(text)), at(c, newline_run_end(c, stop)))
    }
}

/// An expression line: the indentation of the block, then identifiers
/// separated by spaces up to a newline or the end; the newlines after it are
/// consumed and the block one tab deeper is parsed as its body.
pub open spec fn expression_spec<'a>(c: Input<'a>) -> (Result<ElementModel, ErrorModel>, Input<'a>)
    decreases c.len() - c.pos, 0nat,
{
    let k = c.context.indent as nat;
    if !tabs_ahead(c, k) {
        (Err(indent_error(c, k)), c)
    } else {
        let p = c.pos + k;
        let stop = line_stop(c, p);
        if p >= stop || !is_regular_spec(gv(c, p)) {
            (Err(missing_at(c, p, Expected::Identifier)), c)
        } else if bad_in_line(c, p, stop) < stop {
            (Err(missing_at(c, bad_in_line(c, p, stop), Expected::Newline)), c)
        } else {
            let inner = at(c, newline_run_end(c, stop)).with_indent((k + 1) as usize);
            if c.pos < inner.pos <= c.len() {
                let nested = block_spec(inner);
                (
                    Ok(
                        ElementModel::Expression {
                            identifiers: words(c, p, stop, Seq::empty()),
                            block: nested.0,
                        },
                    ),
                    nested.1.with_indent(k as usize),
                )
            } else {
                (Err(ErrorModel::NoneMatched), c)
            }
        }
    }
}

/// The block that the collected elements and diagnostics make.
pub open spec fn finish(elems: Seq<ElementModel>, diags: Seq<ErrorModel>) -> BlockModel {
    if diags.len() > 0 {
        BlockModel::Malformed(diags)
    } else if elems.len() > 0 {
        BlockModel::Populated(elems)
    } else {
        BlockModel::Empty
    }
}

/// The lines of a block from `c` on, after `elems` and `diags` were
/// collected: each line is a comment or else an expression; a line that is
/// neither adds its diagnostic and is skipped. The block ends at the end of
/// the input or where the indentation falls below its depth. Every step
/// consumes at least one item; the position checks before each recursive
/// step state that, so that the recursion visibly ends.
pub open spec fn block_loop<'a>(
    c: Input<'a>,
    elems: Seq<ElementModel>,
    diags: Seq<ErrorModel>,
) -> (BlockModel, Input<'a>)
    decreases c.len() - c.pos, 1nat,
{
    if c.pos >= c.len() || dedent_spec(c) {
        (finish(elems, diags), c)
    } else {
        let cm = comment_spec(c);
        if cm.0 is Ok {
            if c.pos < cm.1.pos <= c.len() {
                block_loop(cm.1, elems.push(cm.0->Ok_0), diags)
            } else {
                (finish(elems, diags), c)
            }
        } else {
            let ex = expression_spec(c);
            if ex.0 is Ok {
                if ex.1.items == c.items && c.pos < ex.1.pos <= c.len() {
                    block_loop(ex.1, elems.push(ex.0->Ok_0), diags)
                } else {
                    (finish(elems, diags), c)
                }
            } else {
                let next = at(c, line_after(c));
                if c.pos < next.pos <= c.len() {
                    block_loop(next, elems, diags.push(ex.0->Err_0))
                } else {
                    (finish(elems, diags.push(ex.0->Err_0)), c)
                }
            }
        }
    }
}

/// A block at the cursor's depth: `Empty` without consuming if the first
/// line is not indented that deep, else the lines of `block_loop`.
pub open spec fn block_spec<'a>(c: Input<'a>) -> (BlockModel, Input<'a>)
    decreases c.len() - c.pos, 2nat,
{
    if !tabs_ahead(c, c.context.indent as nat) {
        (BlockModel::Empty, c)
    } else {
        block_loop(c, Seq::empty(), Seq::empty())
    }
}

/// Relies on itertools::Itertools::join: with an empty separator, the items
/// written out one after another.
#[verifier::external_body]
fn join_items(v: &Vec<String>) -> (r: String)
    ensures
        r@ == concat(views(v@)),
{
    v.iter().join("")
}

fn is_hash(g: &str) -> (r: bool)
    ensures
        r == is_char_spec(g@, '#'),
{
    g.unicode_len() == 1 && g.get_char(0) == '#'
}

/// The cursor moved on to absolute position `p`.
fn cursor_at<'a>(c: Input<'a>, p: usize) -> (r: Input<'a>)
    requires
        c.wf(),
        c.pos <= p <= c.len(),
    ensures
        r == at(c, p as int),
        r.wf(),
        r.pos == p,
        r.items == c.items,
        r.context.indent == c.context.indent,
{
    proof {
        lemma_track_indent(c.context, c.ahead((p - c.pos) as nat));
    }
    let mut d = c;
    let _ = d.advance(p - c.pos);
    d
}

fn find_line_stop(c: Input<'_>, p: usize) -> (q: usize)
    requires
        c.wf(),
        p <= c.len(),
    ensures
        q == line_stop(c, p as int),
        p <= q <= c.len(),
{
    let n = c.items.len();
    let mut q = p;
    while q < n && !is_newline(c.items[q].as_str())
        invariant
            c.wf(),
            n == c.len(),
            p <= q <= n,
            line_stop(c, q as int) == line_stop(c, p as int),
        decreases n - q,
    {
        q = q + 1;
    }
    q
}

fn find_blank_end(c: Input<'_>, p: usize) -> (q: usize)
    requires
        c.wf(),
        p <= c.len(),
    ensures
        q == blank_end(c, p as int),
        p <= q <= c.len(),
{
    let n = c.items.len();
    let mut q = p;
    while q < n && (is_tab(c.items[q].as_str()) || is_space(c.items[q].as_str()))
        invariant
            c.wf(),
            n == c.len(),
            p <= q <= n,
            blank_end(c, q as int) == blank_end(c, p as int),
        decreases n - q,
    {
        q = q + 1;
    }
    q
}

fn find_newline_run_end(c: Input<'_>, p: usize) -> (q: usize)
    requires
        c.wf(),
        p <= c.len(),
    ensures
        q == newline_run_end(c, p as int),
        p <= q <= c.len(),
{
    let n = c.items.len();
    let mut q = p;
    while q < n && is_newline(c.items[q].as_str())
        invariant
            c.wf(),
            n == c.len(),
            p <= q <= n,
            newline_run_end(c, q as int) == newline_run_end(c, p as int),
        decreases n - q,
    {
        q = q + 1;
    }
    q
}

fn find_bad(c: Input<'_>, p: usize, stop: usize) -> (q: usize)
    requires
        c.wf(),
        p <= stop <= c.len(),
    ensures
        q == bad_in_line(c, p as int, stop as int),
        p <= q <= stop,
{
    let mut q = p;
    while q < stop && (is_regular(c.items[q].as_str()) || is_space(c.items[q].as_str()))
        invariant
            c.wf(),
            p <= q <= stop <= c.len(),
            bad_in_line(c, q as int, stop as int) == bad_in_line(c, p as int, stop as int),
        decreases stop - q,
    {
        q = q + 1;
    }
    q
}

/// Consumes `k` tabs, or names where they fall short.
fn skip_tabs<'a>(c: Input<'a>, k: usize) -> (r: Result<Input<'a>, ParseError>)
    requires
        c.wf(),
    ensures
        tabs_ahead(c, k as nat) ==> (r matches Ok(d) && d == at(c, c.pos + k) && d.wf()),
        !tabs_ahead(c, k as nat) ==> (r matches Err(e) && e@ == indent_error(c, k as nat)),
{
    let n = c.items.len();
    let mut i: usize = 0;
    while i < k
        invariant
            c.wf(),
            n == c.len(),
            i <= k,
            c.pos + i <= n,
            forall|j: int| 0 <= j < i ==> is_tab_spec(#[trigger] gv(c, c.pos + j)),
            tab_run_end(c, c.pos + i, c.pos + k) == tab_run_end(c, c.pos as int, c.pos + k),
        decreases k - i,
    {
        let p = c.pos + i;
        if p >= n {
            let d = cursor_at(c, p);
            return Err(ParseError::UnexpectedEOF { context: d.context, expected: Expected::Tab });
        }
        if !is_tab(c.items[p].as_str()) {
            let d = cursor_at(c, p);
            assert(!tabs_ahead(c, k as nat)) by {
                assert(!is_tab_spec(gv(c, c.pos + i)));
            }
            return Err(
                ParseError::UnexpectedCharacter {
                    context: d.context,
                    expected: Expected::Tab,
                    found: c.items[p].clone(),
                },
            );
        }
        i = i + 1;
    }
    Ok(cursor_at(c, c.pos + k))
}

/// Builds the diagnostic for an item that is missing at `p`.
fn missing(c: Input<'_>, p: usize, expected: Expected) -> (e: ParseError)
    requires
        c.wf(),
        c.pos <= p <= c.len(),
    ensures
        e@ == missing_at(c, p as int, expected),
{
    let d = cursor_at(c, p);
    if p >= c.items.len() {
        ParseError::UnexpectedEOF { context: d.context, expected }
    } else {
        ParseError::UnexpectedCharacter { context: d.context, expected, found: c.items[p].clone() }
    }
}

/// The space-separated words of positions `[p, stop)`.
fn collect_words(c: Input<'_>, p: usize, stop: usize) -> (ids: Vec<String>)
    requires
        c.wf(),
        p <= stop <= c.len(),
    ensures
        views(ids@) == words(c, p as int, stop as int, Seq::empty()),
{
    let mut ids: Vec<String> = Vec::new();
    let mut cur: Vec<String> = Vec::new();
    let mut i = p;
    assert(views(ids@) =~= Seq::<Seq<char>>::empty());
    assert(views(cur@) =~= Seq::<Seq<char>>::empty());
    while i < stop
        invariant
            c.wf(),
            p <= i <= stop <= c.len(),
            views(ids@) + words(c, i as int, stop as int, views(cur@)) == words(
                c,
                p as int,
                stop as int,
                Seq::empty(),
            ),
        decreases stop - i,
    {
        let ghost before_ids = views(ids@);
        let ghost before_cur = views(cur@);
        if is_space(c.items[i].as_str()) {
            if cur.len() > 0 {
                let w = join_items(&cur);
                ids.push(w);
                cur = Vec::new();
                assert(views(ids@) =~= before_ids + seq![concat(before_cur)]);
            }
            assert(views(cur@) =~= Seq::<Seq<char>>::empty());
        } else {
            cur.push(c.items[i].clone());
            assert(views(cur@) =~= before_cur.push(gv(c, i as int)));
        }
        i = i + 1;
    }
    let ghost before_ids = views(ids@);
    if cur.len() > 0 {
        let w = join_items(&cur);
        ids.push(w);
        assert(views(ids@) =~= before_ids + seq![concat(views(cur@))]);
    } else {
        assert(views(ids@) =~= before_ids + Seq::<Seq<char>>::empty());
    }
    ids
}

/// The graphemes of positions `[p, stop)`, joined.
fn join_range(c: Input<'_>, p: usize, stop: usize) -> (s: String)
    requires
        c.wf(),
        p <= stop <= c.len(),
    ensures
        s@ == concat(views(c.items@).subrange(p as int, stop as int)),
{
    let mut parts: Vec<String> = Vec::new();
    let mut i = p;
    assert(views(parts@) =~= views(c.items@).subrange(p as int, p as int));
    while i < stop
        invariant
            c.wf(),
            p <= i <= stop <= c.len(),
            views(parts@) == views(c.items@).subrange(p as int, i as int),
        decreases stop - i,
    {
        let ghost before = views(parts@);
        parts.push(c.items[i].clone());
        assert(views(parts@) =~= before.push(gv(c, i as int)));
        i = i + 1;
        assert(views(parts@) =~= views(c.items@).subrange(p as int, i as int));
    }
    join_items(&parts)
}

proof fn lemma_elements_prefix(s: Seq<Element>, x: Element, n: nat)
    requires
        n <= s.len(),
    ensures
        elements_model(s.push(x), n) == elements_model(s, n),
    decreases n,
{
    if n > 0 {
        lemma_elements_prefix(s, x, (n - 1) as nat);
        assert(s.push(x)[n - 1] == s[n - 1]);
    }
}

/// What `repeats` means for a parser of single tabs: that many tabs lie
/// ahead, and the run ends right after them.
proof fn lemma_tab_repeats<'a, P: Fn(Input<'a>) -> (Output<String>, Input<'a>)>(
    p: P,
    c: Input<'a>,
    vals: Seq<String>,
    end: Input<'a>,
)
    requires
        c.wf(),
        repeats(p, c, vals, end),
        forall|i: Input<'a>, o: (Output<String>, Input<'a>)|
            i.wf() && #[trigger] call_ensures(p, (i,), o) ==> one_item_post(
                i,
                o,
                is_tab_spec(i.item(0)),
                Expected::Tab,
            ),
    ensures
        tabs_ahead(c, vals.len()),
        end == at(c, c.pos + vals.len()),
        c.reaches(end),
    decreases vals.len(),
{
    if vals.len() == 0 {
        assert(c.ahead(0) =~= Seq::<Seq<char>>::empty());
    } else {
        let n = vals.len();
        let mid = choose|mid: Input<'a>|
            repeats(p, c, vals.drop_last(), mid) && #[trigger] call_ensures(
                p,
                (mid,),
                (Output::Success(vals.last()), end),
            );
        lemma_tab_repeats(p, c, vals.drop_last(), mid);
        lemma_reaches_wf(c, mid);
        lemma_skip_add(c, (n - 1) as nat, 1);
        assert(gv(c, c.pos + n - 1) == mid.item(0));
        assert forall|j: int| 0 <= j < n implies is_tab_spec(#[trigger] gv(c, c.pos + j)) by {
            if j < n - 1 {
                assert(gv(c, c.pos + j) == gv(c, c.pos + j));
            }
        }
    }
}

proof fn lemma_elements_len(s: Seq<Element>, n: nat)
    requires
        n <= s.len(),
    ensures
        elements_model(s, n).len() == n,
    decreases n,
{
    if n > 0 {
        lemma_elements_len(s, (n - 1) as nat);
    }
}

proof fn lemma_elements_push(s: Seq<Element>, x: Element)
    ensures
        elements_model(s.push(x), s.len() + 1) == elements_model(s, s.len()).push(element_model(x)),
{
    lemma_elements_prefix(s, x, s.len());
    assert(s.push(x)[s.len() as int] == x);
}

/// What `comment` returns: the value and cursor of `comment_spec`, or its
/// diagnostic as `Recoverable` with the cursor left in place.
pub open spec fn comment_post<'a>(input: Input<'a>, r: (Output<String>, Input<'a>)) -> bool {
    match comment_spec(input).0 {
        Ok(m) => {
            &&& r.0 matches Output::Success(s) && m == ElementModel::Comment(s@)
            &&& r.1 == comment_spec(input).1
        },
        Err(d) => {
            &&& r.0 matches Output::Recoverable(e) && e@ == d
            &&& r.1 == input
        },
    }
}

/// What `expression` returns: the value and cursor of `expression_spec`, or
/// its diagnostic as `Recoverable` with the cursor left in place.
pub open spec fn expression_post<'a>(input: Input<'a>, r: (Output<Expression>, Input<'a>)) -> bool {
    match expression_spec(input).0 {
        Ok(m) => {
            &&& r.0 matches Output::Success(x) && element_model(Element::Expression(x)) == m
            &&& r.1 == expression_spec(input).1
        },
        Err(d) => {
            &&& r.0 matches Output::Recoverable(e) && e@ == d
            &&& r.1 == input
        },
    }
}

/// `r` is a cursor that `input` can move on to while parsing its own block.
pub open spec fn moves_on<'a>(input: Input<'a>, r: Input<'a>) -> bool {
    &&& r.wf()
    &&& input.reaches(r)
    &&& r.context.indent == input.context.indent
}

/// Succeeds, without consuming, where fewer tabs lie ahead than the current
/// depth: the current block has ended.
pub fn dedent<'a>(input: Input<'a>) -> (r: (Output<()>, Input<'a>))
    requires
        input.wf(),
    ensures
        r.1 == input,
        dedent_spec(input) ==> r.0 == Output::<()>::Success(()),
        !dedent_spec(input) ==> (r.0 matches Output::Recoverable(e) && e@ == ErrorModel::NoneMatched),
{
    let k = input.context.indent;
    let (probe, after) = multiple(k, tab, input);
    let ghost outcome = (probe, after);
    match probe {
        Output::Success(v) => {
            proof {
                lemma_tab_repeats(tab, input, v@, after);
            }
            (Output::Recoverable(ParseError::NoneMatched), input)
        },
        _ => {
            proof {
                let (mid, o, done) = choose|
                    mid: Input<'a>,
                    o: (Output<String>, Input<'a>),
                    done: Seq<String>,
                |
                    #![trigger call_ensures(tab, (mid,), o), repeats(tab, input, done, mid)]
                    call_ensures(tab, (mid,), o) && repeats(tab, input, done, mid) && done.len() < k
                        && !(o.0 is Success) && ((outcome.0 is Fatal) ==> o.0 == Output::<
                        String,
                    >::Fatal(outcome.0->Fatal_0));
                lemma_tab_repeats(tab, input, done, mid);
                lemma_reaches_wf(input, mid);
                if !mid.at_end() {
                    assert(gv(input, input.pos + done.len()) == mid.item(0));
                }
            }
            (Output::Success(()), input)
        },
    }
}

/// Parses a comment line; its value is the text after `#`.
pub fn comment<'a>(input: Input<'a>) -> (r: (Output<String>, Input<'a>))
    requires
        input.wf(),
    ensures
        moves_on(input, r.1),
        (r.0 is Success) ==> input.pos < r.1.pos,
        comment_post(input, r),
{
    proof {
        lemma_reaches_refl(input);
    }
    let q = find_blank_end(input, input.pos);
    if q >= input.items.len() || !is_hash(input.items[q].as_str()) {
        return (Output::Recoverable(missing(input, q, Expected::CommentMarker)), input);
    }
    let stop = find_line_stop(input, q + 1);
    let text = join_range(input, q + 1, stop);
    let e = find_newline_run_end(input, stop);
    (Output::Success(text), cursor_at(input, e))
}

/// Parses an expression line and the block nested under it.
pub fn expression<'a>(input: Input<'a>) -> (r: (Output<Expression>, Input<'a>))
    requires
        input.wf(),
    ensures
        moves_on(input, r.1),
        (r.0 is Success) ==> input.pos < r.1.pos,
        expression_post(input, r),
    decreases input.len() - input.pos, 0nat,
{
    let k = input.context.indent;
    proof {
        lemma_reaches_refl(input);
    }
    let start = match skip_tabs(input, k) {
        Ok(d) => d,
        Err(e) => {
            return (Output::Recoverable(e), input);
        },
    };
    let p = start.pos;
    let stop = find_line_stop(input, p);
    if p >= stop || !is_regular(input.items[p].as_str()) {
        return (Output::Recoverable(missing(input, p, Expected::Identifier)), input);
    }
    let q = find_bad(input, p, stop);
    if q < stop {
        return (Output::Recoverable(missing(input, q, Expected::Newline)), input);
    }
    let identifiers = collect_words(input, p, stop);
    let e = find_newline_run_end(input, stop);
    let mut inner = cursor_at(input, e);
    inner.context.indent = k + 1;
    let (body, after) = block(inner);
    let mut out = after;
    out.context.indent = k;
    proof {
        let mid = at(input, e as int);
        let m = (after.pos - inner.pos) as nat;
        lemma_skip_with_indent(mid, m, (k + 1) as usize);
        lemma_track_indent(mid.context, mid.ahead(m));
        assert(mid.skip(m).with_indent(k) == mid.skip(m));
        assert(out == mid.skip(m));
        lemma_reaches_trans(input, mid, out);
    }
    (Output::Success(Expression { identifiers, block: body }), out)
}

/// Parses the block at the cursor's depth.
pub fn block<'a>(input: Input<'a>) -> (r: (Block, Input<'a>))
    requires
        input.wf(),
    ensures
        moves_on(input, r.1),
        r.0@ == block_spec(input).0,
        r.1 == block_spec(input).1,
    decreases input.len() - input.pos, 2nat,
{
    let k = input.context.indent;
    proof {
        lemma_reaches_refl(input);
    }
    match dedent(input).0 {
        Output::Success(_) => {
            return (Block::Empty, input);
        },
        _ => {},
    }
    let n = input.items.len();
    let mut c = input;
    let mut elems: Vec<Element> = Vec::new();
    let mut diags: Vec<ParseError> = Vec::new();
    assert(elements_model(elems@, elems@.len()) =~= Seq::<ElementModel>::empty());
    assert(errors_model(diags@) =~= Seq::<ErrorModel>::empty());
    loop
        invariant
            input.wf(),
            n == input.len(),
            k == input.context.indent,
            moves_on(input, c),
            block_loop(c, elements_model(elems@, elems@.len()), errors_model(diags@)) == block_spec(
                input,
            ),
        ensures
            block_loop(c, elements_model(elems@, elems@.len()), errors_model(diags@)) == (
                finish(elements_model(elems@, elems@.len()), errors_model(diags@)),
                c,
            ),
        decreases n - c.pos,
    {
        let ghost em = elements_model(elems@, elems@.len());
        let ghost dm = errors_model(diags@);
        match eof(c).0 {
            Output::Success(_) => {
                break;
            },
            _ => {},
        }
        match dedent(c).0 {
            Output::Success(_) => {
                break;
            },
            _ => {},
        }
        let (cm, c2) = comment(c);
        match cm {
            Output::Success(text) => {
                proof {
                    lemma_elements_push(elems@, Element::Comment(text));
                    assert(block_loop(c, em, dm) == block_loop(
                        c2,
                        em.push(element_model(Element::Comment(text))),
                        dm,
                    ));
                }
                proof {
                    lemma_reaches_trans(input, c, c2);
                }
                elems.push(Element::Comment(text));
                c = c2;
                continue;
            },
            _ => {},
        }
        let (ex, c3) = expression(c);
        match ex {
            Output::Success(x) => {
                proof {
                    lemma_elements_push(elems@, Element::Expression(x));
                    assert(block_loop(c, em, dm) == block_loop(
                        c3,
                        em.push(element_model(Element::Expression(x))),
                        dm,
                    ));
                }
                proof {
                    lemma_reaches_trans(input, c, c3);
                }
                elems.push(Element::Expression(x));
                c = c3;
            },
            Output::Recoverable(d) => {
                diags.push(d);
                assert(errors_model(diags@) =~= dm.push(d@));
                let s = find_line_stop(c, c.pos);
                let q = if s < n {
                    s + 1
                } else {
                    s
                };
                let c4 = cursor_at(c, q);
                assert(block_loop(c, em, dm) == block_loop(c4, em, dm.push(d@)));
                proof {
                    lemma_reaches_trans(input, c, c4);
                }
                c = c4;
            },
            _ => {
                break;
            },
        }
    }
    proof {
        lemma_elements_len(elems@, elems@.len());
    }
    if diags.len() > 0 {
        (Block::Malformed(diags), c)
    } else if elems.len() > 0 {
        (Block::Populated(elems), c)
    } else {
        (Block::Empty, c)
    }
}

} // verus!
