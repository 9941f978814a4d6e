//! The cursor over grapheme clusters and the four-way parse outcome.

use vstd::prelude::*;
use crate::values::{is_newline, is_newline_spec};
use vstd::std_specs::convert::FromSpec;

verus! {

/// Position metadata of a cursor: the indentation depth that the current
/// nesting level expects, and the line and column of the next item.
#[derive(Clone, Copy, Debug, PartialEq, Eq, Structural)]
pub struct InputContext {
    pub indent: usize,
    pub line: usize,
    pub position: usize,
}

/// What a parse step was looking for when it failed.
#[derive(Clone, Copy, Debug, PartialEq, Eq, Structural)]
pub enum Expected {
    EndOfInput,
    Tab,
    Space,
    Newline,
    AnyItem,
    RegularChar,
    SpecialChar,
    /// This many more items.
    MoreItems(usize),
    Identifier,
    CommentMarker,
    Literal,
}

/// A diagnostic; each one carries the context at the point of failure.
#[derive(Debug)]
pub enum ParseError {
    UnexpectedEOF { context: InputContext, expected: Expected },
    UnexpectedCharacter { context: InputContext, expected: Expected, found: String },
    NoneMatched,
}

/// The mathematical form of a diagnostic.
pub enum ErrorModel {
    UnexpectedEOF { context: InputContext, expected: Expected },
    UnexpectedCharacter { context: InputContext, expected: Expected, found: Seq<char> },
    NoneMatched,
}

impl View for ParseError {
    type V = ErrorModel;

    open spec fn view(&self) -> ErrorModel {
        match self {
            ParseError::UnexpectedEOF { context, expected } => ErrorModel::UnexpectedEOF {
                context: *context,
                expected: *expected,
            },
            ParseError::UnexpectedCharacter { context, expected, found } =>
                ErrorModel::UnexpectedCharacter {
                context: *context,
                expected: *expected,
                found: found@,
            },
            ParseError::NoneMatched => ErrorModel::NoneMatched,
        }
    }
}

/// Outcome of a parse step.
#[derive(Debug)]
pub enum Output<R> {
    /// Full match.
    Success(R),
    /// A best-effort value together with the reason parsing stopped.
    Partial { result: R, error: ParseError },
    /// This alternative did not match; a sibling may be tried.
    Recoverable(ParseError),
    /// Nothing else should be tried.
    Fatal(ParseError),
}

impl<R> Output<R> {
    /// Converts the value of a `Success` or `Partial`, keeping the variant and
    /// the diagnostic.
    pub fn map_value<T: From<R>>(self) -> (r: Output<T>)
        ensures
            (self is Success) <==> (r is Success),
            (self is Partial) <==> (r is Partial),
            (self is Partial) ==> r->Partial_error == self->Partial_error,
            T::obeys_from_spec() && (self is Success) ==> r->Success_0 == T::from_spec(
                self->Success_0,
            ),
            T::obeys_from_spec() && (self is Partial) ==> r->Partial_result == T::from_spec(
                self->Partial_result,
            ),
            (self is Recoverable) ==> r == Output::<T>::Recoverable(self->Recoverable_0),
            (self is Fatal) ==> r == Output::<T>::Fatal(self->Fatal_0),
    {
        match self {
            Output::Success(x) => Output::Success(T::from(x)),
            Output::Partial { result, error } => Output::Partial { result: T::from(result), error },
            Output::Recoverable(e) => Output::Recoverable(e),
            Output::Fatal(e) => Output::Fatal(e),
        }
    }

    /// Drops the value of a `Success` or `Partial`, keeping the variant and
    /// the diagnostic.
    pub fn discard_value(self) -> (r: Output<()>)
        ensures
            (self is Success) <==> (r == Output::<()>::Success(())),
            (self is Partial) ==> (r == (Output::<()>::Partial { result: (), error: self->Partial_error })),
            (self is Recoverable) ==> r == Output::<()>::Recoverable(self->Recoverable_0),
            (self is Fatal) ==> r == Output::<()>::Fatal(self->Fatal_0),
    {
        match self {
            Output::Success(_) => Output::Success(()),
            Output::Partial { result: _, error } => Output::Partial { result: (), error },
            Output::Recoverable(e) => Output::Recoverable(e),
            Output::Fatal(e) => Output::Fatal(e),
        }
    }
}

/// The views of a sequence of graphemes.
pub open spec fn views(items: Seq<String>) -> Seq<Seq<char>> {
    items.map_values(|s: String| s@)
}

/// Context after consuming one grapheme: a newline moves to the start of the
/// next line, anything else one column on.
pub open spec fn step_context(ctx: InputContext, g: Seq<char>) -> InputContext {
    if is_newline_spec(g) {
        InputContext { line: (ctx.line + 1) as usize, position: 0, ..ctx }
    } else {
        InputContext { position: (ctx.position + 1) as usize, ..ctx }
    }
}

/// Context after consuming the graphemes `gs` in order.
pub open spec fn track(ctx: InputContext, gs: Seq<Seq<char>>) -> InputContext
    decreases gs.len(),
{
    if gs.len() == 0 {
        ctx
    } else {
        step_context(track(ctx, gs.drop_last()), gs.last())
    }
}

/// Number of newline graphemes in `gs`.
pub open spec fn count_newlines(gs: Seq<Seq<char>>) -> nat
    decreases gs.len(),
{
    if gs.len() == 0 {
        0
    } else {
        count_newlines(gs.drop_last()) + if is_newline_spec(gs.last()) {
            1nat
        } else {
            0nat
        }
    }
}

/// Number of graphemes after the last newline of `gs` (all of them if there
/// is none).
pub open spec fn trailing_items(gs: Seq<Seq<char>>) -> nat
    decreases gs.len(),
{
    if gs.len() == 0 {
        0
    } else if is_newline_spec(gs.last()) {
        0
    } else {
        trailing_items(gs.drop_last()) + 1
    }
}

/// Concatenation of graphemes.
pub open spec fn concat(gs: Seq<Seq<char>>) -> Seq<char>
    decreases gs.len(),
{
    if gs.len() == 0 {
        Seq::empty()
    } else {
        concat(gs.drop_last()) + gs.last()
    }
}

/// Cursor over a fully materialised sequence of grapheme clusters. It is a
/// value: copying it forks the parse, and keeping or dropping the copy is how
/// a parse step backtracks.
#[derive(Clone, Copy, Debug)]
pub struct Input<'a> {
    pub items: &'a [String],
    pub pos: usize,
    pub context: InputContext,
}

impl<'a> Input<'a> {
    /// The position lies within the items, and the line and column cannot
    /// exceed the number of items consumed.
    pub open spec fn wf(self) -> bool {
        &&& self.items@.len() <= usize::MAX
        &&& self.pos <= self.items@.len()
        &&& self.context.line + self.context.position <= self.pos
    }

    /// Number of items.
    pub open spec fn len(self) -> int {
        self.items@.len() as int
    }

    /// The grapheme `k` items ahead.
    pub open spec fn item(self, k: int) -> Seq<char> {
        self.items@[self.pos + k]@
    }

    pub open spec fn at_end(self) -> bool {
        self.pos >= self.items@.len()
    }

    /// The `n` graphemes after the cursor.
    pub open spec fn ahead(self, n: nat) -> Seq<Seq<char>> {
        views(self.items@).subrange(self.pos as int, self.pos + n)
    }

    /// The cursor moved `n` items on, with its context tracked over them.
    pub open spec fn skip(self, n: nat) -> Input<'a> {
        Input { pos: (self.pos + n) as usize, context: track(self.context, self.ahead(n)), ..self }
    }

    /// The cursor with another indentation depth.
    pub open spec fn with_indent(self, indent: usize) -> Input<'a> {
        Input { context: InputContext { indent, ..self.context }, ..self }
    }

    /// `other` is this cursor moved forward over some items, with its context
    /// tracked over them.
    pub open spec fn reaches(self, other: Input<'a>) -> bool {
        &&& self.pos <= other.pos <= self.items@.len()
        &&& other == self.skip((other.pos - self.pos) as nat)
    }

    /// A cursor at the start of `items`.
    pub fn new(items: &'a [String]) -> (r: Self)
        ensures
            r.items == items,
            r.pos == 0,
            r.context == (InputContext { indent: 0, line: 0, position: 0 }),
            r.wf(),
    {
        let n = items.len();
        assert(items@.len() == n);
        Input { items, pos: 0, context: InputContext { indent: 0, line: 0, position: 0 } }
    }

    /// Consumes one item. At the end of the input the cursor stays and the
    /// outcome is `Fatal`.
    pub fn next(&mut self) -> (r: Output<String>)
        requires
            old(self).wf(),
        ensures
            final(self).wf(),
            !old(self).at_end() ==> (r matches Output::Success(g) && g@ == old(self).item(0)),
            !old(self).at_end() ==> *final(self) == old(self).skip(1),
            old(self).at_end() ==> *final(self) == *old(self),
            old(self).at_end() ==> (r matches Output::Fatal(e) && e@ == (ErrorModel::UnexpectedEOF {
                context: old(self).context,
                expected: Expected::MoreItems(1),
            })),
    {
        if self.pos >= self.items.len() {
            return Output::Fatal(
                ParseError::UnexpectedEOF { context: self.context, expected: Expected::MoreItems(1) },
            );
        }
        let g = self.items[self.pos].clone();
        let ghost before = *self;
        proof {
            lemma_skip_one(before);
        }
        if is_newline(g.as_str()) {
            self.context.line = self.context.line + 1;
            self.context.position = 0;
        } else {
            self.context.position = self.context.position + 1;
        }
        self.pos = self.pos + 1;
        Output::Success(g)
    }

    /// The next item, without consuming it; `Fatal` at the end of the input.
    pub fn peek(&self) -> (r: Output<String>)
        requires
            self.wf(),
        ensures
            !self.at_end() ==> (r matches Output::Success(g) && g@ == self.item(0)),
            self.at_end() ==> (r matches Output::Fatal(e) && e@ == (ErrorModel::UnexpectedEOF {
                context: self.context,
                expected: Expected::MoreItems(1),
            })),
    {
        let mut probe = *self;
        probe.next()
    }

    /// Consumes `by` items and returns them concatenated. If the input ends
    /// first, the cursor stays past what was consumed and the outcome is
    /// `Fatal`, naming how many items were still missing.
    pub fn advance(&mut self, by: usize) -> (r: Output<String>)
        requires
            old(self).wf(),
        ensures
            final(self).wf(),
            old(self).pos + by <= old(self).len() ==> *final(self) == old(self).skip(by as nat),
            old(self).pos + by <= old(self).len() ==> (r matches Output::Success(s) && s@ == concat(
                old(self).ahead(by as nat),
            )),
            old(self).pos + by > old(self).len() ==> *final(self) == old(self).skip(
                (old(self).len() - old(self).pos) as nat,
            ),
            old(self).pos + by > old(self).len() ==> (r matches Output::Fatal(e) && e@ == (
            ErrorModel::UnexpectedEOF {
                context: final(self).context,
                expected: Expected::MoreItems((old(self).pos + by - old(self).len()) as usize),
            })),
    {
        let mut result = String::new();
        let mut i: usize = 0;
        while i < by
            invariant
                old(self).wf(),
                self.wf(),
                i <= by,
                old(self).pos + i <= old(self).len(),
                *self == old(self).skip(i as nat),
                result@ == concat(old(self).ahead(i as nat)),
            decreases by - i,
        {
            let ghost before = *self;
            match self.next() {
                Output::Success(g) => {
                    result.append(g.as_str());
                    proof {
                        lemma_skip_add(*old(self), i as nat, 1);
                        assert(old(self).ahead((i + 1) as nat).last() == before.item(0));
                        assert(old(self).ahead((i + 1) as nat).drop_last() =~= old(self).ahead(
                            i as nat,
                        ));
                    }
                },
                _ => {
                    return Output::Fatal(
                        ParseError::UnexpectedEOF {
                            context: self.context,
                            expected: Expected::MoreItems(by - i),
                        },
                    );
                },
            }
            i = i + 1;
        }
        Output::Success(result)
    }
}

proof fn lemma_skip_one<'a>(c: Input<'a>)
    requires
        c.wf(),
        !c.at_end(),
    ensures
        c.skip(1).context == step_context(c.context, c.item(0)),
        c.skip(1).wf(),
{
    reveal_with_fuel(track, 2);
    let gs = c.ahead(1);
    assert(gs.drop_last() =~= Seq::<Seq<char>>::empty());
    assert(gs.last() == c.item(0));
}

/// Tracking over two stretches of input in turn is tracking over both.
pub proof fn lemma_track_append(ctx: InputContext, a: Seq<Seq<char>>, b: Seq<Seq<char>>)
    ensures
        track(ctx, a + b) == track(track(ctx, a), b),
    decreases b.len(),
{
    if b.len() == 0 {
        assert(a + b =~= a);
    } else {
        lemma_track_append(ctx, a, b.drop_last());
        assert((a + b).drop_last() =~= a + b.drop_last());
    }
}

/// Tracking never changes the indentation depth.
pub proof fn lemma_track_indent(ctx: InputContext, gs: Seq<Seq<char>>)
    ensures
        track(ctx, gs).indent == ctx.indent,
    decreases gs.len(),
{
    if gs.len() > 0 {
        lemma_track_indent(ctx, gs.drop_last());
    }
}

proof fn lemma_track_bound(ctx: InputContext, gs: Seq<Seq<char>>)
    requires
        ctx.line + ctx.position + gs.len() <= usize::MAX,
    ensures
        track(ctx, gs).line + track(ctx, gs).position <= ctx.line + ctx.position + gs.len(),
    decreases gs.len(),
{
    if gs.len() > 0 {
        lemma_track_bound(ctx, gs.drop_last());
    }
}

/// A cursor reached from a well-formed one is well-formed.
pub proof fn lemma_reaches_wf<'a>(a: Input<'a>, b: Input<'a>)
    requires
        a.wf(),
        a.reaches(b),
    ensures
        b.wf(),
{
    lemma_track_bound(a.context, a.ahead((b.pos - a.pos) as nat));
}

/// Position tracking composes: a cursor reached from one reached from `a`
/// is reached from `a`, with its context tracked over all items between.
pub proof fn lemma_reaches_trans<'a>(a: Input<'a>, b: Input<'a>, c: Input<'a>)
    requires
        a.wf(),
        a.reaches(b),
        b.reaches(c),
    ensures
        a.reaches(c),
{
    lemma_skip_add(a, (b.pos - a.pos) as nat, (c.pos - b.pos) as nat);
}

/// Every cursor reaches itself.
pub proof fn lemma_reaches_refl<'a>(a: Input<'a>)
    requires
        a.wf(),
    ensures
        a.reaches(a),
{
    assert(a.ahead(0) =~= Seq::<Seq<char>>::empty());
}

proof fn lemma_track_with_indent(ctx: InputContext, gs: Seq<Seq<char>>, indent: usize)
    ensures
        track(InputContext { indent, ..ctx }, gs) == (InputContext { indent, ..track(ctx, gs) }),
    decreases gs.len(),
{
    if gs.len() > 0 {
        lemma_track_with_indent(ctx, gs.drop_last(), indent);
    }
}

/// Changing the depth commutes with moving on.
pub proof fn lemma_skip_with_indent<'a>(c: Input<'a>, n: nat, indent: usize)
    ensures
        c.with_indent(indent).skip(n) == c.skip(n).with_indent(indent),
{
    lemma_track_with_indent(c.context, c.ahead(n), indent);
}

/// Skipping `m` items and then `n` more is skipping `m + n`.
pub proof fn lemma_skip_add<'a>(c: Input<'a>, m: nat, n: nat)
    requires
        c.wf(),
        c.pos + m + n <= c.len(),
    ensures
        c.skip(m).skip(n) == c.skip(m + n),
{
    let a = c.ahead(m);
    let b = c.skip(m).ahead(n);
    lemma_track_append(c.context, a, b);
    assert(a + b =~= c.ahead(m + n));
}

/// Position tracking counts: after consuming `gs`, the line has grown by the
/// number of newlines among them, and the column is the number of items after
/// the last newline (added to the old column when there is none). The
/// indentation depth is untouched.
pub proof fn lemma_track_counts(ctx: InputContext, gs: Seq<Seq<char>>)
    requires
        ctx.line + count_newlines(gs) <= usize::MAX,
        ctx.position + gs.len() <= usize::MAX,
    ensures
        track(ctx, gs).indent == ctx.indent,
        track(ctx, gs).line == ctx.line + count_newlines(gs),
        count_newlines(gs) == 0 ==> track(ctx, gs).position == ctx.position + gs.len(),
        count_newlines(gs) > 0 ==> track(ctx, gs).position == trailing_items(gs),
    decreases gs.len(),
{
    if gs.len() > 0 {
        lemma_track_counts(ctx, gs.drop_last());
        lemma_trailing_bound(gs.drop_last());
    }
}

/// Every parse step reports its end cursor as one reached from its start
/// (`reaches`); for such a pair the line of the end is the line of the start
/// plus the number of newlines consumed, and its column is the number of
/// items consumed after the last newline, or the start column plus the number
/// of items consumed where there was no newline.
pub proof fn lemma_position_counts<'a>(a: Input<'a>, b: Input<'a>)
    requires
        a.wf(),
        a.reaches(b),
    ensures
        b.context.indent == a.context.indent,
        b.context.line == a.context.line + count_newlines(a.ahead((b.pos - a.pos) as nat)),
        count_newlines(a.ahead((b.pos - a.pos) as nat)) == 0 ==> b.context.position
            == a.context.position + (b.pos - a.pos),
        count_newlines(a.ahead((b.pos - a.pos) as nat)) > 0 ==> b.context.position
            == trailing_items(a.ahead((b.pos - a.pos) as nat)),
{
    let gs = a.ahead((b.pos - a.pos) as nat);
    lemma_trailing_bound(gs);
    lemma_track_counts(a.context, gs);
}

proof fn lemma_trailing_bound(gs: Seq<Seq<char>>)
    ensures
        trailing_items(gs) <= gs.len(),
        count_newlines(gs) <= gs.len(),
        count_newlines(gs) == 0 ==> trailing_items(gs) == gs.len(),
    decreases gs.len(),
{
    if gs.len() > 0 {
        lemma_trailing_bound(gs.drop_last());
    }
}

} // verus!
