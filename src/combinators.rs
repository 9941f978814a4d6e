//! Combinators: parsers built from parsers. A parser is any function from a
//! cursor to an outcome and the cursor after it; a combinator that may have to
//! undo consumption keeps a copy of the cursor and returns that copy.

use vstd::prelude::*;
use crate::primitives::{any_regular_char, eof, newline, space};
use crate::source::{graphemes_of, split_graphemes};
use crate::values::{is_newline_spec, is_regular_spec, is_space_spec};
use vstd::string::StringExecFns;
use vstd::std_specs::convert::FromSpec;
use crate::types::{
    concat, lemma_reaches_refl, lemma_reaches_trans, lemma_reaches_wf, ErrorModel, Expected,
    Input, Output, ParseError,
};

verus! {

/// `p` may be run on every well-formed cursor, and each of its outcomes
/// leaves a cursor that its input reaches by consuming items.
pub open spec fn is_parser<'a, R, P: Fn(Input<'a>) -> (Output<R>, Input<'a>)>(p: P) -> bool {
    &&& forall|i: Input<'a>| i.wf() ==> #[trigger] call_requires(p, (i,))
    &&& forall|i: Input<'a>, o: (Output<R>, Input<'a>)|
        i.wf() && #[trigger] call_ensures(p, (i,), o) ==> i.reaches(o.1)
}

/// Every success of `p` consumes at least one item.
pub open spec fn consumes<'a, R, P: Fn(Input<'a>) -> (Output<R>, Input<'a>)>(p: P) -> bool {
    forall|i: Input<'a>, o: (Output<R>, Input<'a>)|
        i.wf() && #[trigger] call_ensures(p, (i,), o) && (o.0 is Success) ==> i.pos < o.1.pos
}

/// `vals` are the values of successive successes of `p`, which lead from
/// `start` to `end`.
pub open spec fn repeats<'a, R, P: Fn(Input<'a>) -> (Output<R>, Input<'a>)>(
    p: P,
    start: Input<'a>,
    vals: Seq<R>,
    end: Input<'a>,
) -> bool
    decreases vals.len(),
{
    if vals.len() == 0 {
        start == end
    } else {
        exists|mid: Input<'a>|
            repeats(p, start, vals.drop_last(), mid) && #[trigger] call_ensures(
                p,
                (mid,),
                (Output::Success(vals.last()), end),
            )
    }
}

/// `stop` can give an outcome at `c` that is neither `Success` nor `Fatal`.
pub open spec fn declines<'a, U, Q: Fn(Input<'a>) -> (Output<U>, Input<'a>)>(
    stop: Q,
    c: Input<'a>,
) -> bool {
    exists|o: (Output<U>, Input<'a>)|
        #[trigger] call_ensures(stop, (c,), o) && !(o.0 is Success) && !(o.0 is Fatal)
}

/// Like `repeats`, where before each success of `p` the terminator `stop`
/// declined.
pub open spec fn repeats_until<'a, R, U, P, Q>(
    p: P,
    stop: Q,
    start: Input<'a>,
    vals: Seq<R>,
    end: Input<'a>,
) -> bool where
    P: Fn(Input<'a>) -> (Output<R>, Input<'a>),
    Q: Fn(Input<'a>) -> (Output<U>, Input<'a>),

    decreases vals.len(),
{
    if vals.len() == 0 {
        start == end
    } else {
        exists|mid: Input<'a>|
            repeats_until(p, stop, start, vals.drop_last(), mid) && declines(stop, mid)
                && #[trigger] call_ensures(p, (mid,), (Output::Success(vals.last()), end))
    }
}

/// `p` can fail recoverably at `input`.
pub open spec fn recoverable_at<'a, R, P: Fn(Input<'a>) -> (Output<R>, Input<'a>)>(
    p: P,
    input: Input<'a>,
) -> bool {
    exists|o: (Output<R>, Input<'a>)| #[trigger] call_ensures(p, (input,), o) && (o.0 is Recoverable)
}

/// `r` is what an alternation returns when it settles on `p`: an outcome of
/// `p` at `input` that is not `Recoverable`, with the cursor put back if it
/// is `Fatal`.
pub open spec fn settles_on<'a, R, P: Fn(Input<'a>) -> (Output<R>, Input<'a>)>(
    p: P,
    input: Input<'a>,
    r: (Output<R>, Input<'a>),
) -> bool {
    exists|o: (Output<R>, Input<'a>)|
        #[trigger] call_ensures(p, (input,), o) && !(o.0 is Recoverable) && if o.0 is Fatal {
            r.0 == o.0 && r.1 == input
        } else {
            r == o
        }
}

/// `any_of` settled at index `j`: the alternatives before it failed
/// recoverably, and `r` settles on alternative `j`; or `j` is past the last,
/// and `r` is `Recoverable(NoneMatched)` with the cursor left in place.
pub open spec fn any_of_at<'a, R, P: Fn(Input<'a>) -> (Output<R>, Input<'a>)>(
    of: Seq<P>,
    input: Input<'a>,
    r: (Output<R>, Input<'a>),
    j: int,
) -> bool {
    &&& 0 <= j <= of.len()
    &&& forall|m: int| 0 <= m < j ==> #[trigger] recoverable_at(of[m], input)
    &&& if j == of.len() {
        &&& r.1 == input
        &&& r.0 matches Output::Recoverable(e) && e@ == ErrorModel::NoneMatched
    } else {
        settles_on(of[j], input, r)
    }
}

/// What `any_of` returns.
pub open spec fn any_of_post<'a, R, P: Fn(Input<'a>) -> (Output<R>, Input<'a>)>(
    of: Seq<P>,
    input: Input<'a>,
    r: (Output<R>, Input<'a>),
) -> bool {
    exists|j: int| #[trigger] any_of_at(of, input, r, j)
}

proof fn lemma_repeats_reaches<'a, R, P: Fn(Input<'a>) -> (Output<R>, Input<'a>)>(
    p: P,
    start: Input<'a>,
    vals: Seq<R>,
    end: Input<'a>,
)
    requires
        start.wf(),
        is_parser(p),
        repeats(p, start, vals, end),
    ensures
        start.reaches(end),
        end.wf(),
    decreases vals.len(),
{
    if vals.len() == 0 {
        lemma_reaches_refl(start);
    } else {
        let mid = choose|mid: Input<'a>|
            repeats(p, start, vals.drop_last(), mid) && #[trigger] call_ensures(
                p,
                (mid,),
                (Output::Success(vals.last()), end),
            );
        lemma_repeats_reaches(p, start, vals.drop_last(), mid);
        lemma_reaches_trans(start, mid, end);
        lemma_reaches_wf(start, end);
    }
}

/// Runs `parser` unchanged.
pub fn wrap<'a, R, P: Fn(Input<'a>) -> (Output<R>, Input<'a>)>(parser: P, input: Input<'a>) -> (r: (
    Output<R>,
    Input<'a>,
))
    requires
        input.wf(),
        is_parser(parser),
    ensures
        call_ensures(parser, (input,), r),
        input.reaches(r.1),
{
    parser(input)
}

/// Runs `parser` and hands back its whole outcome as a success.
pub fn wrap_ok<'a, R, P: Fn(Input<'a>) -> (Output<R>, Input<'a>)>(parser: P, input: Input<'a>) -> (r:
    (Output<Output<R>>, Input<'a>))
    requires
        input.wf(),
        is_parser(parser),
    ensures
        r.0 is Success,
        call_ensures(parser, (input,), (r.0->Success_0, r.1)),
        input.reaches(r.1),
{
    let (o, c) = parser(input);
    (Output::Success(o), c)
}

/// Runs `parser` on a copy of the cursor: its outcome, with the cursor left
/// where it was.
pub fn peek<'a, R, P: Fn(Input<'a>) -> (Output<R>, Input<'a>)>(parser: P, input: Input<'a>) -> (r: (
    Output<R>,
    Input<'a>,
))
    requires
        input.wf(),
        is_parser(parser),
    ensures
        r.1 == input,
        exists|c: Input<'a>| #[trigger] call_ensures(parser, (input,), (r.0, c)),
{
    let (o, c) = parser(input);
    let r = (o, input);
    assert(call_ensures(parser, (input,), (r.0, c)));
    r
}

/// Transforms the value of a `Success` or `Partial` with `mapper`;
/// diagnostics and the cursor pass through.
pub fn map<'a, R, M, P, F>(parser: P, mapper: F, input: Input<'a>) -> (r: (Output<M>, Input<'a>)) where
    P: Fn(Input<'a>) -> (Output<R>, Input<'a>),
    F: Fn(R) -> M,

    requires
        input.wf(),
        is_parser(parser),
        forall|v: R| #[trigger] call_requires(mapper, (v,)),
    ensures
        input.reaches(r.1),
        exists|o: (Output<R>, Input<'a>)|
            #[trigger] call_ensures(parser, (input,), o) && o.1 == r.1 && match o.0 {
                Output::Success(v) => r.0 matches Output::Success(w) && call_ensures(mapper, (v,), w),
                Output::Partial { result, error } => r.0 matches Output::Partial {
                    result: w,
                    error: e,
                } && e == error && call_ensures(mapper, (result,), w),
                Output::Recoverable(e) => r.0 == Output::<M>::Recoverable(e),
                Output::Fatal(e) => r.0 == Output::<M>::Fatal(e),
            },
{
    let (o, c) = parser(input);
    let ghost go = o;
    let out = match o {
        Output::Success(v) => Output::Success(mapper(v)),
        Output::Partial { result, error } => Output::Partial { result: mapper(result), error },
        Output::Recoverable(e) => Output::Recoverable(e),
        Output::Fatal(e) => Output::Fatal(e),
    };
    assert(call_ensures(parser, (input,), (go, c)));
    (out, c)
}

/// Drops the value of `parser`, keeping its control flow and diagnostics.
pub fn discard<'a, R, P: Fn(Input<'a>) -> (Output<R>, Input<'a>)>(parser: P, input: Input<'a>) -> (r:
    (Output<()>, Input<'a>))
    requires
        input.wf(),
        is_parser(parser),
    ensures
        input.reaches(r.1),
        exists|o: (Output<R>, Input<'a>)|
            #[trigger] call_ensures(parser, (input,), o) && o.1 == r.1 && match o.0 {
                Output::Success(_) => r.0 == Output::<()>::Success(()),
                Output::Partial { result: _, error } => r.0 == (Output::<()>::Partial {
                    result: (),
                    error,
                }),
                Output::Recoverable(e) => r.0 == Output::<()>::Recoverable(e),
                Output::Fatal(e) => r.0 == Output::<()>::Fatal(e),
            },
{
    let (o, c) = parser(input);
    let ghost go = o;
    assert(call_ensures(parser, (input,), (go, c)));
    (o.discard_value(), c)
}

/// Tries the parsers in order, each on the cursor it was given; the first that
/// does not fail recoverably decides. A `Fatal` outcome ends the alternation
/// with the cursor put back; if all fail, `Recoverable(NoneMatched)`.
pub fn any_of<'a, R, P: Fn(Input<'a>) -> (Output<R>, Input<'a>)>(of: &[P], input: Input<'a>) -> (r: (
    Output<R>,
    Input<'a>,
))
    requires
        input.wf(),
        forall|j: int| 0 <= j < of@.len() ==> is_parser(#[trigger] of@[j]),
    ensures
        input.reaches(r.1),
        any_of_post(of@, input, r),
{
    let mut j: usize = 0;
    proof {
        lemma_reaches_refl(input);
    }
    while j < of.len()
        invariant
            input.wf(),
            input.reaches(input),
            j <= of@.len(),
            forall|m: int| 0 <= m < of@.len() ==> is_parser(#[trigger] of@[m]),
            forall|m: int| 0 <= m < j ==> #[trigger] recoverable_at(of@[m], input),
        decreases of@.len() - j,
    {
        assert(is_parser(of@[j as int]));
        let (o, c) = (of[j])(input);
        assert(call_ensures(of@[j as int], (input,), (o, c)));
        match o {
            Output::Recoverable(_) => {
                assert(recoverable_at(of@[j as int], input));
            },
            Output::Fatal(e) => {
                let r = (Output::Fatal(e), input);
                assert(any_of_at(of@, input, r, j as int));
                return r;
            },
            _ => {
                assert(any_of_at(of@, input, (o, c), j as int));
                return (o, c);
            },
        }
        j = j + 1;
    }
    let r = (Output::Recoverable(ParseError::NoneMatched), input);
    assert(any_of_at(of@, input, r, of@.len() as int));
    r
}

/// Of two alternatives, `any_of([a, b])` settles on `b` run from the very
/// cursor that `a` was given, where `a` can only fail recoverably: no item
/// that `a` consumed stays consumed. Where `a` never fails recoverably, it
/// settles on `a`.
pub proof fn lemma_any_of_backtracks<'a, R, P: Fn(Input<'a>) -> (Output<R>, Input<'a>)>(
    of: Seq<P>,
    input: Input<'a>,
    r: (Output<R>, Input<'a>),
)
    requires
        of.len() == 2,
        any_of_post(of, input, r),
    ensures
        (forall|o: (Output<R>, Input<'a>)| #[trigger] call_ensures(of[0], (input,), o) ==> (
        o.0 is Recoverable)) ==> ((r.0 is Success || r.0 is Partial) ==> call_ensures(
            of[1],
            (input,),
            r,
        )) && (!(r.0 is Success || r.0 is Partial) ==> r.1 == input),
        (forall|o: (Output<R>, Input<'a>)| #[trigger] call_ensures(of[0], (input,), o) ==> !(
        o.0 is Recoverable)) ==> settles_on(of[0], input, r),
{
    let j = choose|j: int| #[trigger] any_of_at(of, input, r, j);
    if forall|o: (Output<R>, Input<'a>)| #[trigger] call_ensures(of[0], (input,), o) ==> (
    o.0 is Recoverable) {
        if j == 0 {
            assert(settles_on(of[0], input, r));
        }
    }
    if forall|o: (Output<R>, Input<'a>)| #[trigger] call_ensures(of[0], (input,), o) ==> !(
    o.0 is Recoverable) {
        if j > 0 {
            assert(recoverable_at(of[0], input));
        }
    }
}

proof fn lemma_repeats_push<'a, R, P: Fn(Input<'a>) -> (Output<R>, Input<'a>)>(
    p: P,
    start: Input<'a>,
    vals: Seq<R>,
    mid: Input<'a>,
    v: R,
    end: Input<'a>,
)
    requires
        repeats(p, start, vals, mid),
        call_ensures(p, (mid,), (Output::Success(v), end)),
    ensures
        repeats(p, start, vals.push(v), end),
{
    assert(vals.push(v).drop_last() =~= vals);
    assert(vals.push(v).last() == v);
}

proof fn lemma_repeats_first<'a, R, P: Fn(Input<'a>) -> (Output<R>, Input<'a>)>(
    p: P,
    start: Input<'a>,
    vals: Seq<R>,
    end: Input<'a>,
)
    requires
        repeats(p, start, vals, end),
        vals.len() > 0,
    ensures
        exists|o: (Output<R>, Input<'a>)| #[trigger] call_ensures(p, (start,), o) && (o.0 is Success),
    decreases vals.len(),
{
    let mid = choose|mid: Input<'a>|
        repeats(p, start, vals.drop_last(), mid) && #[trigger] call_ensures(
            p,
            (mid,),
            (Output::Success(vals.last()), end),
        );
    if vals.len() == 1 {
        assert(call_ensures(p, (start,), (Output::Success(vals.last()), end)));
    } else {
        lemma_repeats_first(p, start, vals.drop_last(), mid);
    }
}

/// Runs `parser` as long as it succeeds and collects the values; the attempt
/// that does not succeed is undone. Never fails: with no match at all, the
/// result is an empty success and nothing is consumed. Every success of
/// `parser` must consume an item, so that the repetition ends.
pub fn zero_or_more<'a, R, P: Fn(Input<'a>) -> (Output<R>, Input<'a>)>(
    parser: P,
    input: Input<'a>,
) -> (r: (Output<Vec<R>>, Input<'a>))
    requires
        input.wf(),
        is_parser(parser),
        consumes(parser),
    ensures
        input.reaches(r.1),
        r.0 is Success,
        repeats(parser, input, r.0->Success_0@, r.1),
        exists|o: (Output<R>, Input<'a>)|
            #[trigger] call_ensures(parser, (r.1,), o) && !(o.0 is Success),
        (forall|o: (Output<R>, Input<'a>)|
            #[trigger] call_ensures(parser, (input,), o) ==> !(o.0 is Success)) ==> (
        r.0->Success_0@.len() == 0 && r.1 == input),
{
    let mut vals: Vec<R> = Vec::new();
    let mut c = input;
    proof {
        lemma_reaches_refl(input);
    }
    loop
        invariant
            input.wf(),
            c.wf(),
            input.reaches(c),
            is_parser(parser),
            consumes(parser),
            repeats(parser, input, vals@, c),
        ensures
            c.wf(),
            input.reaches(c),
            repeats(parser, input, vals@, c),
            exists|o: (Output<R>, Input<'a>)|
                #[trigger] call_ensures(parser, (c,), o) && !(o.0 is Success),
        decreases c.len() - c.pos,
    {
        let (o, c2) = parser(c);
        let ghost go = o;
        assert(call_ensures(parser, (c,), (go, c2)));
        match o {
            Output::Success(v) => {
                proof {
                    lemma_repeats_push(parser, input, vals@, c, v, c2);
                    lemma_reaches_trans(input, c, c2);
                    lemma_reaches_wf(c, c2);
                }
                vals.push(v);
                c = c2;
            },
            _ => {
                break;
            },
        }
    }
    proof {
        if vals@.len() > 0 {
            lemma_repeats_first(parser, input, vals@, c);
        }
    }
    (Output::Success(vals), c)
}

/// Like `zero_or_more`, but without a first success the outcome is
/// `Recoverable(NoneMatched)` and nothing is consumed.
pub fn one_or_more<'a, R, P: Fn(Input<'a>) -> (Output<R>, Input<'a>)>(
    parser: P,
    input: Input<'a>,
) -> (r: (Output<Vec<R>>, Input<'a>))
    requires
        input.wf(),
        is_parser(parser),
        consumes(parser),
    ensures
        input.reaches(r.1),
        r.0 is Success || r.0 is Recoverable,
        (r.0 is Success) ==> r.0->Success_0@.len() > 0 && repeats(
            parser,
            input,
            r.0->Success_0@,
            r.1,
        ) && exists|o: (Output<R>, Input<'a>)|
            #[trigger] call_ensures(parser, (r.1,), o) && !(o.0 is Success),
        (r.0 is Recoverable) ==> r.1 == input && (r.0 matches Output::Recoverable(e)
            && e@ == ErrorModel::NoneMatched) && exists|o: (Output<R>, Input<'a>)|
            #[trigger] call_ensures(parser, (input,), o) && !(o.0 is Success),
{
    let mut vals: Vec<R> = Vec::new();
    let (o, c1) = parser(input);
    let ghost go = o;
    assert(call_ensures(parser, (input,), (go, c1)));
    match o {
        Output::Success(v) => {
            proof {
                lemma_reaches_refl(input);
                assert(repeats(parser, input, vals@, input));
                lemma_repeats_push(parser, input, vals@, input, v, c1);
                lemma_reaches_wf(input, c1);
            }
            vals.push(v);
        },
        _ => {
            proof {
                lemma_reaches_refl(input);
            }
            return (Output::Recoverable(ParseError::NoneMatched), input);
        },
    }
    let mut c = c1;
    loop
        invariant
            input.wf(),
            c.wf(),
            input.reaches(c),
            is_parser(parser),
            consumes(parser),
            vals@.len() > 0,
            repeats(parser, input, vals@, c),
        ensures
            c.wf(),
            input.reaches(c),
            vals@.len() > 0,
            repeats(parser, input, vals@, c),
            exists|o: (Output<R>, Input<'a>)|
                #[trigger] call_ensures(parser, (c,), o) && !(o.0 is Success),
        decreases c.len() - c.pos,
    {
        let (o, c2) = parser(c);
        let ghost go = o;
        assert(call_ensures(parser, (c,), (go, c2)));
        match o {
            Output::Success(v) => {
                proof {
                    lemma_repeats_push(parser, input, vals@, c, v, c2);
                    lemma_reaches_trans(input, c, c2);
                    lemma_reaches_wf(c, c2);
                }
                vals.push(v);
                c = c2;
            },
            _ => {
                break;
            },
        }
    }
    (Output::Success(vals), c)
}

/// Runs `parser` exactly `times` times. If repetition `k < times` does not
/// succeed, the whole call is undone: the cursor goes back to where it was,
/// a `Fatal` outcome is passed on, and otherwise the outcome is `Partial`
/// with the values collected so far (and the failed one's partial value) and
/// the diagnostic.
pub fn multiple<'a, R, P: Fn(Input<'a>) -> (Output<R>, Input<'a>)>(
    times: usize,
    parser: P,
    input: Input<'a>,
) -> (r: (Output<Vec<R>>, Input<'a>))
    requires
        input.wf(),
        is_parser(parser),
    ensures
        input.reaches(r.1),
        !(r.0 is Recoverable),
        (r.0 is Success) ==> r.0->Success_0@.len() == times && repeats(
            parser,
            input,
            r.0->Success_0@,
            r.1,
        ),
        !(r.0 is Success) ==> r.1 == input,
        (r.0 is Partial) ==> r.0->Partial_result@.len() <= times,
        !(r.0 is Success) ==> exists|mid: Input<'a>, o: (Output<R>, Input<'a>), done: Seq<R>|
            #![trigger call_ensures(parser, (mid,), o), repeats(parser, input, done, mid)]
            call_ensures(parser, (mid,), o) && repeats(parser, input, done, mid) && done.len()
                < times && !(o.0 is Success) && ((r.0 is Fatal) ==> o.0 == Output::<R>::Fatal(
                r.0->Fatal_0,
            )),
        (r.0 is Partial) ==> exists|mid: Input<'a>, o: (Output<R>, Input<'a>)|
            #![trigger call_ensures(parser, (mid,), o)]
            call_ensures(parser, (mid,), o) && match o.0 {
                Output::Partial { result, error } => repeats(
                    parser,
                    input,
                    r.0->Partial_result@.drop_last(),
                    mid,
                ) && r.0->Partial_result@.last() == result && error == r.0->Partial_error,
                Output::Recoverable(e) => repeats(parser, input, r.0->Partial_result@, mid) && e
                    == r.0->Partial_error && r.0->Partial_result@.len() < times,
                _ => false,
            },
{
    let mut vals: Vec<R> = Vec::new();
    let mut c = input;
    let mut i: usize = 0;
    proof {
        lemma_reaches_refl(input);
    }
    while i < times
        invariant
            input.wf(),
            c.wf(),
            input.reaches(c),
            input.reaches(input),
            is_parser(parser),
            i <= times,
            vals@.len() == i,
            repeats(parser, input, vals@, c),
        decreases times - i,
    {
        let (o, c2) = parser(c);
        let ghost go = o;
        assert(call_ensures(parser, (c,), (go, c2)));
        match o {
            Output::Success(v) => {
                proof {
                    lemma_repeats_push(parser, input, vals@, c, v, c2);
                    lemma_reaches_trans(input, c, c2);
                    lemma_reaches_wf(c, c2);
                }
                vals.push(v);
                c = c2;
            },
            Output::Partial { result, error } => {
                let ghost before = vals@;
                vals.push(result);
                assert(vals@.drop_last() =~= before);
                assert(call_ensures(parser, (c,), (go, c2)) && repeats(parser, input, before, c));
                return (Output::Partial { result: vals, error }, input);
            },
            Output::Recoverable(error) => {
                assert(call_ensures(parser, (c,), (go, c2)) && repeats(parser, input, vals@, c));
                return (Output::Partial { result: vals, error }, input);
            },
            Output::Fatal(error) => {
                let r = (Output::Fatal(error), input);
                assert(call_ensures(parser, (c,), (go, c2)) && repeats(parser, input, vals@, c));
                return r;
            },
        }
        i = i + 1;
    }
    (Output::Success(vals), c)
}

/// Alternation of two parsers whose values convert to one type: `l` decides
/// unless it fails recoverably, and then `r` runs on the cursor `l` was given. A
/// `Fatal` outcome ends the alternation with the cursor put back.
pub fn either<'a, L, R, PL, PR>(l: PL, r: PR, input: Input<'a>) -> (res: (Output<R>, Input<'a>)) where
    R: From<L>,
    PL: Fn(Input<'a>) -> (Output<L>, Input<'a>),
    PR: Fn(Input<'a>) -> (Output<R>, Input<'a>),

    requires
        input.wf(),
        is_parser(l),
        is_parser(r),
    ensures
        input.reaches(res.1),
        exists|ol: (Output<L>, Input<'a>)|
            #[trigger] call_ensures(l, (input,), ol) && if ol.0 is Recoverable {
                settles_on(r, input, res) || (res.1 == input && exists|or: (Output<R>, Input<'a>)|
                    #[trigger] call_ensures(r, (input,), or) && (or.0 is Recoverable) && res.0
                        == or.0)
            } else if ol.0 is Fatal {
                res.1 == input && res.0 == Output::<R>::Fatal(ol.0->Fatal_0)
            } else {
                res.1 == ol.1 && (ol.0 is Success <==> res.0 is Success) && (ol.0 is Partial
                    ==> res.0 is Partial && res.0->Partial_error == ol.0->Partial_error) && (
                R::obeys_from_spec() && ol.0 is Success ==> res.0->Success_0 == R::from_spec(
                    ol.0->Success_0,
                )) && (R::obeys_from_spec() && ol.0 is Partial ==> res.0->Partial_result
                    == R::from_spec(ol.0->Partial_result))
            },
{
    proof {
        lemma_reaches_refl(input);
    }
    let (ol, cl) = l(input);
    let ghost gl = ol;
    assert(call_ensures(l, (input,), (gl, cl)));
    match ol {
        Output::Recoverable(_) => {},
        Output::Fatal(e) => {
            return (Output::Fatal(e), input);
        },
        other => {
            return (other.map_value(), cl);
        },
    }
    let (or, cr) = r(input);
    let ghost gr = or;
    assert(call_ensures(r, (input,), (gr, cr)));
    match or {
        Output::Recoverable(e) => (Output::Recoverable(e), input),
        Output::Fatal(e) => {
            let res = (Output::Fatal(e), input);
            assert(settles_on(r, input, res));
            res
        },
        other => {
            let res = (other, cr);
            assert(settles_on(r, input, res));
            res
        },
    }
}

/// How `all_until` stopped, at cursor `c` after collecting `prefix` (the
/// values before the last attempt of `parser`):
/// the terminator succeeded at `c` with outcome `o`, and `r` is that success
/// with the values; or it declined and `parser` gave `o` at `c`, a partial
/// value (kept, with the cursor after it) or a recoverable failure (with the
/// cursor at `c`), and `r` is `Partial` with the diagnostic.
pub open spec fn all_until_stop<'a, R, U, P, Q>(
    parser: P,
    until: Q,
    input: Input<'a>,
    r: (Output<Vec<R>>, Input<'a>),
    c: Input<'a>,
    prefix: Seq<R>,
) -> bool where
    P: Fn(Input<'a>) -> (Output<R>, Input<'a>),
    Q: Fn(Input<'a>) -> (Output<U>, Input<'a>),
 {
    &&& repeats_until(parser, until, input, prefix, c)
    &&& match r.0 {
        Output::Success(vals) => vals@ == prefix && exists|o: (Output<U>, Input<'a>)|
            #[trigger] call_ensures(until, (c,), o) && (o.0 is Success) && r.1 == o.1,
        Output::Partial { result, error } => declines(until, c) && exists|
            o: (Output<R>, Input<'a>),
        |
            #[trigger] call_ensures(parser, (c,), o) && match o.0 {
                Output::Partial { result: v, error: e } => result@ == prefix.push(v) && e == error
                    && r.1 == o.1,
                Output::Recoverable(e) => result@ == prefix && e == error && r.1 == c,
                _ => false,
            },
        _ => false,
    }
}

/// `r` is a `Fatal` outcome of `all_until` that stopped at cursor `c` after
/// collecting `prefix`: there the terminator gave that `Fatal` outcome, or it
/// declined and `parser` gave it.
pub open spec fn all_until_fatal<'a, R, U, P, Q>(
    parser: P,
    until: Q,
    input: Input<'a>,
    r: (Output<Vec<R>>, Input<'a>),
    c: Input<'a>,
    prefix: Seq<R>,
) -> bool where
    P: Fn(Input<'a>) -> (Output<R>, Input<'a>),
    Q: Fn(Input<'a>) -> (Output<U>, Input<'a>),
 {
    &&& repeats_until(parser, until, input, prefix, c)
    &&& r.0 is Fatal
    &&& (exists|o: (Output<U>, Input<'a>)|
        #[trigger] call_ensures(until, (c,), o) && o.0 == Output::<U>::Fatal(r.0->Fatal_0))
        || (declines(until, c) && exists|o: (Output<R>, Input<'a>)|
        #[trigger] call_ensures(parser, (c,), o) && o.0 == Output::<R>::Fatal(r.0->Fatal_0))
}

/// Collects successes of `parser` until `until` succeeds, consulting `until`
/// before each element; the terminator's success ends the run with its
/// cursor. A non-success of `parser` ends it with `Partial`, and a `Fatal`
/// outcome of either parser is passed on with the cursor put back.
pub fn all_until<'a, R, U, P, Q>(parser: P, until: Q, input: Input<'a>) -> (r: (
    Output<Vec<R>>,
    Input<'a>,
)) where
    P: Fn(Input<'a>) -> (Output<R>, Input<'a>),
    Q: Fn(Input<'a>) -> (Output<U>, Input<'a>),

    requires
        input.wf(),
        is_parser(parser),
        is_parser(until),
        consumes(parser),
    ensures
        input.reaches(r.1),
        !(r.0 is Recoverable),
        (r.0 is Fatal) ==> r.1 == input,
        (r.0 is Fatal) ==> exists|c: Input<'a>, prefix: Seq<R>|
            #[trigger] all_until_fatal(parser, until, input, r, c, prefix),
        !(r.0 is Fatal) ==> exists|c: Input<'a>, prefix: Seq<R>|
            #[trigger] all_until_stop(parser, until, input, r, c, prefix),
{
    let mut vals: Vec<R> = Vec::new();
    let mut c = input;
    proof {
        lemma_reaches_refl(input);
    }
    loop
        invariant
            input.wf(),
            c.wf(),
            input.reaches(c),
            input.reaches(input),
            is_parser(parser),
            is_parser(until),
            consumes(parser),
            repeats_until(parser, until, input, vals@, c),
        decreases c.len() - c.pos,
    {
        let (ou, cu) = until(c);
        let ghost gu = ou;
        assert(call_ensures(until, (c,), (gu, cu)));
        match ou {
            Output::Success(_) => {
                let r = (Output::Success(vals), cu);
                proof {
                    lemma_reaches_trans(input, c, cu);
                    assert(all_until_stop(parser, until, input, r, c, vals@));
                }
                return r;
            },
            Output::Fatal(e) => {
                let r = (Output::Fatal(e), input);
                assert(all_until_fatal(parser, until, input, r, c, vals@));
                return r;
            },
            _ => {},
        }
        assert(declines(until, c));
        let (o, c2) = parser(c);
        let ghost go = o;
        let ghost prefix = vals@;
        assert(call_ensures(parser, (c,), (go, c2)));
        match o {
            Output::Success(v) => {
                proof {
                    assert(prefix.push(v).drop_last() =~= prefix);
                    assert(repeats_until(parser, until, input, prefix.push(v), c2));
                    lemma_reaches_trans(input, c, c2);
                    lemma_reaches_wf(c, c2);
                }
                vals.push(v);
                c = c2;
            },
            Output::Partial { result, error } => {
                vals.push(result);
                let r = (Output::Partial { result: vals, error }, c2);
                proof {
                    lemma_reaches_trans(input, c, c2);
                    assert(all_until_stop(parser, until, input, r, c, prefix));
                }
                return r;
            },
            Output::Recoverable(error) => {
                let r = (Output::Partial { result: vals, error }, c);
                assert(all_until_stop(parser, until, input, r, c, prefix));
                return r;
            },
            Output::Fatal(error) => {
                let r = (Output::Fatal(error), input);
                assert(all_until_fatal(parser, until, input, r, c, prefix));
                return r;
            },
        }
    }
}

/// A space, an identifier item or a newline, as `any_of` over the three
/// single-item parsers: `Fatal` at the end of the input, the item where it is
/// one of them, and `Recoverable(NoneMatched)` otherwise.
pub fn text_char(input: Input<'_>) -> (r: (Output<String>, Input<'_>))
    requires
        input.wf(),
    ensures
        input.at_end() ==> r.1 == input && (r.0 matches Output::Fatal(e) && e@ == (
        ErrorModel::UnexpectedEOF { context: input.context, expected: Expected::MoreItems(1) })),
        !input.at_end() && (is_space_spec(input.item(0)) || is_regular_spec(input.item(0))
            || is_newline_spec(input.item(0))) ==> r.1 == input.skip(1) && (r.0 matches Output::Success(
            g,
        ) && g@ == input.item(0)),
        !input.at_end() && !(is_space_spec(input.item(0)) || is_regular_spec(input.item(0))
            || is_newline_spec(input.item(0))) ==> r.1 == input && (r.0 matches Output::Recoverable(
            e,
        ) && e@ == ErrorModel::NoneMatched),
{
    let (o, c) = space(input);
    match o {
        Output::Recoverable(_) => {},
        _ => {
            return (o, c);
        },
    }
    let (o, c) = any_regular_char(input);
    match o {
        Output::Recoverable(_) => {},
        _ => {
            return (o, c);
        },
    }
    let (o, c) = newline(input);
    match o {
        Output::Recoverable(_) => {},
        _ => {
            return (o, c);
        },
    }
    (Output::Recoverable(ParseError::NoneMatched), input)
}

/// The rest of the input as running text: `all_until(text_char, eof)`.
pub fn all_chars(input: Input<'_>) -> (r: (Output<Vec<String>>, Input<'_>))
    requires
        input.wf(),
    ensures
        input.reaches(r.1),
        !(r.0 is Recoverable),
        (r.0 is Fatal) ==> r.1 == input,
        (r.0 is Fatal) ==> exists|c: Input<'_>, prefix: Seq<String>|
            #[trigger] all_until_fatal(text_char, eof, input, r, c, prefix),
        !(r.0 is Fatal) ==> exists|c: Input<'_>, prefix: Seq<String>|
            #[trigger] all_until_stop(text_char, eof, input, r, c, prefix),
{
    proof {
        assert forall|i: Input<'_>, o: (Output<String>, Input<'_>)|
            i.wf() && #[trigger] call_ensures(text_char, (i,), o) implies i.reaches(o.1) by {
            lemma_reaches_refl(i);
            if !i.at_end() {
                assert(i.ahead(1).drop_last() =~= Seq::<Seq<char>>::empty());
            }
        }
        assert forall|i: Input<'_>, o: (Output<()>, Input<'_>)|
            i.wf() && #[trigger] call_ensures(eof, (i,), o) implies i.reaches(o.1) by {
            lemma_reaches_refl(i);
        }
    }
    all_until(text_char, eof, input)
}

/// The failure that a sequence reports for a step that did not succeed: a
/// `Fatal` outcome stays fatal, any other carries its diagnostic as
/// `Recoverable`.
pub open spec fn failure_of<R, T>(o: Output<R>) -> Output<T> {
    match o {
        Output::Fatal(e) => Output::Fatal(e),
        Output::Partial { result: _, error } => Output::Recoverable(error),
        Output::Recoverable(e) => Output::Recoverable(e),
        Output::Success(_) => Output::Recoverable(ParseError::NoneMatched),
    }
}

/// Runs `l` and then, from where it stopped, `r`; succeeds with both values.
/// If either does not succeed, the cursor goes back to where it was and the
/// outcome is that step's failure.
pub fn pair<'a, A, B, PL, PR>(l: PL, r: PR, input: Input<'a>) -> (res: (Output<(A, B)>, Input<'a>)) where
    PL: Fn(Input<'a>) -> (Output<A>, Input<'a>),
    PR: Fn(Input<'a>) -> (Output<B>, Input<'a>),

    requires
        input.wf(),
        is_parser(l),
        is_parser(r),
    ensures
        input.reaches(res.1),
        exists|ol: (Output<A>, Input<'a>)|
            #[trigger] call_ensures(l, (input,), ol) && match ol.0 {
                Output::Success(a) => exists|or: (Output<B>, Input<'a>)|
                    #[trigger] call_ensures(r, (ol.1,), or) && match or.0 {
                        Output::Success(b) => res.0 == Output::Success((a, b)) && res.1 == or.1,
                        _ => res.0 == failure_of::<B, (A, B)>(or.0) && res.1 == input,
                    },
                _ => res.0 == failure_of::<A, (A, B)>(ol.0) && res.1 == input,
            },
{
    proof {
        lemma_reaches_refl(input);
    }
    let (ol, cl) = l(input);
    let ghost gl = ol;
    assert(call_ensures(l, (input,), (gl, cl)));
    let a = match ol {
        Output::Success(a) => a,
        Output::Fatal(e) => {
            return (Output::Fatal(e), input);
        },
        Output::Partial { result: _, error } => {
            return (Output::Recoverable(error), input);
        },
        Output::Recoverable(e) => {
            return (Output::Recoverable(e), input);
        },
    };
    proof {
        lemma_reaches_wf(input, cl);
    }
    let (or, cr) = r(cl);
    let ghost gr = or;
    assert(call_ensures(r, (cl,), (gr, cr)));
    match or {
        Output::Success(b) => {
            proof {
                lemma_reaches_trans(input, cl, cr);
            }
            (Output::Success((a, b)), cr)
        },
        Output::Fatal(e) => (Output::Fatal(e), input),
        Output::Partial { result: _, error } => (Output::Recoverable(error), input),
        Output::Recoverable(e) => (Output::Recoverable(e), input),
    }
}

/// Matches the text `expected`, as many items as it has grapheme clusters.
/// Too few items left is `Fatal`; other items there are `Recoverable`,
/// naming what was found. The cursor moves only on a match.
pub fn literal<'a>(expected: &str, input: Input<'a>) -> (r: (Output<String>, Input<'a>))
    requires
        input.wf(),
    ensures
        input.reaches(r.1),
        input.pos + graphemes_of(expected@).len() > input.len() ==> r.1 == input && (
        r.0 matches Output::Fatal(e) && e@ == (ErrorModel::UnexpectedEOF {
            context: input.skip((input.len() - input.pos) as nat).context,
            expected: Expected::MoreItems(
                (input.pos + graphemes_of(expected@).len() - input.len()) as usize,
            ),
        })),
        input.pos + graphemes_of(expected@).len() <= input.len() && concat(
            input.ahead(graphemes_of(expected@).len()),
        ) == expected@ ==> r.1 == input.skip(graphemes_of(expected@).len()) && (
        r.0 matches Output::Success(s) && s@ == expected@),
        input.pos + graphemes_of(expected@).len() <= input.len() && concat(
            input.ahead(graphemes_of(expected@).len()),
        ) != expected@ ==> r.1 == input && (r.0 matches Output::Recoverable(e) && e@ == (
        ErrorModel::UnexpectedCharacter {
            context: input.context,
            expected: Expected::Literal,
            found: concat(input.ahead(graphemes_of(expected@).len())),
        })),
{
    proof {
        lemma_reaches_refl(input);
    }
    let parts = split_graphemes(expected);
    let n = parts.len();
    assert(graphemes_of(expected@).len() == n);
    let mut c = input;
    match c.advance(n) {
        Output::Success(s) => {
            let want = String::from_str(expected);
            if s == want {
                (Output::Success(s), c)
            } else {
                (
                    Output::Recoverable(
                        ParseError::UnexpectedCharacter {
                            context: input.context,
                            expected: Expected::Literal,
                            found: s,
                        },
                    ),
                    input,
                )
            }
        },
        Output::Fatal(e) => (Output::Fatal(e), input),
        _ => (Output::Recoverable(ParseError::NoneMatched), input),
    }
}

} // verus!
