//! A textual preprocessor that makes indentation explicit: each deeper line
//! opens a block with `{`, each shallower line closes blocks with `}`.

use vstd::prelude::*;
use vstd::std_specs::iter::IteratorSpec;

verus! {

/// The marker written where a block opens.
pub open spec fn block_start() -> char {
    '{'
}

/// The marker written where a block closes.
pub open spec fn block_end() -> char {
    '}'
}

/// `n` copies of `c`.
pub open spec fn repeat_char(c: char, n: nat) -> Seq<char> {
    Seq::new(n, |k: int| c)
}

/// Index of the first line feed at or after `i`, or the length of `s`.
pub open spec fn line_end(s: Seq<char>, i: int) -> int
    decreases s.len() - i,
{
    if i >= s.len() {
        s.len() as int
    } else if s[i] == '\n' {
        i
    } else {
        line_end(s, i + 1)
    }
}

/// The line that starts at `i`, without its line ending (`\n` or `\r\n`).
pub open spec fn line_text(s: Seq<char>, i: int) -> Seq<char> {
    let j = line_end(s, i);
    if i < j && j < s.len() && s[j - 1] == '\r' {
        s.subrange(i, j - 1)
    } else {
        s.subrange(i, j)
    }
}

/// Number of tabs at the start of `line`.
pub open spec fn leading_tabs(line: Seq<char>) -> nat
    decreases line.len(),
{
    if line.len() > 0 && line[0] == '\t' {
        1 + leading_tabs(line.drop_first())
    } else {
        0
    }
}

/// Markers written before a non-empty line of indentation `indent`, given the
/// previous indentation and the count of outstanding indents; with the new
/// previous indentation and the new outstanding count.
pub open spec fn markers(prev: nat, outstanding: nat, indent: nat) -> (Seq<char>, nat, nat) {
    if indent == prev {
        (Seq::empty(), prev, outstanding)
    } else if indent == prev + 1 {
        (seq![block_start()], indent, outstanding)
    } else if prev > indent {
        if outstanding > 0 {
            let drop = (prev - indent) as nat;
            let left = if outstanding >= drop {
                (outstanding - drop) as nat
            } else {
                0nat
            };
            (seq![block_end(), block_start()], indent, left)
        } else {
            (repeat_char(block_end(), (prev - indent) as nat), indent, outstanding)
        }
    } else {
        (seq![block_start()], indent, (indent - (prev + 1)) as nat)
    }
}

/// Markers written after the last line.
pub open spec fn closing(prev: nat, outstanding: nat) -> Seq<char> {
    if outstanding < prev {
        repeat_char(block_end(), (prev - outstanding) as nat)
    } else {
        Seq::empty()
    }
}

/// Output for the lines of `s` from index `i` on, in state `(prev, outstanding)`.
pub open spec fn render(s: Seq<char>, i: int, prev: nat, outstanding: nat) -> Seq<char>
    decreases s.len() + 1 - i,
    via render_decreases
{
    if i < 0 || i >= s.len() {
        closing(prev, outstanding)
    } else {
        let line = line_text(s, i);
        let next = line_end(s, i) + 1;
        let mk = if line.len() == 0 {
            (Seq::empty(), prev, outstanding)
        } else {
            markers(prev, outstanding, leading_tabs(line))
        };
        mk.0 + line.push('\n') + render(s, next, mk.1, mk.2)
    }
}

#[via_fn]
proof fn render_decreases(s: Seq<char>, i: int, prev: nat, outstanding: nat) {
    if 0 <= i < s.len() {
        lemma_line_end_bounds(s, i);
    }
}

/// The preprocessed form of `s`: every line followed by `\n`, with block
/// markers placed before each line whose indentation changes.
pub open spec fn preprocess_spec(s: Seq<char>) -> Seq<char> {
    render(s, 0, 0, 0)
}

/// The characters of `s`, in order.
fn chars_of(s: &str) -> (r: Vec<char>)
    ensures
        r@ == s@,
{
    let mut out: Vec<char> = Vec::new();
    let mut it = s.chars();
    loop
        invariant
            it.obeys_prophetic_iter_laws(),
            it.decrease() is Some,
            out@ + it.remaining() == s@,
        ensures
            out@ == s@,
        decreases it.decrease()->0,
    {
        let ghost before = it.remaining();
        match it.next() {
            Some(ch) => {
                out.push(ch);
                assert(before == seq![ch] + it.remaining());
            },
            None => {
                assert(out@ =~= s@);
                break;
            },
        }
    }
    out
}

/// Relies on String::push: appends one character.
#[verifier::external_body]
pub(crate) fn push_char(s: &mut String, c: char)
    ensures
        final(s)@ == old(s)@.push(c),
{
    s.push(c)
}

proof fn lemma_line_end_bounds(s: Seq<char>, i: int)
    requires
        0 <= i,
    ensures
        i <= line_end(s, i) || (i > s.len() && line_end(s, i) == s.len()),
        line_end(s, i) <= s.len(),
        line_end(s, i) < s.len() ==> s[line_end(s, i)] == '\n',
    decreases s.len() - i,
{
    if i < s.len() && s[i] != '\n' {
        lemma_line_end_bounds(s, i + 1);
    }
}

proof fn lemma_leading_tabs(line: Seq<char>, k: int)
    requires
        0 <= k <= line.len(),
        forall|m: int| 0 <= m < k ==> line[m] == '\t',
    ensures
        leading_tabs(line) == k + leading_tabs(line.subrange(k, line.len() as int)),
    decreases k,
{
    if k > 0 {
        lemma_leading_tabs(line.drop_first(), k - 1);
        assert(line.drop_first().subrange(k - 1, line.drop_first().len() as int) =~= line.subrange(
            k,
            line.len() as int,
        ));
    } else {
        assert(line.subrange(0, line.len() as int) =~= line);
    }
}

/// Appends `n` copies of `c`.
fn push_repeated(res: &mut String, c: char, n: usize)
    ensures
        final(res)@ == old(res)@ + repeat_char(c, n as nat),
{
    let mut k: usize = 0;
    while k < n
        invariant
            k <= n,
            res@ == old(res)@ + repeat_char(c, k as nat),
        decreases n - k,
    {
        push_char(res, c);
        k = k + 1;
        assert(res@ =~= old(res)@ + repeat_char(c, k as nat));
    }
}

/// Appends the markers due before a non-empty line of indentation `indent`
/// and returns the new previous indentation and outstanding count.
fn emit_markers(res: &mut String, prev: usize, outstanding: usize, indent: usize) -> (r: (
    usize,
    usize,
))
    requires
        prev < usize::MAX,
    ensures
        final(res)@ == old(res)@ + markers(prev as nat, outstanding as nat, indent as nat).0,
        r.0 as nat == markers(prev as nat, outstanding as nat, indent as nat).1,
        r.1 as nat == markers(prev as nat, outstanding as nat, indent as nat).2,
{
    let ghost before = res@;
    if indent == prev {
        assert(res@ =~= before + markers(prev as nat, outstanding as nat, indent as nat).0);
        (prev, outstanding)
    } else if indent == prev + 1 {
        push_char(res, '{');
        assert(res@ =~= before + markers(prev as nat, outstanding as nat, indent as nat).0);
        (indent, outstanding)
    } else if prev > indent {
        if outstanding > 0 {
            push_char(res, '}');
            push_char(res, '{');
            assert(res@ =~= before + markers(prev as nat, outstanding as nat, indent as nat).0);
            let drop = prev - indent;
            if outstanding >= drop {
                (indent, outstanding - drop)
            } else {
                (indent, 0)
            }
        } else {
            push_repeated(res, '}', prev - indent);
            (indent, outstanding)
        }
    } else {
        push_char(res, '{');
        assert(res@ =~= before + markers(prev as nat, outstanding as nat, indent as nat).0);
        (indent, indent - (prev + 1))
    }
}

fn find_line_end(chars: &Vec<char>, i: usize) -> (j: usize)
    requires
        i <= chars.len(),
    ensures
        j == line_end(chars@, i as int),
        i <= j <= chars.len(),
{
    let n = chars.len();
    let mut j: usize = i;
    while j < n && chars[j] != '\n'
        invariant
            n == chars.len(),
            i <= j <= n,
            line_end(chars@, j as int) == line_end(chars@, i as int),
        decreases n - j,
    {
        j = j + 1;
    }
    j
}

fn count_tabs(chars: &Vec<char>, i: usize, e: usize) -> (k: usize)
    requires
        i <= e <= chars.len(),
    ensures
        k == leading_tabs(chars@.subrange(i as int, e as int)),
        k <= e - i,
{
    let ghost line = chars@.subrange(i as int, e as int);
    let mut t: usize = i;
    while t < e && chars[t] == '\t'
        invariant
            i <= t <= e <= chars.len(),
            forall|m: int| i <= m < t ==> chars@[m] == '\t',
        decreases e - t,
    {
        t = t + 1;
    }
    let k = t - i;
    proof {
        lemma_leading_tabs(line, k as int);
        let rest = line.subrange(k as int, line.len() as int);
        if rest.len() > 0 {
            assert(rest[0] == chars@[t as int]);
        }
        assert(leading_tabs(rest) == 0);
    }
    k
}

fn push_range(res: &mut String, chars: &Vec<char>, i: usize, e: usize)
    requires
        i <= e <= chars.len(),
    ensures
        final(res)@ == old(res)@ + chars@.subrange(i as int, e as int),
{
    let mut k: usize = i;
    while k < e
        invariant
            i <= k <= e <= chars.len(),
            res@ == old(res)@ + chars@.subrange(i as int, k as int),
        decreases e - k,
    {
        push_char(res, chars[k]);
        k = k + 1;
        assert(res@ =~= old(res)@ + chars@.subrange(i as int, k as int));
    }
}

/// Rewrites `src` line by line, writing `{` before a line indented one tab
/// deeper than the previous non-empty line and `}` for each level a line
/// returns by. A jump of several levels opens a single block and counts the
/// levels skipped as outstanding; a later return first closes and reopens that
/// block. Every line is terminated by `\n`, and the blocks still open are
/// closed at the end.
pub fn preprocess_source(src: &str) -> (r: String)
    ensures
        r@ == preprocess_spec(src@),
{
    let chars = chars_of(src);
    let n = chars.len();
    let mut res = String::new();
    let mut prev: usize = 0;
    let mut outstanding: usize = 0;
    let mut i: usize = 0;
    while i < n
        invariant
            chars@ == src@,
            n == chars.len(),
            i <= n,
            prev <= i,
            res@ + render(src@, i as int, prev as nat, outstanding as nat) == preprocess_spec(
                src@,
            ),
        decreases n - i,
    {
        let ghost s = src@;
        let ghost before = res@;
        let j = find_line_end(&chars, i);
        let mut e: usize = j;
        if j < n && j > i && chars[j - 1] == '\r' {
            e = j - 1;
        }
        let ghost line = line_text(s, i as int);
        assert(line =~= s.subrange(i as int, e as int));
        let indent = count_tabs(&chars, i, e);
        let ghost prev_before = prev as nat;
        let ghost outstanding_before = outstanding as nat;
        if e > i {
            let (p, o) = emit_markers(&mut res, prev, outstanding, indent);
            prev = p;
            outstanding = o;
        }
        push_range(&mut res, &chars, i, e);
        push_char(&mut res, '\n');
        if j < n {
            i = j + 1;
        } else {
            i = n;
        }
        proof {
            assert(res@ =~= before + (if line.len() == 0 {
                Seq::empty()
            } else {
                markers(prev_before, outstanding_before, leading_tabs(line)).0
            }) + line.push('\n'));
            if line.len() == 0 {
                assert(prev as nat == prev_before && outstanding as nat == outstanding_before);
            } else {
                assert(markers(prev_before, outstanding_before, leading_tabs(line)).1 == prev as nat);
                assert(markers(prev_before, outstanding_before, leading_tabs(line)).2 == outstanding as nat);
            }
            assert(render(s, i as int, prev as nat, outstanding as nat) == render(
                s,
                j + 1,
                prev as nat,
                outstanding as nat,
            ));
        }
    }
    let ghost s = src@;
    if outstanding < prev {
        push_repeated(&mut res, '}', prev - outstanding);
    }
    assert(res@ =~= preprocess_spec(s));
    res
}

} // verus!
