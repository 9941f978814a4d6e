use carina::combinators::{
    all_chars, all_until, any_of, discard, either, literal, multiple, pair, one_or_more, peek, wrap,
    wrap_ok, zero_or_more,
};
use carina::preprocessor::preprocess_source;
use carina::primitives::{
    any_char, any_regular_char, any_special_char, eof, newline, space, tab,
};
use carina::types::{Expected, Input, InputContext, Output, ParseError};
use carina::values::{is_newline, is_regular, is_space, is_special, is_tab, is_valid};

fn items(s: &[&str]) -> Vec<String> {
    s.iter().map(|g| g.to_string()).collect()
}

type Step<'a> = (Output<String>, Input<'a>);

fn lit_ab(input: Input<'_>) -> Step<'_> {
    literal("ab", input)
}

fn lit_ac(input: Input<'_>) -> Step<'_> {
    literal("ac", input)
}

#[test]
fn any_of_backtracks_failed_alternative() {
    let g = items(&["a", "c"]);
    let alts: [for<'b> fn(Input<'b>) -> Step<'b>; 2] = [lit_ab, lit_ac];
    let (out, c) = any_of(&alts, Input::new(&g));
    match out {
        Output::Success(s) => assert_eq!(s, "ac"),
        other => panic!("expected success, got {:?}", other),
    }
    assert_eq!(c.pos, 2);
    assert_eq!(c.context.position, 2);
}

#[test]
fn literal_matches_whole_text() {
    let g = items(&["a", "c", "e\u{301}"]);
    let input = Input::new(&g);
    let (out, c) = literal("ac", input);
    assert!(matches!(out, Output::Success(ref s) if s == "ac"));
    assert_eq!(c.pos, 2);
    let (out, c2) = literal("e\u{301}", c);
    assert!(matches!(out, Output::Success(_)));
    assert_eq!(c2.pos, 3);
    let (out, c) = literal("ab", input);
    match out {
        Output::Recoverable(ParseError::UnexpectedCharacter { expected, found, .. }) => {
            assert_eq!(expected, Expected::Literal);
            assert_eq!(found, "ac");
        }
        other => panic!("expected a mismatch, got {:?}", other),
    }
    assert_eq!(c.pos, 0);
    let (out, c) = literal("acex", input);
    assert!(matches!(
        out,
        Output::Fatal(ParseError::UnexpectedEOF { expected: Expected::MoreItems(1), .. })
    ));
    assert_eq!(c.pos, 0);
}

#[test]
fn pair_runs_in_sequence() {
    let g = items(&["\t", "a", "b"]);
    let input = Input::new(&g);
    let (out, c) = pair(tab, any_regular_char, input);
    match out {
        Output::Success((t, a)) => {
            assert_eq!(t, "\t");
            assert_eq!(a, "a");
        }
        other => panic!("expected success, got {:?}", other),
    }
    assert_eq!(c.pos, 2);
    let (out, c) = pair(tab, space, input);
    assert!(matches!(out, Output::Recoverable(ParseError::UnexpectedCharacter { .. })));
    assert_eq!(c.pos, 0);
}

/// Consumes two items and then fails recoverably, leaving the cursor after
/// them.
fn two_then_fail(input: Input<'_>) -> Step<'_> {
    let mut c = input;
    let _ = c.advance(2);
    (Output::Recoverable(ParseError::NoneMatched), c)
}

#[test]
fn any_of_discards_consumption_of_failed_alternative() {
    let g = items(&["a", "c"]);
    let alts: [for<'b> fn(Input<'b>) -> Step<'b>; 2] = [two_then_fail, any_char];
    let (out, c) = any_of(&alts, Input::new(&g));
    assert!(matches!(out, Output::Success(ref s) if s == "a"));
    assert_eq!(c.pos, 1);
    assert_eq!(c.context.position, 1);
}

#[test]
fn any_of_with_no_match_leaves_cursor() {
    let g = items(&["a", "d"]);
    let alts: [for<'b> fn(Input<'b>) -> Step<'b>; 2] = [lit_ab, lit_ac];
    let (out, c) = any_of(&alts, Input::new(&g));
    assert!(matches!(out, Output::Recoverable(ParseError::NoneMatched)));
    assert_eq!(c.pos, 0);
}

#[test]
fn any_of_stops_at_fatal() {
    let g = items(&["a"]);
    let alts: [for<'b> fn(Input<'b>) -> Step<'b>; 2] = [lit_ab, any_char];
    let (out, c) = any_of(&alts, Input::new(&g));
    assert!(matches!(out, Output::Fatal(_)));
    assert_eq!(c.pos, 0);
}

#[test]
fn zero_or_more_without_match() {
    let g = items(&["a", "b", "c"]);
    let input = Input::new(&g);
    let (out, c) = zero_or_more(tab, input);
    match out {
        Output::Success(v) => assert!(v.is_empty()),
        other => panic!("expected success, got {:?}", other),
    }
    assert_eq!(c.pos, 0);
    assert_eq!(c.context, input.context);
}

#[test]
fn zero_or_more_collects_run() {
    let g = items(&["\t", "\t", "x"]);
    let (out, c) = zero_or_more(tab, Input::new(&g));
    match out {
        Output::Success(v) => assert_eq!(v.len(), 2),
        other => panic!("expected success, got {:?}", other),
    }
    assert_eq!(c.pos, 2);
    assert_eq!(c.context.position, 2);
}

#[test]
fn one_or_more_needs_a_match() {
    let g = items(&["x"]);
    let (out, c) = one_or_more(tab, Input::new(&g));
    assert!(matches!(out, Output::Recoverable(ParseError::NoneMatched)));
    assert_eq!(c.pos, 0);
    let g = items(&[" ", " ", "x"]);
    let (out, c) = one_or_more(space, Input::new(&g));
    match out {
        Output::Success(v) => assert_eq!(v, vec![" ".to_string(), " ".to_string()]),
        other => panic!("expected success, got {:?}", other),
    }
    assert_eq!(c.pos, 2);
}

#[test]
fn multiple_rolls_back_on_shortfall() {
    let g = items(&["\t", "x"]);
    let input = Input::new(&g);
    let (out, c) = multiple(2, tab, input);
    match out {
        Output::Partial { result, error } => {
            assert_eq!(result.len(), 1);
            assert!(matches!(
                error,
                ParseError::UnexpectedCharacter { expected: Expected::Tab, .. }
            ));
        }
        other => panic!("expected partial, got {:?}", other),
    }
    assert_eq!(c.pos, 0);
    let (out, c) = multiple(1, tab, input);
    assert!(matches!(out, Output::Success(ref v) if v.len() == 1));
    assert_eq!(c.pos, 1);
    let two_tabs = items(&["\t", "\t"]);
    let (out, c) = multiple(3, tab, Input::new(&two_tabs));
    assert!(matches!(out, Output::Fatal(_)));
    assert_eq!(c.pos, 0);
}

#[test]
fn all_until_checks_terminator_first() {
    let g = items(&["a", "b", "\n", "c"]);
    let (out, c) = all_until(any_char, newline, Input::new(&g));
    match out {
        Output::Success(v) => assert_eq!(v, vec!["a".to_string(), "b".to_string()]),
        other => panic!("expected success, got {:?}", other),
    }
    assert_eq!(c.pos, 3);
    assert_eq!(c.context.line, 1);
    let g = items(&["a", "+", "b"]);
    let (out, c) = all_until(any_regular_char, eof, Input::new(&g));
    match out {
        Output::Partial { result, error } => {
            assert_eq!(result, vec!["a".to_string()]);
            assert!(matches!(error, ParseError::UnexpectedCharacter { .. }));
        }
        other => panic!("expected partial, got {:?}", other),
    }
    assert_eq!(c.pos, 1);
}

#[test]
fn all_until_terminator_first_and_fatal() {
    let g = items(&["\n", "a"]);
    let (out, c) = all_until(any_char, newline, Input::new(&g));
    assert!(matches!(out, Output::Success(ref v) if v.is_empty()));
    assert_eq!(c.pos, 1);
    let g = items(&["a", "b"]);
    let (out, c) = all_until(any_char, eof, Input::new(&g));
    match out {
        Output::Success(v) => assert_eq!(v, vec!["a".to_string(), "b".to_string()]),
        other => panic!("expected success, got {:?}", other),
    }
    assert_eq!(c.context.position, 2);
    let (out, c) = all_until(any_char, newline, Input::new(&g));
    assert!(matches!(
        out,
        Output::Fatal(ParseError::UnexpectedEOF { expected: Expected::MoreItems(1), .. })
    ));
    assert_eq!(c.pos, 0);
}

fn tab_bytes(input: Input<'_>) -> (Output<Vec<u8>>, Input<'_>) {
    let (o, c) = any_char(input);
    (o.map_value(), c)
}

#[test]
fn either_converts_left_value() {
    let g = items(&["\t"]);
    let (out, c) = either::<String, Vec<u8>, _, _>(tab, tab_bytes, Input::new(&g));
    assert!(matches!(out, Output::Success(ref v) if v == &vec![9u8]));
    assert_eq!(c.pos, 1);
}

#[test]
fn all_chars_reads_text() {
    let g = items(&["a", " ", "\n", "b"]);
    let (out, c) = all_chars(Input::new(&g));
    match out {
        Output::Success(v) => assert_eq!(v.concat(), "a \nb"),
        other => panic!("expected success, got {:?}", other),
    }
    assert_eq!(c.pos, 4);
    let (out, _) = all_chars(Input::new(&items(&["a", "\u{1}"])));
    assert!(matches!(out, Output::Partial { error: ParseError::NoneMatched, .. }));
}

#[test]
fn peek_does_not_consume() {
    let g = items(&["\n"]);
    let (out, c) = peek(newline, Input::new(&g));
    assert!(matches!(out, Output::Success(_)));
    assert_eq!(c.pos, 0);
}

#[test]
fn map_discard_wrap() {
    let g = items(&["a", "b"]);
    let input = Input::new(&g);
    let (out, c) = carina::combinators::map(any_char, |s: String| s.len(), input);
    assert!(matches!(out, Output::Success(1)));
    assert_eq!(c.pos, 1);
    let (out, _) = discard(any_char, input);
    assert!(matches!(out, Output::Success(())));
    let (out, c) = wrap(any_special_char, input);
    assert!(matches!(out, Output::Recoverable(_)));
    assert_eq!(c.pos, 0);
    let (out, c) = wrap_ok(any_special_char, input);
    assert!(matches!(out, Output::Success(Output::Recoverable(_))));
    assert_eq!(c.pos, 0);
}

#[test]
fn either_prefers_left() {
    let g = items(&["\t"]);
    let input = Input::new(&g);
    let (out, c) = either::<String, String, _, _>(tab, any_char, input);
    assert!(matches!(out, Output::Success(ref s) if s == "\t"));
    assert_eq!(c.pos, 1);
    let (out, c) = either::<String, String, _, _>(space, any_char, input);
    assert!(matches!(out, Output::Success(ref s) if s == "\t"));
    assert_eq!(c.pos, 1);
    let (out, c) = either::<String, String, _, _>(space, newline, input);
    assert!(matches!(out, Output::Recoverable(_)));
    assert_eq!(c.pos, 0);
}

#[test]
fn single_item_parsers() {
    let g = items(&["\t", " ", "\r\n", "a", "+"]);
    let input = Input::new(&g);
    let (out, c) = tab(input);
    assert!(matches!(out, Output::Success(_)));
    let (out, c) = space(c);
    assert!(matches!(out, Output::Success(_)));
    let (out, c) = newline(c);
    assert!(matches!(out, Output::Success(_)));
    assert_eq!(c.context, InputContext { indent: 0, line: 1, position: 0 });
    let (out, c) = any_regular_char(c);
    assert!(matches!(out, Output::Success(_)));
    let (out, c2) = any_regular_char(c);
    match out {
        Output::Recoverable(ParseError::UnexpectedCharacter { context, expected, found }) => {
            assert_eq!(context, InputContext { indent: 0, line: 1, position: 1 });
            assert_eq!(expected, Expected::RegularChar);
            assert_eq!(found, "+");
        }
        other => panic!("expected a recoverable failure, got {:?}", other),
    }
    assert_eq!(c2.pos, c.pos);
    let (out, c) = any_special_char(c);
    assert!(matches!(out, Output::Success(_)));
    let (out, c) = eof(c);
    assert!(matches!(out, Output::Success(())));
    let (out, _) = tab(c);
    assert!(matches!(
        out,
        Output::Fatal(ParseError::UnexpectedEOF { expected: Expected::MoreItems(1), .. })
    ));
    let (out, _) = eof(input);
    assert!(matches!(out, Output::Recoverable(_)));
}

#[test]
fn cursor_tracks_lines_and_columns() {
    let g = items(&["a", "b", "\n", "c", "\r", "d"]);
    let mut input = Input::new(&g);
    assert!(matches!(input.next(), Output::Success(ref s) if s == "a"));
    assert_eq!(input.context, InputContext { indent: 0, line: 0, position: 1 });
    assert!(matches!(input.advance(3), Output::Success(ref s) if s == "b\nc"));
    assert_eq!(input.context, InputContext { indent: 0, line: 1, position: 1 });
    assert_eq!(input.pos, 4);
    match input.advance(4) {
        Output::Fatal(ParseError::UnexpectedEOF { context, expected }) => {
            assert_eq!(expected, Expected::MoreItems(2));
            assert_eq!(context, InputContext { indent: 0, line: 2, position: 1 });
        }
        other => panic!("expected end of input, got {:?}", other),
    }
    assert_eq!(input.pos, 6);
    assert!(matches!(input.next(), Output::Fatal(_)));
    assert!(matches!(input.peek(), Output::Fatal(_)));
    let start = Input::new(&g);
    assert!(matches!(start.peek(), Output::Success(ref s) if s == "a"));
    assert_eq!(start.pos, 0);
}

#[test]
fn output_conversions() {
    let o: Output<u8> = Output::Success(7);
    assert!(matches!(o.map_value::<u32>(), Output::Success(7u32)));
    let o: Output<u8> = Output::Partial { result: 1, error: ParseError::NoneMatched };
    assert!(matches!(
        o.discard_value(),
        Output::Partial { result: (), error: ParseError::NoneMatched }
    ));
    let o: Output<u8> = Output::Fatal(ParseError::NoneMatched);
    assert!(matches!(o.discard_value(), Output::Fatal(ParseError::NoneMatched)));
}

#[test]
fn classifiers() {
    assert!(is_special(" "));
    assert!(is_special("+"));
    assert!(is_special("{"));
    assert!(is_special("\u{7f}"));
    assert!(!is_special("a"));
    assert!(!is_special("0"));
    assert!(!is_special("ab"));
    assert!(is_valid("\t"));
    assert!(is_valid("\n"));
    assert!(is_valid("\r"));
    assert!(!is_valid("\u{1}"));
    assert!(!is_valid("\u{1f}"));
    assert!(is_valid("a"));
    assert!(is_newline("\n"));
    assert!(is_newline("\r\n"));
    assert!(is_newline("\r"));
    assert!(!is_newline("\n\n"));
    assert!(is_space(" "));
    assert!(!is_space("\t"));
    assert!(is_tab("\t"));
    assert!(!is_tab(" "));
    assert!(is_regular("a"));
    assert!(is_regular("é"));
    assert!(is_regular("e\u{301}"));
    assert!(is_regular("\t"));
    assert!(!is_regular(" "));
    assert!(!is_regular("\n"));
    assert!(!is_regular("\u{1}"));
}

#[test]
fn preprocess_marks_blocks() {
    assert_eq!(preprocess_source("a\n\tb\n\t\tc\nd\n"), "a\n{\tb\n{\t\tc\n}}d\n");
    assert_eq!(preprocess_source("a\n\tb"), "a\n{\tb\n}");
    assert_eq!(preprocess_source(""), "");
    assert_eq!(preprocess_source("a\r\nb"), "a\nb\n");
    assert_eq!(preprocess_source("a\n\n\tb\n"), "a\n\n{\tb\n}");
}

#[test]
fn preprocess_folds_deep_jumps() {
    assert_eq!(preprocess_source("a\n\t\t\tb\n\tc\n"), "a\n{\t\t\tb\n}{\tc\n}");
    assert_eq!(preprocess_source("a\n\t\t\tb\nc\n"), "a\n{\t\t\tb\n}{c\n");
}
