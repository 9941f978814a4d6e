use carina::grammar::{block, comment, dedent, expression};
use carina::source::{parse_graphemes, parse_source};
use carina::tree::{Block, Element};
use carina::types::{Expected, Input, InputContext, Output, ParseError};

fn items(s: &[&str]) -> Vec<String> {
    s.iter().map(|g| g.to_string()).collect()
}

fn show(b: &Block) -> String {
    match b {
        Block::Empty => "_".to_string(),
        Block::Malformed(errs) => format!("!{}", errs.len()),
        Block::Populated(elems) => {
            let parts: Vec<String> = elems
                .iter()
                .map(|e| match e {
                    Element::Comment(t) => format!("#{}", t),
                    Element::Expression(x) => {
                        format!("{}{}", x.identifiers.join(" "), match &x.block {
                            Block::Empty => String::new(),
                            other => format!(" {}", show(other)),
                        })
                    }
                })
                .collect();
            format!("[{}]", parts.join(", "))
        }
    }
}

#[test]
fn nested_blocks_round_trip() {
    let src = "xxxxx 111\n\tyyyyy 222\n\t\tzzzzzz 333\n\t\taaaaaa 444\n\tbbbbb 555\ncccc 666\n";
    let b = parse_source(src);
    assert_eq!(
        show(&b),
        "[xxxxx 111 [yyyyy 222 [zzzzzz 333, aaaaaa 444], bbbbb 555], cccc 666]"
    );
    match &b {
        Block::Populated(top) => {
            assert_eq!(top.len(), 2);
            match &top[1] {
                Element::Expression(x) => {
                    assert_eq!(x.identifiers, vec!["cccc".to_string(), "666".to_string()]);
                    assert!(matches!(x.block, Block::Empty));
                }
                _ => panic!("expected an expression"),
            }
        }
        _ => panic!("expected a populated block"),
    }
}

#[test]
fn round_trip_without_final_newline() {
    let b = parse_source("xxxxx 111\n\tyyyyy 222\ncccc 666");
    assert_eq!(show(&b), "[xxxxx 111 [yyyyy 222], cccc 666]");
}

#[test]
fn parsing_twice_gives_the_same_tree() {
    let src = "a b\n\tc\n\t# note\nd\n";
    let first = show(&parse_source(src));
    let second = show(&parse_source(src));
    assert_eq!(first, second);
    assert_eq!(first, "[a b [c, # note], d]");
}

#[test]
fn control_character_gives_malformed_block() {
    let b = parse_source("abc\u{1}def\n");
    match b {
        Block::Malformed(errs) => {
            assert_eq!(errs.len(), 1);
            match &errs[0] {
                ParseError::UnexpectedCharacter { context, found, .. } => {
                    assert_eq!(found, "\u{1}");
                    assert_eq!(context.line, 0);
                    assert_eq!(context.position, 3);
                }
                other => panic!("unexpected diagnostic {:?}", other),
            }
        }
        other => panic!("expected a malformed block, got {:?}", other),
    }
}

#[test]
fn malformed_nested_block_keeps_outer_parse() {
    let b = parse_source("a\n\tb \u{1}\n\tc\nd\n");
    match &b {
        Block::Populated(top) => {
            assert_eq!(top.len(), 2);
            match &top[0] {
                Element::Expression(x) => match &x.block {
                    Block::Malformed(errs) => {
                        assert_eq!(errs.len(), 1);
                        match &errs[0] {
                            ParseError::UnexpectedCharacter { context, .. } => {
                                assert_eq!(context.line, 1);
                                assert_eq!(context.position, 3);
                            }
                            other => panic!("unexpected diagnostic {:?}", other),
                        }
                    }
                    other => panic!("expected a malformed block, got {:?}", other),
                },
                _ => panic!("expected an expression"),
            }
        }
        other => panic!("expected a populated block, got {:?}", other),
    }
}

#[test]
fn comments_at_any_indentation() {
    let b = parse_source("# top\nfoo\n\t# inner\n\t\t# deeper\n\tbar\n");
    assert_eq!(show(&b), "[# top, foo [# inner, # deeper, bar]]");
}

#[test]
fn comment_has_no_block() {
    let g = items(&["#", "x", "\n", "\t", "y", "\n"]);
    let (out, c) = comment(Input::new(&g));
    match out {
        Output::Success(t) => assert_eq!(t, "x"),
        other => panic!("expected a comment, got {:?}", other),
    }
    assert_eq!(c.pos, 3);
    assert_eq!(c.context.line, 1);
    assert_eq!(c.context.position, 0);
}

#[test]
fn comment_at_any_depth_and_at_end() {
    let g = items(&["#", " ", "x"]);
    let mut input = Input::new(&g);
    input.context.indent = 1;
    let (out, c) = comment(input);
    match out {
        Output::Success(t) => assert_eq!(t, " x"),
        other => panic!("expected a comment, got {:?}", other),
    }
    assert_eq!(c.pos, 3);
    let g = items(&[" ", "\t", "#", "\n"]);
    let (out, c) = comment(Input::new(&g));
    assert!(matches!(out, Output::Success(ref t) if t.is_empty()));
    assert_eq!(c.pos, 4);
    let g = items(&["a"]);
    let (out, c) = comment(Input::new(&g));
    assert!(matches!(
        out,
        Output::Recoverable(ParseError::UnexpectedCharacter { expected: Expected::CommentMarker, .. })
    ));
    assert_eq!(c.pos, 0);
}

#[test]
fn control_character_in_nested_line() {
    let b = parse_source("a\n\tb\u{1}\n");
    match &b {
        Block::Populated(top) => match &top[0] {
            Element::Expression(x) => match &x.block {
                Block::Malformed(errs) => match &errs[0] {
                    ParseError::UnexpectedCharacter { context, found, .. } => {
                        assert_eq!(found, "\u{1}");
                        assert_eq!(context.line, 1);
                        assert_eq!(context.position, 2);
                    }
                    other => panic!("unexpected diagnostic {:?}", other),
                },
                other => panic!("expected a malformed block, got {:?}", other),
            },
            _ => panic!("expected an expression"),
        },
        other => panic!("expected a populated block, got {:?}", other),
    }
}

#[test]
fn over_indented_line_keeps_extra_tab() {
    let b = parse_source("a\n\t\tb\n");
    assert_eq!(show(&b), "[a [\tb]]");
}

#[test]
fn empty_input_is_empty_block() {
    assert!(matches!(parse_source(""), Block::Empty));
    assert!(matches!(parse_graphemes(&[]), Block::Empty));
}

#[test]
fn block_below_its_depth_is_empty() {
    let g = items(&["a", "\n"]);
    let mut input = Input::new(&g);
    input.context.indent = 1;
    let (b, c) = block(input);
    assert!(matches!(b, Block::Empty));
    assert_eq!(c.pos, 0);
}

#[test]
fn dedent_succeeds_below_depth() {
    let g = items(&["\t", "a"]);
    let mut input = Input::new(&g);
    input.context.indent = 2;
    let (out, c) = dedent(input);
    assert!(matches!(out, Output::Success(())));
    assert_eq!(c.pos, 0);
    input.context.indent = 1;
    let (out, _) = dedent(input);
    assert!(matches!(out, Output::Recoverable(ParseError::NoneMatched)));
}

#[test]
fn expression_tracks_position() {
    let g = items(&["a", "b", " ", "c", "\n", "\n", "d"]);
    let (out, c) = expression(Input::new(&g));
    match out {
        Output::Success(x) => {
            assert_eq!(x.identifiers, vec!["ab".to_string(), "c".to_string()]);
            assert!(matches!(x.block, Block::Empty));
        }
        other => panic!("expected an expression, got {:?}", other),
    }
    assert_eq!(c.pos, 6);
    assert_eq!(c.context, InputContext { indent: 0, line: 2, position: 0 });
}

#[test]
fn expression_without_identifier_fails() {
    let g = items(&[" ", "a"]);
    let input = Input::new(&g);
    let (out, c) = expression(input);
    match out {
        Output::Recoverable(ParseError::UnexpectedCharacter { expected, found, .. }) => {
            assert_eq!(expected, Expected::Identifier);
            assert_eq!(found, " ");
        }
        other => panic!("expected a recoverable failure, got {:?}", other),
    }
    assert_eq!(c.pos, 0);
    let g = items(&["\t"]);
    let mut input = Input::new(&g);
    input.context.indent = 1;
    let (out, _) = expression(input);
    match out {
        Output::Recoverable(ParseError::UnexpectedEOF { expected, .. }) => {
            assert_eq!(expected, Expected::Identifier)
        }
        other => panic!("expected end of input, got {:?}", other),
    }
}

#[test]
fn leading_blank_line_is_reported() {
    let b = parse_source("\na\n");
    assert_eq!(show(&b), "!1");
}
