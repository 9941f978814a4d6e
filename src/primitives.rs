//! Parsers of a single item, and the end-of-input check.

use vstd::prelude::*;
use crate::types::{ErrorModel, Expected, Input, Output, ParseError};
use crate::values::{
    is_newline, is_newline_spec, is_regular, is_regular_spec, is_space, is_space_spec, is_special,
    is_special_spec, is_tab, is_tab_spec,
};

verus! {

/// The classes of items that the single-item parsers accept.
#[derive(Clone, Copy, Debug, PartialEq, Eq, Structural)]
pub enum ItemClass {
    Tab,
    Space,
    Newline,
    Regular,
    Special,
}

pub open spec fn class_accepts(k: ItemClass, g: Seq<char>) -> bool {
    match k {
        ItemClass::Tab => is_tab_spec(g),
        ItemClass::Space => is_space_spec(g),
        ItemClass::Newline => is_newline_spec(g),
        ItemClass::Regular => is_regular_spec(g),
        ItemClass::Special => is_special_spec(g),
    }
}

pub open spec fn class_expected(k: ItemClass) -> Expected {
    match k {
        ItemClass::Tab => Expected::Tab,
        ItemClass::Space => Expected::Space,
        ItemClass::Newline => Expected::Newline,
        ItemClass::Regular => Expected::RegularChar,
        ItemClass::Special => Expected::SpecialChar,
    }
}

/// What a single-item parser returns: `Fatal` at the end of the input, the
/// item and the cursor past it where `accepted`, and otherwise `Recoverable`
/// naming the item found; on failure the cursor stays.
pub open spec fn one_item_post<'a>(
    input: Input<'a>,
    r: (Output<String>, Input<'a>),
    accepted: bool,
    expected: Expected,
) -> bool {
    if input.at_end() {
        &&& r.1 == input
        &&& r.0 matches Output::Fatal(e) && e@ == (ErrorModel::UnexpectedEOF {
            context: input.context,
            expected: Expected::MoreItems(1),
        })
    } else if accepted {
        &&& r.1 == input.skip(1)
        &&& r.0 matches Output::Success(g) && g@ == input.item(0)
    } else {
        &&& r.1 == input
        &&& r.0 matches Output::Recoverable(e) && e@ == (ErrorModel::UnexpectedCharacter {
            context: input.context,
            expected,
            found: input.item(0),
        })
    }
}

/// Parses one item of class `k`.
pub fn item_of(k: ItemClass, input: Input<'_>) -> (r: (Output<String>, Input<'_>))
    requires
        input.wf(),
    ensures
        r.1.wf(),
        one_item_post(input, r, class_accepts(k, input.item(0)), class_expected(k)),
{
    let mut probe = input;
    match probe.next() {
        Output::Success(g) => {
            let ok = match k {
                ItemClass::Tab => is_tab(g.as_str()),
                ItemClass::Space => is_space(g.as_str()),
                ItemClass::Newline => is_newline(g.as_str()),
                ItemClass::Regular => is_regular(g.as_str()),
                ItemClass::Special => is_special(g.as_str()),
            };
            if ok {
                (Output::Success(g), probe)
            } else {
                let e = match k {
                    ItemClass::Tab => Expected::Tab,
                    ItemClass::Space => Expected::Space,
                    ItemClass::Newline => Expected::Newline,
                    ItemClass::Regular => Expected::RegularChar,
                    ItemClass::Special => Expected::SpecialChar,
                };
                (
                    Output::Recoverable(
                        ParseError::UnexpectedCharacter {
                            context: input.context,
                            expected: e,
                            found: g,
                        },
                    ),
                    input,
                )
            }
        },
        other => (other, input),
    }
}

/// Succeeds without consuming exactly at the end of the input.
pub fn eof(input: Input<'_>) -> (r: (Output<()>, Input<'_>))
    requires
        input.wf(),
    ensures
        r.1 == input,
        input.at_end() ==> r.0 == Output::<()>::Success(()),
        !input.at_end() ==> (r.0 matches Output::Recoverable(e) && e@ == (
        ErrorModel::UnexpectedCharacter {
            context: input.context,
            expected: Expected::EndOfInput,
            found: input.item(0),
        })),
{
    let mut probe = input;
    match probe.next() {
        Output::Success(g) => (
            Output::Recoverable(
                ParseError::UnexpectedCharacter {
                    context: input.context,
                    expected: Expected::EndOfInput,
                    found: g,
                },
            ),
            input,
        ),
        _ => (Output::Success(()), input),
    }
}

/// Parses one tab.
pub fn tab(input: Input<'_>) -> (r: (Output<String>, Input<'_>))
    requires
        input.wf(),
    ensures
        r.1.wf(),
        one_item_post(input, r, is_tab_spec(input.item(0)), Expected::Tab),
{
    item_of(ItemClass::Tab, input)
}

/// Parses one space.
pub fn space(input: Input<'_>) -> (r: (Output<String>, Input<'_>))
    requires
        input.wf(),
    ensures
        r.1.wf(),
        one_item_post(input, r, is_space_spec(input.item(0)), Expected::Space),
{
    item_of(ItemClass::Space, input)
}

/// Parses one newline sequence.
pub fn newline(input: Input<'_>) -> (r: (Output<String>, Input<'_>))
    requires
        input.wf(),
    ensures
        r.1.wf(),
        one_item_post(input, r, is_newline_spec(input.item(0)), Expected::Newline),
{
    item_of(ItemClass::Newline, input)
}

/// Parses any one item.
pub fn any_char(input: Input<'_>) -> (r: (Output<String>, Input<'_>))
    requires
        input.wf(),
    ensures
        r.1.wf(),
        one_item_post(input, r, true, Expected::AnyItem),
{
    let mut probe = input;
    let out = probe.next();
    (out, probe)
}

/// Parses one identifier-forming item.
pub fn any_regular_char(input: Input<'_>) -> (r: (Output<String>, Input<'_>))
    requires
        input.wf(),
    ensures
        r.1.wf(),
        one_item_post(input, r, is_regular_spec(input.item(0)), Expected::RegularChar),
{
    item_of(ItemClass::Regular, input)
}

/// Parses one ASCII punctuation item.
pub fn any_special_char(input: Input<'_>) -> (r: (Output<String>, Input<'_>))
    requires
        input.wf(),
    ensures
        r.1.wf(),
        one_item_post(input, r, is_special_spec(input.item(0)), Expected::SpecialChar),
{
    item_of(ItemClass::Special, input)
}

} // verus!
