//! Entry points: source text to grapheme clusters to a block tree.

use vstd::prelude::*;
use unicode_segmentation::UnicodeSegmentation;
use crate::grammar::{block, block_spec};
use crate::tree::{Block, BlockModel};
use crate::types::{views, Input, InputContext};

verus! {

/// The extended grapheme clusters of a text, in order.
pub uninterp spec fn graphemes_of(s: Seq<char>) -> Seq<Seq<char>>;

/// Relies on unicode_segmentation's `graphemes(true)`: the extended grapheme
/// clusters of `s`, in order.
#[verifier::external_body]
pub(crate) fn split_graphemes(s: &str) -> (r: Vec<String>)
    ensures
        views(r@) == graphemes_of(s@),
{
    s.graphemes(true).map(String::from).collect()
}

/// A cursor at the start of `items`, at depth 0, line 0, column 0.
pub open spec fn start<'a>(items: &'a [String]) -> Input<'a> {
    Input { items, pos: 0, context: InputContext { indent: 0, line: 0, position: 0 } }
}

/// The model of the whole input parsed as one top-level block.
pub open spec fn parse_spec<'a>(items: &'a [String]) -> BlockModel {
    block_spec(start(items)).0
}

/// Parses already segmented input as one top-level block.
pub fn parse_graphemes(items: &[String]) -> (r: Block)
    ensures
        r@ == parse_spec(items),
{
    let input = Input::new(items);
    let (b, _) = block(input);
    b
}

/// Segments `source` into grapheme clusters and parses them as one
/// top-level block.
pub fn parse_source(source: &str) -> (r: Block)
    ensures
        exists|items: &[String]| views(items@) == graphemes_of(source@) && r@ == parse_spec(items),
{
    let items = split_graphemes(source);
    let s = items.as_slice();
    let r = parse_graphemes(s);
    assert(views(s@) == graphemes_of(source@));
    r
}

} // verus!
