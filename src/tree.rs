//! The syntax tree and its mathematical model.

use vstd::prelude::*;
use crate::types::{views, ErrorModel, ParseError};

verus! {

broadcast use vstd::std_specs::vec::group_vec_axioms, vstd::seq::group_seq_axioms;

/// A line of the source: an expression with the block nested under it, or a
/// comment.
#[derive(Debug)]
pub enum Element {
    Expression(Expression),
    Comment(String),
}

/// Space-separated identifiers and the block indented under them.
#[derive(Debug)]
pub struct Expression {
    pub identifiers: Vec<String>,
    pub block: Block,
}

/// An indentation-delimited sequence of elements. A block in which some line
/// failed to parse keeps the diagnostics instead of its elements.
#[derive(Debug)]
pub enum Block {
    Populated(Vec<Element>),
    Malformed(Vec<ParseError>),
    Empty,
}

pub enum ElementModel {
    Expression { identifiers: Seq<Seq<char>>, block: BlockModel },
    Comment(Seq<char>),
}

pub enum BlockModel {
    Populated(Seq<ElementModel>),
    Malformed(Seq<ErrorModel>),
    Empty,
}

pub open spec fn errors_model(v: Seq<ParseError>) -> Seq<ErrorModel> {
    v.map_values(|e: ParseError| e@)
}

pub open spec fn element_model(e: Element) -> ElementModel
    decreases e, 0nat,
{
    match e {
        Element::Expression(x) => ElementModel::Expression {
            identifiers: views(x.identifiers@),
            block: block_model(x.block),
        },
        Element::Comment(s) => ElementModel::Comment(s@),
    }
}

/// Models of the first `n` elements of `s`.
pub open spec fn elements_model(s: Seq<Element>, n: nat) -> Seq<ElementModel>
    decreases s, n,
{
    if n == 0 || n > s.len() {
        Seq::empty()
    } else {
        elements_model(s, (n - 1) as nat).push(element_model(s[n - 1]))
    }
}

pub open spec fn block_model(b: Block) -> BlockModel
    decreases b, 0nat,
{
    match b {
        Block::Populated(v) => BlockModel::Populated(elements_model(v@, v@.len())),
        Block::Malformed(v) => BlockModel::Malformed(errors_model(v@)),
        Block::Empty => BlockModel::Empty,
    }
}

impl View for Block {
    type V = BlockModel;

    open spec fn view(&self) -> BlockModel {
        block_model(*self)
    }
}

impl View for Element {
    type V = ElementModel;

    open spec fn view(&self) -> ElementModel {
        element_model(*self)
    }
}

} // verus!
