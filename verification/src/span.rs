//! The input: a forest of named, timed, nested spans.

use vstd::prelude::*;
use crate::model::StrCow;

verus! {

/// A named interval of time with the spans that ran inside it, in the order
/// in which they started.
#[derive(Debug, PartialEq)]
pub struct Span {
    pub name: StrCow,
    pub start_ns: u64,
    pub end_ns: u64,
    pub children: Vec<Span>,
}

/// The number of spans in the tree under `span`, `span` itself included.
pub open spec fn span_count(span: Span) -> nat
    decreases span,
{
    1 + forest_count(span.children@)
}

/// The number of spans in all the trees of `forest`.
pub open spec fn forest_count(forest: Seq<Span>) -> nat
    decreases forest,
{
    if forest.len() == 0 {
        0
    } else {
        forest_count(forest.drop_last()) + span_count(forest.last())
    }
}

/// The names in the tree under `span`, a parent before its children and the
/// children in their order.
pub open spec fn span_names(span: Span) -> Seq<Seq<char>>
    decreases span,
{
    seq![span.name@] + forest_names(span.children@)
}

/// The names in all the trees of `forest`, tree after tree.
pub open spec fn forest_names(forest: Seq<Span>) -> Seq<Seq<char>>
    decreases forest,
{
    if forest.len() == 0 {
        Seq::empty()
    } else {
        forest_names(forest.drop_last()) + span_names(forest.last())
    }
}

} // verus!
