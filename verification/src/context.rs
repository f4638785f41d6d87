//! Context records handed to the external templating collaborator: one per
//! emitted table entry, with the field names that the templates address.

use vstd::prelude::*;

use crate::grammar::{Semantic, Symbol};

verus! {

/// Context of one shift entry.
#[derive(Debug, Clone, PartialEq, Eq)]
pub struct ShiftContext {
    pub state: usize,
    pub token: String,
    pub next: usize,
}

/// Context of one reduce entry; `elements` is the rule's right-hand-side
/// length at definition, independent of its inline markers.
#[derive(Debug, Clone, PartialEq, Eq)]
pub struct ReduceContext {
    pub state: usize,
    pub token: String,
    pub elements: usize,
    pub ruleno: usize,
    pub symbol_no: Symbol,
    pub symbol_not_replaced: String,
}

/// Context of one goto entry.
#[derive(Debug, Clone, PartialEq, Eq)]
pub struct GotoContext {
    pub state: usize,
    pub symbol_no: Symbol,
    pub symbol_not_replaced: String,
    pub next: usize,
}

/// Case context of a state-semantic switch arm.
#[derive(Debug, Clone, Copy, PartialEq, Eq, Structural)]
pub struct SemStateCaseContext {
    pub state: usize,
}

/// Case context of a reduce-semantic switch arm.
#[derive(Debug, Clone, Copy, PartialEq, Eq, Structural)]
pub struct SemReduceCaseContext {
    pub ruleno: usize,
}

/// Body context of a semantic action.
#[derive(Debug, Clone, PartialEq, Eq)]
pub struct SemBodyContext {
    pub semantic: Semantic,
    pub semantic_name: String,
    pub semantic_body: String,
}

/// Flat union of a case context and a body context, for the one-line
/// template form.
#[derive(Debug, Clone, PartialEq, Eq)]
pub struct SemContext<C> {
    pub case: C,
    pub body: SemBodyContext,
}

} // verus!
