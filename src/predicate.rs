use vstd::prelude::*;

use crate::bitmask::Bitmask;
use crate::dataset::HybridSearchMetadata;

verus! {

/// The comparison a predicate applies between a vector's attribute and its right-hand side.
#[derive(Clone, Copy, Debug, PartialEq, Eq, Structural)]
pub enum PredicateOp {
    Equals,
}

/// The right-hand side of a predicate: a small unsigned tag.
#[derive(Clone, Copy, Debug, PartialEq, Eq, Structural)]
pub enum PredicateRhs {
    Number(u8),
}

/// A single-attribute predicate such as "attribute equals 10".
#[derive(Clone, Copy, Debug, PartialEq, Eq, Structural)]
pub struct PredicateQuery {
    pub op: PredicateOp,
    pub rhs: PredicateRhs,
}

impl PredicateRhs {
    /// The tag as a mathematical integer.
    pub open spec fn spec_value(self) -> int {
        match self {
            PredicateRhs::Number(n) => n as int,
        }
    }

    /// The tag widened to the attribute type.
    pub fn value(&self) -> (r: i32)
        ensures
            r as int == self.spec_value(),
    {
        match self {
            PredicateRhs::Number(n) => *n as i32,
        }
    }
}

impl PredicateQuery {
    /// Whether an attribute value satisfies this predicate.
    pub open spec fn spec_matches(self, attr: i32) -> bool {
        match self.op {
            PredicateOp::Equals => attr as int == self.rhs.spec_value(),
        }
    }

    /// Creates a predicate that holds where the attribute equals `num`.
    pub fn new(num: u8) -> (r: Self)
        ensures
            r.op == PredicateOp::Equals,
            r.rhs == PredicateRhs::Number(num),
            forall|a: i32| r.spec_matches(a) <==> a as int == num as int,
    {
        PredicateQuery { op: PredicateOp::Equals, rhs: PredicateRhs::Number(num) }
    }

    /// The filter of this predicate over a dataset's attributes.
    pub fn compile(&self, metadata: &HybridSearchMetadata) -> (r: Bitmask)
        ensures
            r.wf(),
            r.view().len() == metadata.view().len(),
            forall|i: int| 0 <= i < r.view().len() ==> r.view()[i] == self.spec_matches(#[trigger] metadata.view()[i]),
    {
        Bitmask::new(self, metadata)
    }

    /// Evaluates the predicate on one attribute value.
    pub fn matches(&self, attr: i32) -> (r: bool)
        ensures
            r == self.spec_matches(attr),
    {
        match self.op {
            PredicateOp::Equals => attr == self.rhs.value(),
        }
    }
}

} // verus!
