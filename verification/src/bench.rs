//! The benchmark-facing vocabulary: the closed operator-kind type shared
//! with storage adapters, and the placeholder backends that run no storage
//! at all (used when no backend is selected).

use crate::MemoError;
use vstd::prelude::*;

verus! {

/// The closed operator kind, with the arity the kind implies: a scan is a
/// leaf, a filter has one child group, a join has two.
#[derive(Debug, Clone, PartialEq, Eq, Hash, Structural)]
pub enum BenchRelNodeTyp {
    Scan,
    Filter,
    Join,
}

/// The single predicate kind adapters attach to expressions.
#[derive(Debug, Clone, PartialEq, Eq, Hash, Structural)]
pub enum BenchPredTyp {
    Data,
}

/// The kind an arity tag denotes, if any.
pub open spec fn kind_of_op(op: usize) -> Option<BenchRelNodeTyp> {
    if op == 0 {
        Some(BenchRelNodeTyp::Scan)
    } else if op == 1 {
        Some(BenchRelNodeTyp::Filter)
    } else if op == 2 {
        Some(BenchRelNodeTyp::Join)
    } else {
        None
    }
}

impl BenchRelNodeTyp {
    /// Every benchmark operator kind is logical.
    pub fn is_logical(&self) -> (r: bool)
        ensures
            r,
    {
        match self {
            BenchRelNodeTyp::Scan => true,
            BenchRelNodeTyp::Filter => true,
            BenchRelNodeTyp::Join => true,
        }
    }

    /// Maps an arity tag to its kind; tags above two denote no kind.
    pub fn from_op(op: usize) -> (r: Option<BenchRelNodeTyp>)
        ensures
            r == kind_of_op(op),
    {
        if op == 0 {
            Some(BenchRelNodeTyp::Scan)
        } else if op == 1 {
            Some(BenchRelNodeTyp::Filter)
        } else if op == 2 {
            Some(BenchRelNodeTyp::Join)
        } else {
            None
        }
    }

    /// The kind's display name.
    pub fn name(&self) -> (r: &'static str)
        ensures
            self is Scan ==> r@ == "Scan"@,
            self is Filter ==> r@ == "Filter"@,
            self is Join ==> r@ == "Join"@,
    {
        match self {
            BenchRelNodeTyp::Scan => "Scan",
            BenchRelNodeTyp::Filter => "Filter",
            BenchRelNodeTyp::Join => "Join",
        }
    }
}

impl BenchPredTyp {
    /// The predicate kind's display name.
    pub fn name(&self) -> (r: &'static str)
        ensures
            r@ == "()"@,
    {
        "()"
    }
}

/// The backend used when none is selected: it accepts every operation and
/// stores nothing.
pub struct BenchNull {}

impl BenchNull {
    pub fn new() -> (r: Result<BenchNull, MemoError>)
        ensures
            r is Ok,
    {
        Ok(BenchNull {  })
    }
}

/// A second storage-free placeholder backend.
pub struct Null {}

impl Null {
    pub fn new() -> (r: Result<Null, MemoError>)
        ensures
            r is Ok,
    {
        Ok(Null {  })
    }
}

} // verus!
