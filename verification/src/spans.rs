//! The record that the replay fills in for each span.
use vstd::prelude::*;

verus! {

/// A named interval of time on one thread, with the span it nests under.
#[derive(Clone, Copy, Debug, PartialEq, Eq)]
pub struct Span {
    pub id: u64,
    pub parent: Option<u64>,
    pub start: u128,
    pub end: u128,
    pub name: &'static str,
    pub execution_thread: usize,
    pub creation_thread: usize,
}

impl Span {
    /// The span `id` before any event has said anything of it.
    pub open spec fn blank(id: u64) -> Span {
        Span {
            id,
            parent: None,
            start: 0,
            end: 0,
            name: "",
            execution_thread: 0,
            creation_thread: 0,
        }
    }

    /// How long the span lasted.
    pub open spec fn duration(self) -> int {
        self.end - self.start
    }

    pub fn new(id: u64) -> (span: Self)
        ensures
            span == Span::blank(id),
    {
        Span {
            id,
            parent: None,
            start: 0,
            end: 0,
            name: "",
            execution_thread: 0,
            creation_thread: 0,
        }
    }
}

} // verus!
