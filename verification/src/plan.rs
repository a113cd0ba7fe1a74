//! The compiled form of a `(rule, activator)` pair: the arena spans and
//! identifiers a plan is addressed by.
use vstd::prelude::*;

verus! {

/// A slice of one of a plan's arenas.
#[derive(Clone, Copy, PartialEq, Eq, Debug)]
pub struct Span {
    pub start: u32,
    pub len: u32,
}

/// A variable's slot in the register file.
pub type Reg = u16;

/// The register-file ceiling: more distinct variables than this in one
/// `:match` is a compile error rather than a panic.
pub const MAX_REGS: usize = 256;

impl Span {
    /// The span that covers nothing.
    pub fn empty() -> (s: Span)
        ensures
            s.start == 0,
            s.len == 0,
    {
        Span { start: 0, len: 0 }
    }

    /// The arena indices this span covers.
    pub fn range(self) -> (r: std::ops::Range<usize>)
        requires
            self.start + self.len <= u32::MAX,
        ensures
            r.start == self.start,
            r.end == self.start + self.len,
    {
        (self.start as usize)..((self.start + self.len) as usize)
    }

    pub fn is_empty(self) -> (b: bool)
        ensures
            b == (self.len == 0),
    {
        self.len == 0
    }

    pub fn len(self) -> (n: usize)
        ensures
            n == self.len,
    {
        self.len as usize
    }
}

/// One `(or …)` branch: a positive program plus the guards lifted out of it.
#[derive(Clone, Copy, PartialEq, Eq, Debug)]
pub struct Disjunct {
    pub steps: Span,
    pub guards: Span,
    /// Top-level relation steps — the length of the `premises` tuple a match
    /// of this disjunct reports.
    pub n_premises: u16,
    /// A structural encoding of this disjunct's guards.
    pub guard_key: Span,
    /// Relation steps including those inside nested `(absent …)` queries.
    pub n_slots: u16,
}

/// An index into a plan memo.
#[derive(Clone, Copy, PartialEq, Eq, PartialOrd, Ord, Hash, Debug)]
pub struct PlanId(pub u32);

} // verus!
