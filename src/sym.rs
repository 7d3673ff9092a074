//! The symbol type.
use vstd::prelude::*;

verus! {

/// The value reserved as a delimiter: no node is ever given it.
pub const RESERVED_SYMBOL: u32 = 0xFFFF_FFFF;

/// An opaque 32-bit handle for an interned label.
#[derive(Clone, Copy, PartialEq, Eq, Structural, PartialOrd, Ord, Hash, Debug)]
pub struct Sym(pub(crate) u32);

impl Sym {
    pub open(crate) spec fn value(self) -> u32 {
        self.0
    }

    /// The reserved symbol, which stands for no node.
    pub fn reserved() -> (r: Sym)
        ensures
            r.value() == RESERVED_SYMBOL,
    {
        Sym(RESERVED_SYMBOL)
    }

    pub fn new(v: u32) -> (r: Sym)
        ensures
            r.value() == v,
    {
        Sym(v)
    }

    pub fn is_reserved(self) -> (r: bool)
        ensures
            r == (self.value() == RESERVED_SYMBOL),
    {
        self.0 == RESERVED_SYMBOL
    }

    pub fn into_usize(self) -> (r: usize)
        ensures
            r == self.value() as usize,
    {
        self.0 as usize
    }
}

} // verus!
