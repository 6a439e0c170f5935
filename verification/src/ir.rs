//! Instruction indices: values of the program counter.

use vstd::prelude::*;

verus! {

/// The value of a program counter: the index of an instruction in a
/// [`RoCode`](crate::code::RoCode).
#[derive(Clone, Copy, PartialEq, Eq, Structural, Hash, Debug)]
pub struct Ir(pub usize);

impl View for Ir {
    type V = nat;

    open spec fn view(&self) -> nat {
        self.0 as nat
    }
}

impl Ir {
    /// Creates a new `Ir` from a raw index.
    pub fn new(ir: usize) -> (r: Ir)
        ensures
            r@ == ir,
    {
        Ir(ir)
    }

    /// The raw index.
    pub fn inner(self) -> (r: usize)
        ensures
            r == self@,
    {
        self.0
    }

    /// Checked addition with a signed offset.
    /// Computes `self + rhs`, returning `None` if the sum leaves `usize`.
    pub fn checked_add_signed(self, rhs: isize) -> (r: Option<Ir>)
        ensures
            r is Some <==> 0 <= self@ + rhs <= usize::MAX,
            r matches Some(i) ==> i@ == self@ + rhs,
    {
        match self.0.checked_add_signed(rhs) {
            Some(s) => Some(Ir(s)),
            None => None,
        }
    }
}

} // verus!
