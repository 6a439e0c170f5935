//! The instruction model: opcodes, register and value operands, and the
//! spec-level shapes they abstract to.

use crate::integer::Integer;
use crate::ir::Ir;
use vstd::prelude::*;

verus! {

/// Spec-level register operand: a direct cell index, or the cell whose
/// index is read from another cell.
pub enum RegS {
    Direct(nat),
    Indirect(nat),
}

/// Spec-level read operand: a constant word value or a register.
pub enum ValS {
    Constant(int),
    Register(RegS),
}

/// Spec-level instruction: the instruction with its operands as plain
/// mathematical values. Views of [`Instruction`] land here, and the
/// machine's semantics is stated over this type alone.
pub enum InstS {
    Read,
    Write,
    Load(ValS),
    Store(RegS),
    Increment(RegS),
    Decrement(RegS),
    Add(ValS),
    Sub(ValS),
    Mul(ValS),
    Div(ValS),
    Mod(ValS),
    Jump(nat),
    JumpZero(nat),
    JumpLtz(nat),
    JumpGtz(nat),
    Stop,
    Nop,
}

impl InstS {
    /// Whether this instruction is one of the four jumps.
    pub open spec fn is_jump_s(self) -> bool {
        match self {
            InstS::Jump(_) | InstS::JumpZero(_) | InstS::JumpLtz(_) | InstS::JumpGtz(_) => true,
            _ => false,
        }
    }

    /// The target of this instruction, if it is a jump.
    pub open spec fn jump_s(self) -> Option<nat> {
        match self {
            InstS::Jump(a) | InstS::JumpZero(a) | InstS::JumpLtz(a) | InstS::JumpGtz(a) => Some(
                a,
            ),
            _ => None,
        }
    }

    /// The same jump with another target; any other instruction unchanged.
    pub open spec fn with_target(self, a: nat) -> InstS {
        match self {
            InstS::Jump(_) => InstS::Jump(a),
            InstS::JumpZero(_) => InstS::JumpZero(a),
            InstS::JumpLtz(_) => InstS::JumpLtz(a),
            InstS::JumpGtz(_) => InstS::JumpGtz(a),
            _ => self,
        }
    }
}

/// A memory location, tagged with the capability the instruction that
/// holds it is granted: read-only, write-only or read-write.
pub trait Loc: Sized + Copy {
    /// The raw cell index.
    spec fn adr_v(self) -> nat;

    /// Builds a location from a raw cell index.
    fn from_raw(adr: usize) -> (r: Self)
        ensures
            r.adr_v() == adr,
    ;

    /// The raw cell index.
    fn raw(self) -> (r: usize)
        ensures
            r == self.adr_v(),
    ;

    /// Locations with equal indices are equal.
    proof fn lemma_adr_injective(a: Self, b: Self)
        requires
            a.adr_v() == b.adr_v(),
        ensures
            a == b,
    ;
}

/// Read-only memory location.
#[derive(Clone, Copy, PartialEq, Eq, Structural, Hash, Debug)]
pub struct RoLoc(pub usize);

/// Write-only memory location.
#[derive(Clone, Copy, PartialEq, Eq, Structural, Hash, Debug)]
pub struct WoLoc(pub usize);

/// Read-write memory location.
#[derive(Clone, Copy, PartialEq, Eq, Structural, Hash, Debug)]
pub struct RwLoc(pub usize);

impl Loc for RoLoc {
    open spec fn adr_v(self) -> nat {
        self.0 as nat
    }

    fn from_raw(adr: usize) -> Self {
        RoLoc(adr)
    }

    fn raw(self) -> usize {
        self.0
    }

    proof fn lemma_adr_injective(a: Self, b: Self) {
    }
}

impl Loc for WoLoc {
    open spec fn adr_v(self) -> nat {
        self.0 as nat
    }

    fn from_raw(adr: usize) -> Self {
        WoLoc(adr)
    }

    fn raw(self) -> usize {
        self.0
    }

    proof fn lemma_adr_injective(a: Self, b: Self) {
    }
}

impl Loc for RwLoc {
    open spec fn adr_v(self) -> nat {
        self.0 as nat
    }

    fn from_raw(adr: usize) -> Self {
        RwLoc(adr)
    }

    fn raw(self) -> usize {
        self.0
    }

    proof fn lemma_adr_injective(a: Self, b: Self) {
    }
}

/// A register operand.
///
/// The value is read or written either directly in the named cell, or in
/// the cell whose index is the current value of the named cell.
#[derive(Clone, Copy, PartialEq, Eq, Hash, Debug)]
pub enum Register<L: Loc> {
    /// The value is read/written directly in this cell.
    Direct(L),
    /// The value is read/written in the cell this cell points to.
    Indirect(RoLoc),
}

impl<L: Loc> View for Register<L> {
    type V = RegS;

    open spec fn view(&self) -> RegS {
        match *self {
            Register::Direct(l) => RegS::Direct(l.adr_v()),
            Register::Indirect(l) => RegS::Indirect(l.adr_v()),
        }
    }
}

impl<L: Loc> Register<L> {
    /// The raw index of the named cell, whichever the addressing mode.
    pub fn adr(&self) -> (r: usize)
        ensures
            self@ matches RegS::Direct(a) ==> r == a,
            self@ matches RegS::Indirect(a) ==> r == a,
    {
        match *self {
            Register::Direct(l) => l.raw(),
            Register::Indirect(l) => l.raw(),
        }
    }
}

impl Register<RwLoc> {
    /// The read-only variant of this register operand, as spec-level value.
    pub open spec fn spec_downgrade(self) -> Register<RoLoc> {
        match self {
            Register::Direct(l) => Register::Direct(RoLoc(l.0)),
            Register::Indirect(l) => Register::Indirect(l),
        }
    }

    /// Downgrades this register operand to read-only.
    pub fn downgrade(self) -> (r: Register<RoLoc>)
        ensures
            r == self.spec_downgrade(),
            r@ == self@,
    {
        match self {
            Register::Direct(l) => Register::Direct(RoLoc(l.0)),
            Register::Indirect(l) => Register::Indirect(l),
        }
    }
}

/// A read operand: either the value of a register, or a constant.
#[derive(Clone, Copy, PartialEq, Eq, Hash, Debug)]
pub enum Value<T: Integer> {
    Constant(T),
    Register(Register<RoLoc>),
}

impl<T: Integer> View for Value<T> {
    type V = ValS;

    open spec fn view(&self) -> ValS {
        match *self {
            Value::Constant(c) => ValS::Constant(c.v()),
            Value::Register(r) => ValS::Register(r@),
        }
    }
}

/// Where a jump instruction can land: an instruction index.
pub type Address = Ir;

/// One machine instruction.
#[derive(Clone, Copy, PartialEq, Eq, Hash, Debug)]
pub enum Instruction<T: Integer> {
    Read,
    Write,
    Load(Value<T>),
    Store(Register<WoLoc>),
    Increment(Register<RwLoc>),
    Decrement(Register<RwLoc>),
    Add(Value<T>),
    Sub(Value<T>),
    Mul(Value<T>),
    Div(Value<T>),
    Mod(Value<T>),
    Jump(Address),
    JumpZero(Address),
    JumpLtz(Address),
    JumpGtz(Address),
    Stop,
    Nop,
}

impl<T: Integer> View for Instruction<T> {
    type V = InstS;

    open spec fn view(&self) -> InstS {
        match *self {
            Instruction::Read => InstS::Read,
            Instruction::Write => InstS::Write,
            Instruction::Load(v) => InstS::Load(v@),
            Instruction::Store(r) => InstS::Store(r@),
            Instruction::Increment(r) => InstS::Increment(r@),
            Instruction::Decrement(r) => InstS::Decrement(r@),
            Instruction::Add(v) => InstS::Add(v@),
            Instruction::Sub(v) => InstS::Sub(v@),
            Instruction::Mul(v) => InstS::Mul(v@),
            Instruction::Div(v) => InstS::Div(v@),
            Instruction::Mod(v) => InstS::Mod(v@),
            Instruction::Jump(a) => InstS::Jump(a@),
            Instruction::JumpZero(a) => InstS::JumpZero(a@),
            Instruction::JumpLtz(a) => InstS::JumpLtz(a@),
            Instruction::JumpGtz(a) => InstS::JumpGtz(a@),
            Instruction::Stop => InstS::Stop,
            Instruction::Nop => InstS::Nop,
        }
    }
}

impl<T: Integer> Instruction<T> {
    /// The read operand of this instruction, if any.
    pub open spec fn spec_value(self) -> Option<Value<T>> {
        match self {
            Instruction::Load(v) | Instruction::Add(v) | Instruction::Sub(v) | Instruction::Mul(
                v,
            ) | Instruction::Div(v) | Instruction::Mod(v) => Some(v),
            _ => None,
        }
    }

    /// Returns the value read by this instruction, if any.
    pub fn value(self) -> (r: Option<Value<T>>)
        ensures
            r == self.spec_value(),
    {
        match self {
            Instruction::Load(v) | Instruction::Add(v) | Instruction::Sub(v) | Instruction::Mul(
                v,
            ) | Instruction::Div(v) | Instruction::Mod(v) => Some(v),
            _ => None,
        }
    }

    /// The first register read by this instruction, if any.
    pub open spec fn spec_register(self) -> Option<Register<RoLoc>> {
        match self {
            Instruction::Load(v) | Instruction::Add(v) | Instruction::Sub(v) | Instruction::Mul(
                v,
            ) | Instruction::Div(v) | Instruction::Mod(v) => match v {
                Value::Constant(_) => None,
                Value::Register(reg) => Some(reg),
            },
            Instruction::Increment(reg) | Instruction::Decrement(reg) => Some(
                reg.spec_downgrade(),
            ),
            _ => None,
        }
    }

    /// Returns the first register read by this instruction, if any.
    pub fn register(self) -> (r: Option<Register<RoLoc>>)
        ensures
            r == self.spec_register(),
    {
        match self {
            Instruction::Load(v) | Instruction::Add(v) | Instruction::Sub(v) | Instruction::Mul(
                v,
            ) | Instruction::Div(v) | Instruction::Mod(v) => match v {
                Value::Constant(_) => None,
                Value::Register(reg) => Some(reg),
            },
            Instruction::Increment(reg) | Instruction::Decrement(reg) => Some(reg.downgrade()),
            _ => None,
        }
    }

    /// The address this instruction jumps to, if any.
    pub open spec fn spec_jump(self) -> Option<Address> {
        match self {
            Instruction::Jump(a) | Instruction::JumpZero(a) | Instruction::JumpLtz(a)
            | Instruction::JumpGtz(a) => Some(a),
            _ => None,
        }
    }

    /// Returns the address this instruction jumps to, if any.
    pub fn jump(self) -> (r: Option<Address>)
        ensures
            r == self.spec_jump(),
            r is Some <==> self@.is_jump_s(),
            r matches Some(a) ==> self@.jump_s() == Some(a@),
    {
        match self {
            Instruction::Jump(a) | Instruction::JumpZero(a) | Instruction::JumpLtz(a)
            | Instruction::JumpGtz(a) => Some(a),
            _ => None,
        }
    }

    /// Returns whether this instruction is a jump.
    pub fn is_jump(&self) -> (r: bool)
        ensures
            r <==> self@.is_jump_s(),
    {
        match *self {
            Instruction::Jump(_) | Instruction::JumpZero(_) | Instruction::JumpLtz(_)
            | Instruction::JumpGtz(_) => true,
            _ => false,
        }
    }

    /// The same jump with another target; any other instruction unchanged.
    pub fn with_target(self, a: Address) -> (r: Instruction<T>)
        ensures
            r@ == self@.with_target(a@),
            !self@.is_jump_s() ==> r == self,
    {
        match self {
            Instruction::Jump(_) => Instruction::Jump(a),
            Instruction::JumpZero(_) => Instruction::JumpZero(a),
            Instruction::JumpLtz(_) => Instruction::JumpLtz(a),
            Instruction::JumpGtz(_) => Instruction::JumpGtz(a),
            _ => self,
        }
    }

    /// Whether a diagnostic for a failure of this instruction should show
    /// the accumulator.
    pub fn should_print_acc(&self) -> (r: bool)
        ensures
            r <==> (self@ matches InstS::Add(_) || self@ matches InstS::Sub(_)
                || self@ matches InstS::Mul(_) || self@ matches InstS::Div(_)
                || self@ matches InstS::Mod(_) || self@ matches InstS::JumpZero(_)
                || self@ matches InstS::JumpLtz(_) || self@ matches InstS::JumpGtz(_)),
    {
        match *self {
            Instruction::Add(_) | Instruction::Sub(_) | Instruction::Mul(_) | Instruction::Div(_)
            | Instruction::Mod(_) | Instruction::JumpZero(_) | Instruction::JumpLtz(_)
            | Instruction::JumpGtz(_) => true,
            _ => false,
        }
    }
}

impl<T: Integer> Default for Instruction<T> {
    /// The default instruction is `NOP`.
    fn default() -> (r: Self)
        ensures
            r == Instruction::<T>::Nop,
    {
        Instruction::Nop
    }
}

} // verus!
