//! The machine's semantics: an abstract state and a small-step transition
//! function over spec-level instructions. The interpreter is proved to
//! follow this machine step by step, so determinism, bit-exactness and
//! the treatment of uninitialized cells are all settled here.

use crate::error::ErrS;
use crate::inst::{InstS, RegS, ValS};
use vstd::prelude::*;

verus! {

/// A direct write target of an instruction stays strictly under
/// `usize::MAX`, so the register file can grow to hold it.
pub open spec fn inst_target_ok(i: InstS) -> bool {
    match i {
        InstS::Store(RegS::Direct(a)) => a < usize::MAX,
        InstS::Increment(RegS::Direct(a)) => a < usize::MAX,
        InstS::Decrement(RegS::Direct(a)) => a < usize::MAX,
        _ => true,
    }
}

/// Every direct write target of the code is a usable cell index.
pub open spec fn targets_ok(c: Seq<InstS>) -> bool {
    forall|i: int| 0 <= i < c.len() ==> inst_target_ok(#[trigger] c[i])
}

/// The abstract state of a running machine.
#[verifier::ext_equal]
pub struct StateS {
    /// The initialized cells; a key absent from the map is an
    /// uninitialized cell. Cell `0` is the accumulator.
    pub mem: Map<nat, int>,
    /// The input not yet consumed.
    pub input: Seq<int>,
    /// The output produced so far.
    pub output: Seq<int>,
    /// The program counter.
    pub ir: nat,
}

/// An arithmetic opcode of the accumulator instructions.
#[derive(Clone, Copy, PartialEq, Eq, Structural, Debug)]
pub enum OpS {
    Add,
    Sub,
    Mul,
    Div,
    Mod,
}

/// The predicate of a conditional jump.
#[derive(Clone, Copy, PartialEq, Eq, Structural, Debug)]
pub enum CondS {
    Zero,
    Ltz,
    Gtz,
}

/// Whether a cell value can serve as a cell or instruction index.
/// Indices must stay strictly under `usize::MAX` so that the register
/// file can always grow one cell past them.
pub open spec fn addr_ok(x: int) -> bool {
    0 <= x < usize::MAX
}

/// Reading a register operand: an absent key is an uninitialized cell,
/// never a fabricated zero.
pub open spec fn read_reg_s(mem: Map<nat, int>, r: RegS) -> Result<int, ErrS> {
    match r {
        RegS::Direct(a) => if mem.contains_key(a) {
            Ok(mem[a])
        } else {
            Err(ErrS::ReadUninit(a))
        },
        RegS::Indirect(a) => if !mem.contains_key(a) {
            Err(ErrS::ReadUninit(a))
        } else {
            let p = mem[a];
            if !addr_ok(p) {
                Err(ErrS::InvalidAddress(p))
            } else if mem.contains_key(p as nat) {
                Ok(mem[p as nat])
            } else {
                Err(ErrS::ReadUninit(p as nat))
            }
        },
    }
}

/// Reading a value operand.
pub open spec fn read_val_s(mem: Map<nat, int>, v: ValS) -> Result<int, ErrS> {
    match v {
        ValS::Constant(c) => Ok(c),
        ValS::Register(r) => read_reg_s(mem, r),
    }
}

/// The cell a write through the given register operand lands in.
pub open spec fn write_loc_s(mem: Map<nat, int>, r: RegS) -> Result<nat, ErrS> {
    match r {
        RegS::Direct(a) => Ok(a),
        RegS::Indirect(a) => if !mem.contains_key(a) {
            Err(ErrS::ReadUninit(a))
        } else {
            let p = mem[a];
            if addr_ok(p) {
                Ok(p as nat)
            } else {
                Err(ErrS::InvalidAddress(p))
            }
        },
    }
}

/// Reading the accumulator.
pub open spec fn read_acc_s(mem: Map<nat, int>) -> Result<int, ErrS> {
    read_reg_s(mem, RegS::Direct(0))
}

/// Whether the checked arithmetic operation succeeds on a word range
/// `[lo, hi]`. A zero divisor fails, and so does the smallest word
/// taken modulo `-1`, mirroring the word type's checked remainder.
pub open spec fn arith_ok(op: OpS, a: int, b: int, lo: int, hi: int) -> bool {
    match op {
        OpS::Add => lo <= a + b <= hi,
        OpS::Sub => lo <= a - b <= hi,
        OpS::Mul => lo <= a * b <= hi,
        OpS::Div => b != 0 && lo <= crate::integer::tdiv(a, b) <= hi,
        OpS::Mod => b != 0 && !(a == lo && b == -1),
    }
}

/// The value of the arithmetic operation, when it succeeds.
pub open spec fn arith_val(op: OpS, a: int, b: int) -> int {
    match op {
        OpS::Add => a + b,
        OpS::Sub => a - b,
        OpS::Mul => a * b,
        OpS::Div => crate::integer::tdiv(a, b),
        OpS::Mod => crate::integer::tmod(a, b),
    }
}

/// The arithmetic opcode of an instruction, if it has one.
pub open spec fn inst_op(i: InstS) -> Option<(OpS, ValS)> {
    match i {
        InstS::Add(v) => Some((OpS::Add, v)),
        InstS::Sub(v) => Some((OpS::Sub, v)),
        InstS::Mul(v) => Some((OpS::Mul, v)),
        InstS::Div(v) => Some((OpS::Div, v)),
        InstS::Mod(v) => Some((OpS::Mod, v)),
        _ => None,
    }
}

/// Falling through to the next instruction. Past the last one this is
/// the `Eof` error — raised only after the instruction's own effects,
/// which the error state keeps.
pub open spec fn advance_s(c: Seq<InstS>, s: StateS) -> Result<StateS, (StateS, ErrS)> {
    if s.ir + 1 < c.len() {
        Ok(StateS { ir: s.ir + 1, ..s })
    } else {
        Err((StateS { ir: s.ir + 1, ..s }, ErrS::Eof))
    }
}

/// Taking a jump to target `t`.
pub open spec fn jump_to_s(c: Seq<InstS>, s: StateS, t: nat) -> Result<StateS, (StateS, ErrS)> {
    if t < c.len() {
        Ok(StateS { ir: t, ..s })
    } else {
        Err((s, ErrS::InexistentJump))
    }
}

/// Whether the machine has reached a `STOP`.
pub open spec fn halted(c: Seq<InstS>, s: StateS) -> bool {
    s.ir < c.len() && c[s.ir as int] is Stop
}

/// One step of the machine with word range `[lo, hi]`: the effect of the
/// instruction under the program counter. The error case carries the
/// state the failed step leaves behind: unchanged for every error the
/// instruction itself raises, but with the instruction's effects kept
/// for the `Eof` raised after a final instruction without `STOP`.
pub open spec fn step_s(c: Seq<InstS>, lo: int, hi: int, s: StateS) -> Result<
    StateS,
    (StateS, ErrS),
>
    recommends
        s.ir < c.len(),
{
    match c[s.ir as int] {
        InstS::Read => if s.input.len() == 0 {
            Err((s, ErrS::ReadEof))
        } else {
            advance_s(
                c,
                StateS { mem: s.mem.insert(0, s.input[0]), input: s.input.skip(1), ..s },
            )
        },
        InstS::Write => match read_acc_s(s.mem) {
            Ok(a) => advance_s(c, StateS { output: s.output.push(a), ..s }),
            Err(e) => Err((s, e)),
        },
        InstS::Load(v) => match read_val_s(s.mem, v) {
            Ok(x) => advance_s(c, StateS { mem: s.mem.insert(0, x), ..s }),
            Err(e) => Err((s, e)),
        },
        InstS::Store(r) => match read_acc_s(s.mem) {
            Ok(a) => match write_loc_s(s.mem, r) {
                Ok(t) => advance_s(c, StateS { mem: s.mem.insert(t, a), ..s }),
                Err(e) => Err((s, e)),
            },
            Err(e) => Err((s, e)),
        },
        InstS::Increment(r) => step_unop_s(c, lo, hi, s, r, 1),
        InstS::Decrement(r) => step_unop_s(c, lo, hi, s, r, -1),
        InstS::Add(v) => step_binop_s(c, lo, hi, s, OpS::Add, v),
        InstS::Sub(v) => step_binop_s(c, lo, hi, s, OpS::Sub, v),
        InstS::Mul(v) => step_binop_s(c, lo, hi, s, OpS::Mul, v),
        InstS::Div(v) => step_binop_s(c, lo, hi, s, OpS::Div, v),
        InstS::Mod(v) => step_binop_s(c, lo, hi, s, OpS::Mod, v),
        InstS::Jump(t) => jump_to_s(c, s, t),
        InstS::JumpZero(t) => step_cond_jump_s(c, s, t, CondS::Zero),
        InstS::JumpLtz(t) => step_cond_jump_s(c, s, t, CondS::Ltz),
        InstS::JumpGtz(t) => step_cond_jump_s(c, s, t, CondS::Gtz),
        InstS::Stop => Ok(s),
        InstS::Nop => advance_s(c, s),
    }
}

/// The predicate of a conditional jump on the accumulator value.
pub open spec fn jump_pred_s(sel: CondS, a: int) -> bool {
    match sel {
        CondS::Zero => a == 0,
        CondS::Ltz => a < 0,
        CondS::Gtz => a > 0,
    }
}

/// A conditional jump: read the accumulator, then either take the jump
/// or fall through.
pub open spec fn step_cond_jump_s(c: Seq<InstS>, s: StateS, t: nat, sel: CondS) -> Result<
    StateS,
    (StateS, ErrS),
> {
    match read_acc_s(s.mem) {
        Ok(a) => if jump_pred_s(sel, a) {
            jump_to_s(c, s, t)
        } else {
            advance_s(c, s)
        },
        Err(e) => Err((s, e)),
    }
}

/// `INC` or `DEC`: read the operand cell, add `delta` checked, write back.
pub open spec fn step_unop_s(
    c: Seq<InstS>,
    lo: int,
    hi: int,
    s: StateS,
    r: RegS,
    delta: int,
) -> Result<StateS, (StateS, ErrS)> {
    match write_loc_s(s.mem, r) {
        Ok(t) => if !s.mem.contains_key(t) {
            Err((s, ErrS::ReadUninit(t)))
        } else {
            let x = s.mem[t] + delta;
            if lo <= x <= hi {
                advance_s(c, StateS { mem: s.mem.insert(t, x), ..s })
            } else {
                Err((s, ErrS::IntegerOverflow))
            }
        },
        Err(e) => Err((s, e)),
    }
}

/// An arithmetic instruction on the accumulator: read the accumulator,
/// read the operand, apply the checked operation, store the result.
pub open spec fn step_binop_s(
    c: Seq<InstS>,
    lo: int,
    hi: int,
    s: StateS,
    op: OpS,
    v: ValS,
) -> Result<StateS, (StateS, ErrS)> {
    match read_acc_s(s.mem) {
        Ok(a) => match read_val_s(s.mem, v) {
            Ok(b) => if arith_ok(op, a, b, lo, hi) {
                advance_s(c, StateS { mem: s.mem.insert(0, arith_val(op, a, b)), ..s })
            } else {
                Err((s, ErrS::IntegerOverflow))
            },
            Err(e) => Err((s, e)),
        },
        Err(e) => Err((s, e)),
    }
}

/// `n` steps of the machine. A halted machine stays put, and an error is
/// absorbing, so the outcome of a run is unique once it is final.
pub open spec fn run_n(c: Seq<InstS>, lo: int, hi: int, s: StateS, n: nat) -> Result<
    StateS,
    (StateS, ErrS),
>
    decreases n,
{
    if n == 0 {
        Ok(s)
    } else {
        match run_n(c, lo, hi, s, (n - 1) as nat) {
            Ok(s1) => if halted(c, s1) {
                Ok(s1)
            } else {
                step_s(c, lo, hi, s1)
            },
            Err(e) => Err(e),
        }
    }
}

/// Whether an outcome is final: an error, or a halted machine.
pub open spec fn final_outcome(c: Seq<InstS>, r: Result<StateS, (StateS, ErrS)>) -> bool {
    match r {
        Ok(s) => halted(c, s),
        Err(_) => true,
    }
}

/// A final outcome is absorbing: running any longer changes nothing.
pub proof fn lemma_run_n_absorbs(c: Seq<InstS>, lo: int, hi: int, s: StateS, n1: nat, n2: nat)
    requires
        n1 <= n2,
        final_outcome(c, run_n(c, lo, hi, s, n1)),
    ensures
        run_n(c, lo, hi, s, n2) == run_n(c, lo, hi, s, n1),
    decreases n2,
{
    if n1 < n2 {
        lemma_run_n_absorbs(c, lo, hi, s, n1, (n2 - 1) as nat);
    }
}

/// Determinism: the machine's final outcome from a given code and state
/// is unique, whatever number of steps each run took to reach it.
pub proof fn lemma_run_deterministic(
    c: Seq<InstS>,
    lo: int,
    hi: int,
    s: StateS,
    n1: nat,
    n2: nat,
)
    requires
        final_outcome(c, run_n(c, lo, hi, s, n1)),
        final_outcome(c, run_n(c, lo, hi, s, n2)),
    ensures
        run_n(c, lo, hi, s, n1) == run_n(c, lo, hi, s, n2),
{
    if n1 <= n2 {
        lemma_run_n_absorbs(c, lo, hi, s, n1, n2);
    } else {
        lemma_run_n_absorbs(c, lo, hi, s, n2, n1);
    }
}

/// Uninit non-fabrication: reading a cell that was never written yields
/// `ReadUninit` for that cell, never a made-up value.
pub proof fn lemma_uninit_read(mem: Map<nat, int>, a: nat)
    requires
        !mem.contains_key(a),
    ensures
        read_reg_s(mem, RegS::Direct(a)) == Err::<int, ErrS>(ErrS::ReadUninit(a)),
{
}

/// Uninit non-fabrication at the machine level: loading from a cell
/// that was never written steps to `ReadUninit` for that very cell,
/// and writing out a never-written accumulator does too. Every other
/// reading instruction goes through [`read_reg_s`] just the same.
pub proof fn lemma_step_uninit(c: Seq<InstS>, lo: int, hi: int, s: StateS, a: nat)
    requires
        s.ir < c.len(),
        !s.mem.contains_key(a),
    ensures
        c[s.ir as int] == InstS::Load(ValS::Register(RegS::Direct(a))) ==> step_s(c, lo, hi, s)
            == Err::<StateS, (StateS, ErrS)>((s, ErrS::ReadUninit(a))),
        c[s.ir as int] == InstS::Write && a == 0 ==> step_s(c, lo, hi, s) == Err::<
            StateS,
            (StateS, ErrS),
        >((s, ErrS::ReadUninit(0))),
{
}

/// Bit-exactness, error half: an arithmetic instruction whose exact
/// result leaves the word range steps to `IntegerOverflow`.
pub proof fn lemma_arith_overflow(
    c: Seq<InstS>,
    lo: int,
    hi: int,
    s: StateS,
    op: OpS,
    v: ValS,
    a: int,
    b: int,
)
    requires
        s.ir < c.len(),
        inst_op(c[s.ir as int]) == Some((op, v)),
        read_acc_s(s.mem) == Ok::<int, ErrS>(a),
        read_val_s(s.mem, v) == Ok::<int, ErrS>(b),
        !arith_ok(op, a, b, lo, hi),
    ensures
        step_s(c, lo, hi, s) == Err::<StateS, (StateS, ErrS)>((s, ErrS::IntegerOverflow)),
{
}

/// All values of a state lie in the word range `[lo, hi]`.
pub open spec fn state_in_range(s: StateS, lo: int, hi: int) -> bool {
    &&& forall|k: nat| s.mem.contains_key(k) ==> lo <= #[trigger] s.mem[k] <= hi
    &&& forall|i: int| 0 <= i < s.input.len() ==> lo <= #[trigger] s.input[i] <= hi
    &&& forall|i: int| 0 <= i < s.output.len() ==> lo <= #[trigger] s.output[i] <= hi
}

/// Whether every constant operand of the code lies in the word range.
/// Code viewed from a word-typed [`RoCode`](crate::code::RoCode) has
/// this by construction.
pub open spec fn consts_ok(c: Seq<InstS>, lo: int, hi: int) -> bool {
    forall|i: int|
        0 <= i < c.len() ==> match inst_val(#[trigger] c[i]) {
            Some(ValS::Constant(x)) => lo <= x <= hi,
            _ => true,
        }
}

/// The value operand of an instruction, if it has one.
pub open spec fn inst_val(i: InstS) -> Option<ValS> {
    match i {
        InstS::Load(v) | InstS::Add(v) | InstS::Sub(v) | InstS::Mul(v) | InstS::Div(v)
        | InstS::Mod(v) => Some(v),
        _ => None,
    }
}

/// A value read out of an in-range state through an in-range operand is
/// itself in range.
proof fn lemma_read_val_in_range(mem: Map<nat, int>, v: ValS, lo: int, hi: int, x: int)
    requires
        forall|k: nat| mem.contains_key(k) ==> lo <= #[trigger] mem[k] <= hi,
        match v {
            ValS::Constant(cst) => lo <= cst <= hi,
            _ => true,
        },
        read_val_s(mem, v) == Ok::<int, ErrS>(x),
    ensures
        lo <= x <= hi,
{
}

/// Bit-exactness, range half: a step of a machine whose values lie in
/// the word range leaves every value in the word range; the accumulator
/// in particular always carries a representable value.
pub proof fn lemma_step_in_range(c: Seq<InstS>, lo: int, hi: int, s: StateS, s2: StateS)
    requires
        s.ir < c.len(),
        lo <= 0 <= hi,
        state_in_range(s, lo, hi),
        consts_ok(c, lo, hi),
        step_s(c, lo, hi, s) == Ok::<StateS, (StateS, ErrS)>(s2),
    ensures
        state_in_range(s2, lo, hi),
{
    match c[s.ir as int] {
        InstS::Read => {
            assert(s2.mem == s.mem.insert(0, s.input[0]));
            assert(s2.input == s.input.skip(1));
            assert(forall|i: int|
                0 <= i < s2.input.len() ==> #[trigger] s2.input[i] == s.input[i + 1]);
        },
        InstS::Write => {
            let a = read_acc_s(s.mem)->Ok_0;
            assert(s2.output == s.output.push(a));
            assert(forall|i: int|
                0 <= i < s.output.len() ==> #[trigger] s2.output[i] == s.output[i]);
        },
        InstS::Load(v) => {
            let x = read_val_s(s.mem, v)->Ok_0;
            lemma_read_val_in_range(s.mem, v, lo, hi, x);
            assert(s2.mem == s.mem.insert(0, x));
        },
        InstS::Store(r) => {
            let a = read_acc_s(s.mem)->Ok_0;
            let t = write_loc_s(s.mem, r)->Ok_0;
            assert(s2.mem == s.mem.insert(t, a));
        },
        InstS::Increment(r) | InstS::Decrement(r) => {
            let t = write_loc_s(s.mem, r)->Ok_0;
            assert(s2.mem.dom() == s.mem.dom().insert(t));
        },
        InstS::Add(v) | InstS::Sub(v) | InstS::Mul(v) | InstS::Div(v) => {
            let a = read_acc_s(s.mem)->Ok_0;
            let b = read_val_s(s.mem, v)->Ok_0;
            assert(s2.mem == s.mem.insert(0, arith_val(inst_op(c[s.ir as int])->Some_0.0, a, b)));
        },
        InstS::Mod(v) => {
            let a = read_acc_s(s.mem)->Ok_0;
            let b = read_val_s(s.mem, v)->Ok_0;
            crate::integer::lemma_tmod_bounds(a, b);
            assert(s2.mem == s.mem.insert(0, crate::integer::tmod(a, b)));
        },
        _ => {},
    }
}

} // verus!
