//! The read-only code segment: an ordered sequence of instructions
//! addressed by [`Ir`].

use crate::inst::{InstS, Instruction};
use crate::integer::Integer;
use crate::ir::Ir;
use vstd::prelude::*;

verus! {

/// A read-only code segment.
///
/// It may be executed with [`Ram`](crate::runner::Ram) and rewritten with
/// [`WoCode`](crate::rw::WoCode). Once constructed it is never modified;
/// every rewrite produces a fresh `RoCode`.
#[derive(Clone, PartialEq, Eq, Hash, Debug)]
pub struct RoCode<T: Integer>(pub Vec<Instruction<T>>);

impl<T: Integer> View for RoCode<T> {
    type V = Seq<InstS>;

    open spec fn view(&self) -> Seq<InstS> {
        Seq::new(self.0@.len(), |i: int| self.0@[i]@)
    }
}

impl<T: Integer> RoCode<T> {
    /// The instructions themselves, as spec-level sequence.
    pub open spec fn insts(&self) -> Seq<Instruction<T>> {
        self.0@
    }

    /// Builds a code segment from a vector of instructions.
    pub fn new(insts: Vec<Instruction<T>>) -> (r: RoCode<T>)
        ensures
            r.insts() == insts@,
    {
        RoCode(insts)
    }

    /// The number of instructions.
    pub fn len(&self) -> (r: usize)
        ensures
            r == self@.len(),
    {
        self.0.len()
    }

    /// The instruction at the given index, or `None` past the end.
    pub fn get(&self, ir: Ir) -> (r: Option<Instruction<T>>)
        ensures
            r is Some <==> ir@ < self@.len(),
            r matches Some(i) ==> i == self.insts()[ir@ as int] && i@ == self@[ir@ as int],
    {
        let i = ir.inner();
        if i < self.0.len() {
            Some(self.0[i])
        } else {
            None
        }
    }

    /// A copy of the instructions, in order.
    pub fn iter(&self) -> (r: Vec<Instruction<T>>)
        ensures
            r@ == self.insts(),
    {
        let mut out: Vec<Instruction<T>> = Vec::new();
        let mut i: usize = 0;
        while i < self.0.len()
            invariant
                i <= self.0.len(),
                out@ == self.0@.take(i as int),
            decreases self.0.len() - i,
        {
            out.push(self.0[i]);
            i += 1;
            proof {
                assert(out@ == self.0@.take(i as int));
            }
        }
        proof {
            assert(self.0@.take(self.0@.len() as int) == self.0@);
        }
        out
    }

    /// A copy of the instructions, each with its index.
    pub fn enumerate(&self) -> (r: Vec<(Ir, Instruction<T>)>)
        ensures
            r@.len() == self@.len(),
            forall|k: int|
                0 <= k < r@.len() ==> (#[trigger] r@[k]).0@ == k && r@[k].1 == self.insts()[k],
    {
        let mut out: Vec<(Ir, Instruction<T>)> = Vec::new();
        let mut i: usize = 0;
        while i < self.0.len()
            invariant
                i <= self.0.len(),
                out@.len() == i,
                forall|k: int|
                    0 <= k < i ==> (#[trigger] out@[k]).0@ == k && out@[k].1 == self.0@[k],
            decreases self.0.len() - i,
        {
            out.push((Ir::new(i), self.0[i]));
            i += 1;
        }
        out
    }
}

/// How an instruction of one word type corresponds to an instruction
/// of another under the constant-mapping function `f`: same opcode,
/// same registers and jump targets, and each constant some possible
/// result of `f` on the original constant.
pub open spec fn inst_mapped<T: Integer, U: Integer, F: Fn(T) -> U>(
    f: F,
    a: Instruction<T>,
    b: Instruction<U>,
) -> bool {
    match (a, b) {
        (Instruction::Read, Instruction::Read) => true,
        (Instruction::Write, Instruction::Write) => true,
        (Instruction::Load(v), Instruction::Load(w)) => value_mapped(f, v, w),
        (Instruction::Store(r1), Instruction::Store(r2)) => r1 == r2,
        (Instruction::Increment(r1), Instruction::Increment(r2)) => r1 == r2,
        (Instruction::Decrement(r1), Instruction::Decrement(r2)) => r1 == r2,
        (Instruction::Add(v), Instruction::Add(w)) => value_mapped(f, v, w),
        (Instruction::Sub(v), Instruction::Sub(w)) => value_mapped(f, v, w),
        (Instruction::Mul(v), Instruction::Mul(w)) => value_mapped(f, v, w),
        (Instruction::Div(v), Instruction::Div(w)) => value_mapped(f, v, w),
        (Instruction::Mod(v), Instruction::Mod(w)) => value_mapped(f, v, w),
        (Instruction::Jump(x), Instruction::Jump(y)) => x == y,
        (Instruction::JumpZero(x), Instruction::JumpZero(y)) => x == y,
        (Instruction::JumpLtz(x), Instruction::JumpLtz(y)) => x == y,
        (Instruction::JumpGtz(x), Instruction::JumpGtz(y)) => x == y,
        (Instruction::Stop, Instruction::Stop) => true,
        (Instruction::Nop, Instruction::Nop) => true,
        _ => false,
    }
}

/// The value-operand half of [`inst_mapped`].
pub open spec fn value_mapped<T: Integer, U: Integer, F: Fn(T) -> U>(
    f: F,
    a: crate::inst::Value<T>,
    b: crate::inst::Value<U>,
) -> bool {
    match (a, b) {
        (crate::inst::Value::Constant(c), crate::inst::Value::Constant(d)) => call_ensures(
            f,
            (c,),
            d,
        ),
        (crate::inst::Value::Register(r1), crate::inst::Value::Register(r2)) => r1 == r2,
        _ => false,
    }
}

/// Maps one instruction's constant through the function; everything
/// else is carried over unchanged.
fn map_inst<T: Integer, U: Integer, F: Fn(T) -> U>(f: &F, a: Instruction<T>) -> (r: Instruction<
    U,
>)
    requires
        forall|c: T| #[trigger] call_requires(*f, (c,)),
    ensures
        inst_mapped(*f, a, r),
{
    match a {
        Instruction::Read => Instruction::Read,
        Instruction::Write => Instruction::Write,
        Instruction::Load(v) => Instruction::Load(map_value(f, v)),
        Instruction::Store(reg) => Instruction::Store(reg),
        Instruction::Increment(reg) => Instruction::Increment(reg),
        Instruction::Decrement(reg) => Instruction::Decrement(reg),
        Instruction::Add(v) => Instruction::Add(map_value(f, v)),
        Instruction::Sub(v) => Instruction::Sub(map_value(f, v)),
        Instruction::Mul(v) => Instruction::Mul(map_value(f, v)),
        Instruction::Div(v) => Instruction::Div(map_value(f, v)),
        Instruction::Mod(v) => Instruction::Mod(map_value(f, v)),
        Instruction::Jump(a2) => Instruction::Jump(a2),
        Instruction::JumpZero(a2) => Instruction::JumpZero(a2),
        Instruction::JumpLtz(a2) => Instruction::JumpLtz(a2),
        Instruction::JumpGtz(a2) => Instruction::JumpGtz(a2),
        Instruction::Stop => Instruction::Stop,
        Instruction::Nop => Instruction::Nop,
    }
}

/// Maps one value operand's constant through the function.
fn map_value<T: Integer, U: Integer, F: Fn(T) -> U>(f: &F, a: crate::inst::Value<T>) -> (r:
    crate::inst::Value<U>)
    requires
        forall|c: T| #[trigger] call_requires(*f, (c,)),
    ensures
        value_mapped(*f, a, r),
{
    match a {
        crate::inst::Value::Constant(c) => crate::inst::Value::Constant(f(c)),
        crate::inst::Value::Register(reg) => crate::inst::Value::Register(reg),
    }
}

impl<T: Integer> RoCode<T> {
    /// Maps the program to another word type by applying a function to
    /// every constant, keeping registers and jump targets as they are.
    pub fn map<U: Integer, F: Fn(T) -> U>(&self, f: F) -> (r: RoCode<U>)
        requires
            forall|c: T| #[trigger] call_requires(f, (c,)),
        ensures
            r.insts().len() == self.insts().len(),
            forall|i: int|
                0 <= i < self.insts().len() ==> inst_mapped(
                    f,
                    #[trigger] self.insts()[i],
                    r.insts()[i],
                ),
    {
        let mut out: Vec<Instruction<U>> = Vec::new();
        let mut i: usize = 0;
        while i < self.0.len()
            invariant
                i <= self.0@.len(),
                out@.len() == i,
                forall|c: T| #[trigger] call_requires(f, (c,)),
                forall|k: int|
                    0 <= k < i ==> inst_mapped(f, #[trigger] self.0@[k], out@[k]),
            decreases self.0@.len() - i,
        {
            let b = map_inst(&f, self.0[i]);
            out.push(b);
            i += 1;
        }
        RoCode(out)
    }

    /// Maps the program to another word type whose range holds this
    /// one's, preserving every constant's value exactly.
    pub fn cast<U: Integer>(&self) -> (r: RoCode<U>)
        requires
            U::min_v() <= T::min_v(),
            T::max_v() <= U::max_v(),
        ensures
            r@ == self@,
    {
        let mut out: Vec<Instruction<U>> = Vec::new();
        let mut i: usize = 0;
        while i < self.0.len()
            invariant
                i <= self.0@.len(),
                out@.len() == i,
                U::min_v() <= T::min_v(),
                T::max_v() <= U::max_v(),
                forall|k: int| 0 <= k < i ==> #[trigger] out@[k]@ == self.0@[k]@,
            decreases self.0@.len() - i,
        {
            let b = cast_inst::<T, U>(self.0[i]);
            out.push(b);
            i += 1;
        }
        let r = RoCode(out);
        proof {
            assert(r@ =~= self@);
        }
        r
    }

    /// Maps the program to another word type through a fallible
    /// function on constants: the first failure is returned.
    pub fn try_map<U: Integer, E, F: Fn(T) -> Result<U, E>>(&self, f: F) -> (r: Result<
        RoCode<U>,
        E,
    >)
        requires
            forall|c: T| #[trigger] call_requires(f, (c,)),
        ensures
            r matches Ok(c2) ==> c2.insts().len() == self.insts().len() && forall|i: int|
                0 <= i < self.insts().len() ==> inst_try_mapped(
                    f,
                    #[trigger] self.insts()[i],
                    c2.insts()[i],
                ),
            r matches Err(e) ==> exists|i: int|
                0 <= i < self.insts().len() && (#[trigger] const_of(self.insts()[i]) matches
                Some(c) && call_ensures(f, (c,), Err::<U, E>(e))) && forall|j: int|
                    #![trigger const_of(self.insts()[j])]
                    0 <= j < i ==> match const_of(self.insts()[j]) {
                        Some(cj) => exists|d: U| #[trigger] call_ensures(f, (cj,), Ok::<U, E>(d)),
                        None => true,
                    },
    {
        let mut out: Vec<Instruction<U>> = Vec::new();
        let mut i: usize = 0;
        while i < self.0.len()
            invariant
                i <= self.0@.len(),
                out@.len() == i,
                forall|c: T| #[trigger] call_requires(f, (c,)),
                forall|k: int|
                    0 <= k < i ==> inst_try_mapped(f, #[trigger] self.0@[k], out@[k]),
            decreases self.0@.len() - i,
        {
            match try_map_inst(&f, self.0[i]) {
                Ok(b) => {
                    out.push(b);
                },
                Err(e) => {
                    proof {
                        assert forall|j: int| #![trigger const_of(self.insts()[j])]
                            0 <= j < i implies match const_of(self.insts()[j]) {
                            Some(cj) => exists|d: U|
                                #[trigger] call_ensures(f, (cj,), Ok::<U, E>(d)),
                            None => true,
                        } by {
                            if const_of(self.insts()[j]) is Some {
                                lemma_mapped_const(f, self.0@[j], out@[j]);
                            }
                        }
                        assert(const_of(self.insts()[i as int]) is Some);
                        assert(call_ensures(
                            f,
                            (const_of(self.insts()[i as int])->Some_0,),
                            Err::<U, E>(e),
                        ));
                    }
                    return Err(e);
                },
            }
            i += 1;
        }
        Ok(RoCode(out))
    }

    /// Maps the program to another word type, failing on the first
    /// constant whose value the other range cannot hold.
    pub fn try_cast<U: Integer>(&self) -> (r: Option<RoCode<U>>)
        ensures
            r matches Some(c2) ==> c2@ == self@,
            r is None ==> exists|i: int|
                0 <= i < self@.len() && match #[trigger] crate::sem::inst_val(self@[i]) {
                    Some(crate::inst::ValS::Constant(x)) => !(U::min_v() <= x <= U::max_v()),
                    _ => false,
                },
    {
        let mut out: Vec<Instruction<U>> = Vec::new();
        let mut i: usize = 0;
        while i < self.0.len()
            invariant
                i <= self.0@.len(),
                out@.len() == i,
                forall|k: int| 0 <= k < i ==> #[trigger] out@[k]@ == self.0@[k]@,
            decreases self.0@.len() - i,
        {
            match try_cast_inst::<T, U>(self.0[i]) {
                Some(b) => {
                    out.push(b);
                },
                None => {
                    proof {
                        assert(self@[i as int] == self.0@[i as int]@);
                    }
                    return None;
                },
            }
            i += 1;
        }
        let r = RoCode(out);
        proof {
            assert(r@ =~= self@);
        }
        Some(r)
    }
}

/// The constant operand of an instruction, if it has one.
pub open spec fn const_of<T: Integer>(i: Instruction<T>) -> Option<T> {
    match i {
        Instruction::Load(crate::inst::Value::Constant(c)) | Instruction::Add(
            crate::inst::Value::Constant(c),
        ) | Instruction::Sub(crate::inst::Value::Constant(c)) | Instruction::Mul(
            crate::inst::Value::Constant(c),
        ) | Instruction::Div(crate::inst::Value::Constant(c)) | Instruction::Mod(
            crate::inst::Value::Constant(c),
        ) => Some(c),
        _ => None,
    }
}

/// A successfully mapped instruction maps its constant, if any, to some
/// possible success of the function.
proof fn lemma_mapped_const<T: Integer, U: Integer, E, F: Fn(T) -> Result<U, E>>(
    f: F,
    a: Instruction<T>,
    b: Instruction<U>,
)
    requires
        inst_try_mapped(f, a, b),
        const_of(a) is Some,
    ensures
        exists|d: U| #[trigger] call_ensures(f, (const_of(a)->Some_0,), Ok::<U, E>(d)),
{
    match (a, b) {
        (Instruction::Load(va), Instruction::Load(vb)) | (
            Instruction::Add(va),
            Instruction::Add(vb),
        ) | (Instruction::Sub(va), Instruction::Sub(vb)) | (
            Instruction::Mul(va),
            Instruction::Mul(vb),
        ) | (Instruction::Div(va), Instruction::Div(vb)) | (
            Instruction::Mod(va),
            Instruction::Mod(vb),
        ) => {
            match (va, vb) {
                (crate::inst::Value::Constant(ca), crate::inst::Value::Constant(cb)) => {
                    assert(ca == const_of(a)->Some_0);
                    assert(call_ensures(f, (const_of(a)->Some_0,), Ok::<U, E>(cb)));
                },
                _ => {},
            }
        },
        _ => {},
    }
}

/// As [`inst_mapped`], for a fallible constant-mapping function: each
/// constant some possible success of `f` on the original constant.
pub open spec fn inst_try_mapped<T: Integer, U: Integer, E, F: Fn(T) -> Result<U, E>>(
    f: F,
    a: Instruction<T>,
    b: Instruction<U>,
) -> bool {
    match (a, b) {
        (Instruction::Read, Instruction::Read) => true,
        (Instruction::Write, Instruction::Write) => true,
        (Instruction::Load(v), Instruction::Load(w)) => value_try_mapped(f, v, w),
        (Instruction::Store(r1), Instruction::Store(r2)) => r1 == r2,
        (Instruction::Increment(r1), Instruction::Increment(r2)) => r1 == r2,
        (Instruction::Decrement(r1), Instruction::Decrement(r2)) => r1 == r2,
        (Instruction::Add(v), Instruction::Add(w)) => value_try_mapped(f, v, w),
        (Instruction::Sub(v), Instruction::Sub(w)) => value_try_mapped(f, v, w),
        (Instruction::Mul(v), Instruction::Mul(w)) => value_try_mapped(f, v, w),
        (Instruction::Div(v), Instruction::Div(w)) => value_try_mapped(f, v, w),
        (Instruction::Mod(v), Instruction::Mod(w)) => value_try_mapped(f, v, w),
        (Instruction::Jump(x), Instruction::Jump(y)) => x == y,
        (Instruction::JumpZero(x), Instruction::JumpZero(y)) => x == y,
        (Instruction::JumpLtz(x), Instruction::JumpLtz(y)) => x == y,
        (Instruction::JumpGtz(x), Instruction::JumpGtz(y)) => x == y,
        (Instruction::Stop, Instruction::Stop) => true,
        (Instruction::Nop, Instruction::Nop) => true,
        _ => false,
    }
}

/// The value-operand half of [`inst_try_mapped`].
pub open spec fn value_try_mapped<T: Integer, U: Integer, E, F: Fn(T) -> Result<U, E>>(
    f: F,
    a: crate::inst::Value<T>,
    b: crate::inst::Value<U>,
) -> bool {
    match (a, b) {
        (crate::inst::Value::Constant(c), crate::inst::Value::Constant(d)) => call_ensures(
            f,
            (c,),
            Ok::<U, E>(d),
        ),
        (crate::inst::Value::Register(r1), crate::inst::Value::Register(r2)) => r1 == r2,
        _ => false,
    }
}

/// Converts one instruction to a wider word type, keeping every value.
fn cast_inst<T: Integer, U: Integer>(a: Instruction<T>) -> (r: Instruction<U>)
    requires
        U::min_v() <= T::min_v(),
        T::max_v() <= U::max_v(),
    ensures
        r@ == a@,
{
    match a {
        Instruction::Read => Instruction::Read,
        Instruction::Write => Instruction::Write,
        Instruction::Load(v) => Instruction::Load(cast_value(v)),
        Instruction::Store(reg) => Instruction::Store(reg),
        Instruction::Increment(reg) => Instruction::Increment(reg),
        Instruction::Decrement(reg) => Instruction::Decrement(reg),
        Instruction::Add(v) => Instruction::Add(cast_value(v)),
        Instruction::Sub(v) => Instruction::Sub(cast_value(v)),
        Instruction::Mul(v) => Instruction::Mul(cast_value(v)),
        Instruction::Div(v) => Instruction::Div(cast_value(v)),
        Instruction::Mod(v) => Instruction::Mod(cast_value(v)),
        Instruction::Jump(a2) => Instruction::Jump(a2),
        Instruction::JumpZero(a2) => Instruction::JumpZero(a2),
        Instruction::JumpLtz(a2) => Instruction::JumpLtz(a2),
        Instruction::JumpGtz(a2) => Instruction::JumpGtz(a2),
        Instruction::Stop => Instruction::Stop,
        Instruction::Nop => Instruction::Nop,
    }
}

/// Converts one value operand to a wider word type.
fn cast_value<T: Integer, U: Integer>(v: crate::inst::Value<T>) -> (r: crate::inst::Value<U>)
    requires
        U::min_v() <= T::min_v(),
        T::max_v() <= U::max_v(),
    ensures
        r@ == v@,
{
    match v {
        crate::inst::Value::Constant(c) => {
            proof {
                T::lemma_range(c);
            }
            let parts = c.to_parts();
            match U::from_parts(parts.0, parts.1) {
                Some(d) => crate::inst::Value::Constant(d),
                None => {
                    proof {
                        assert(false);
                    }
                    crate::inst::Value::Constant(U::zero())
                },
            }
        },
        crate::inst::Value::Register(reg) => crate::inst::Value::Register(reg),
    }
}

/// Converts one instruction to another word type, failing where a
/// constant does not fit.
fn try_cast_inst<T: Integer, U: Integer>(a: Instruction<T>) -> (r: Option<Instruction<U>>)
    ensures
        r matches Some(b) ==> b@ == a@,
        r is None ==> match crate::sem::inst_val(a@) {
            Some(crate::inst::ValS::Constant(x)) => !(U::min_v() <= x <= U::max_v()),
            _ => false,
        },
{
    match a {
        Instruction::Read => Some(Instruction::Read),
        Instruction::Write => Some(Instruction::Write),
        Instruction::Load(v) => match try_cast_value(v) {
            Some(w) => Some(Instruction::Load(w)),
            None => None,
        },
        Instruction::Store(reg) => Some(Instruction::Store(reg)),
        Instruction::Increment(reg) => Some(Instruction::Increment(reg)),
        Instruction::Decrement(reg) => Some(Instruction::Decrement(reg)),
        Instruction::Add(v) => match try_cast_value(v) {
            Some(w) => Some(Instruction::Add(w)),
            None => None,
        },
        Instruction::Sub(v) => match try_cast_value(v) {
            Some(w) => Some(Instruction::Sub(w)),
            None => None,
        },
        Instruction::Mul(v) => match try_cast_value(v) {
            Some(w) => Some(Instruction::Mul(w)),
            None => None,
        },
        Instruction::Div(v) => match try_cast_value(v) {
            Some(w) => Some(Instruction::Div(w)),
            None => None,
        },
        Instruction::Mod(v) => match try_cast_value(v) {
            Some(w) => Some(Instruction::Mod(w)),
            None => None,
        },
        Instruction::Jump(a2) => Some(Instruction::Jump(a2)),
        Instruction::JumpZero(a2) => Some(Instruction::JumpZero(a2)),
        Instruction::JumpLtz(a2) => Some(Instruction::JumpLtz(a2)),
        Instruction::JumpGtz(a2) => Some(Instruction::JumpGtz(a2)),
        Instruction::Stop => Some(Instruction::Stop),
        Instruction::Nop => Some(Instruction::Nop),
    }
}

/// Converts one value operand, failing where a constant does not fit.
fn try_cast_value<T: Integer, U: Integer>(v: crate::inst::Value<T>) -> (r: Option<
    crate::inst::Value<U>,
>)
    ensures
        r matches Some(w) ==> w@ == v@,
        r is None ==> match v@ {
            crate::inst::ValS::Constant(x) => !(U::min_v() <= x <= U::max_v()),
            _ => false,
        },
{
    match v {
        crate::inst::Value::Constant(c) => {
            let parts = c.to_parts();
            match U::from_parts(parts.0, parts.1) {
                Some(d) => Some(crate::inst::Value::Constant(d)),
                None => None,
            }
        },
        crate::inst::Value::Register(reg) => Some(crate::inst::Value::Register(reg)),
    }
}

/// Maps one instruction's constant through a fallible function.
fn try_map_inst<T: Integer, U: Integer, E, F: Fn(T) -> Result<U, E>>(
    f: &F,
    a: Instruction<T>,
) -> (r: Result<Instruction<U>, E>)
    requires
        forall|c: T| #[trigger] call_requires(*f, (c,)),
    ensures
        r matches Ok(b) ==> inst_try_mapped(*f, a, b),
        r matches Err(e) ==> const_of(a) is Some && call_ensures(
            *f,
            (const_of(a)->Some_0,),
            Err::<U, E>(e),
        ),
{
    match a {
        Instruction::Read => Ok(Instruction::Read),
        Instruction::Write => Ok(Instruction::Write),
        Instruction::Load(v) => match try_map_value(f, v) {
            Ok(w) => Ok(Instruction::Load(w)),
            Err(e) => Err(e),
        },
        Instruction::Store(reg) => Ok(Instruction::Store(reg)),
        Instruction::Increment(reg) => Ok(Instruction::Increment(reg)),
        Instruction::Decrement(reg) => Ok(Instruction::Decrement(reg)),
        Instruction::Add(v) => match try_map_value(f, v) {
            Ok(w) => Ok(Instruction::Add(w)),
            Err(e) => Err(e),
        },
        Instruction::Sub(v) => match try_map_value(f, v) {
            Ok(w) => Ok(Instruction::Sub(w)),
            Err(e) => Err(e),
        },
        Instruction::Mul(v) => match try_map_value(f, v) {
            Ok(w) => Ok(Instruction::Mul(w)),
            Err(e) => Err(e),
        },
        Instruction::Div(v) => match try_map_value(f, v) {
            Ok(w) => Ok(Instruction::Div(w)),
            Err(e) => Err(e),
        },
        Instruction::Mod(v) => match try_map_value(f, v) {
            Ok(w) => Ok(Instruction::Mod(w)),
            Err(e) => Err(e),
        },
        Instruction::Jump(a2) => Ok(Instruction::Jump(a2)),
        Instruction::JumpZero(a2) => Ok(Instruction::JumpZero(a2)),
        Instruction::JumpLtz(a2) => Ok(Instruction::JumpLtz(a2)),
        Instruction::JumpGtz(a2) => Ok(Instruction::JumpGtz(a2)),
        Instruction::Stop => Ok(Instruction::Stop),
        Instruction::Nop => Ok(Instruction::Nop),
    }
}

/// Maps one value operand's constant through a fallible function.
fn try_map_value<T: Integer, U: Integer, E, F: Fn(T) -> Result<U, E>>(
    f: &F,
    v: crate::inst::Value<T>,
) -> (r: Result<crate::inst::Value<U>, E>)
    requires
        forall|c: T| #[trigger] call_requires(*f, (c,)),
    ensures
        r matches Ok(w) ==> value_try_mapped(*f, v, w),
        r matches Err(e) ==> v is Constant && call_ensures(
            *f,
            (v->Constant_0,),
            Err::<U, E>(e),
        ),
{
    match v {
        crate::inst::Value::Constant(c) => {
            let out = f(c);
            proof {
                assert(call_ensures(*f, (c,), out));
            }
            match out {
                Ok(d) => {
                    proof {
                        assert(out == Ok::<U, E>(d));
                    }
                    Ok(crate::inst::Value::Constant(d))
                },
                Err(e) => {
                    proof {
                        assert(out == Err::<U, E>(e));
                    }
                    Err(e)
                },
            }
        },
        crate::inst::Value::Register(reg) => Ok(crate::inst::Value::Register(reg)),
    }
}

impl<T: Integer> Default for RoCode<T> {
    /// A program holding only a `STOP` instruction.
    fn default() -> (r: Self)
        ensures
            r@ =~= seq![InstS::Stop],
    {
        let mut insts: Vec<Instruction<T>> = Vec::new();
        insts.push(Instruction::Stop);
        RoCode(insts)
    }
}

} // verus!
