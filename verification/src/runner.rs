//! An emulator for machine programs: a process owning a code segment, a
//! grow-on-demand register file, an input cursor and an output vector.
//! Each step is proved to follow the abstract machine of [`crate::sem`].

use crate::code::RoCode;
use crate::error::{ErrS, RunError};
use crate::inst::{Instruction, RegS, Register, RoLoc, Value, WoLoc, RwLoc, Loc as LocTag};
use crate::integer::Integer;
use crate::ir::Ir;
use crate::sem::{
    advance_s, arith_ok, arith_val, final_outcome, halted, jump_pred_s, jump_to_s, read_acc_s,
    read_reg_s, read_val_s, run_n, step_binop_s, step_cond_jump_s, step_s, step_unop_s,
    targets_ok, write_loc_s, OpS, StateS,
};
use vstd::prelude::*;

verus! {

/// One cell of the register file: uninitialized, or holding a word.
/// Reading an uninitialized cell is an error, never a fabricated zero.
#[derive(Clone, Copy, PartialEq, Eq, Hash, Debug)]
pub enum Loc<T: Integer> {
    Uninit,
    Init(T),
}

impl<T: Integer> Default for Loc<T> {
    /// Cells start uninitialized.
    fn default() -> (r: Self)
        ensures
            r == Loc::<T>::Uninit,
    {
        Loc::Uninit
    }
}

impl<T: Integer> Loc<T> {
    /// Fills the cell with a word.
    pub fn set(&mut self, v: T)
        ensures
            *final(self) == Loc::<T>::Init(v),
    {
        *self = Loc::Init(v);
    }
}

/// The word a cell holds, or `0` for an uninitialized cell; meaningful
/// only on the domain of [`mem_view`].
pub open spec fn loc_v<T: Integer>(l: Loc<T>) -> int {
    match l {
        Loc::Init(t) => t.v(),
        Loc::Uninit => 0,
    }
}

/// The abstract register file of a cell vector: the partial map of its
/// initialized cells. Cells past the vector's end are uninitialized.
pub open spec fn mem_view<T: Integer>(m: Seq<Loc<T>>) -> Map<nat, int> {
    Map::new(|k: nat| k < m.len() && m[k as int] is Init, |k: nat| loc_v(m[k as int]))
}

/// A process for a machine program.
///
/// Input is a finite sequence consumed front to back by `READ`; once
/// exhausted it stays exhausted. The process is consumed by [`Ram::run`],
/// which returns the output.
#[derive(Debug)]
pub struct Ram<T: Integer> {
    /// The input values not yet consumed are those at `pos` onward.
    pub input: Vec<T>,
    /// How many input values were consumed already.
    pub pos: usize,
    /// The output produced so far.
    pub output: Vec<T>,
    /// The register file, grown on demand; cell `0` is the accumulator.
    pub memory: Vec<Loc<T>>,
    /// The program being run.
    pub code: RoCode<T>,
    /// The next instruction to run: a copy of `code` at `ir`.
    pub inst: Instruction<T>,
    /// The program counter: the index of `inst`.
    pub ir: usize,
}

impl<T: Integer> Ram<T> {
    /// The program, as spec-level instruction sequence.
    pub open spec fn code_v(&self) -> Seq<crate::inst::InstS> {
        self.code@
    }

    /// The abstract machine state this process is in.
    pub open spec fn state(&self) -> StateS {
        StateS {
            mem: mem_view(self.memory@),
            input: Seq::new(
                (self.input@.len() - self.pos) as nat,
                |i: int| self.input@[self.pos + i].v(),
            ),
            output: self.output@.map_values(|t: T| t.v()),
            ir: self.ir as nat,
        }
    }

    /// Well-formedness: the counter is in range, the fetched instruction
    /// is the one under the counter, and the code's direct write targets
    /// are usable cell indices.
    pub open spec fn wf(&self) -> bool {
        &&& 0 < self.code@.len()
        &&& (self.ir as nat) < self.code@.len()
        &&& self.inst == self.code.insts()[self.ir as int]
        &&& self.pos <= self.input@.len()
        &&& targets_ok(self.code@)
    }

    /// Creates a new process from its code and input.
    pub fn new(code: RoCode<T>, input: Vec<T>) -> (r: Ram<T>)
        requires
            0 < code@.len(),
            targets_ok(code@),
        ensures
            r.wf(),
            r.code == code,
            r.state() == (StateS {
                mem: Map::<nat, int>::empty(),
                input: Seq::new(input@.len(), |i: int| input@[i].v()),
                output: Seq::<int>::empty(),
                ir: 0,
            }),
    {
        let inst = code.0[0];
        let r = Ram { input, pos: 0, output: Vec::new(), memory: Vec::new(), code, inst, ir: 0 };
        proof {
            assert(r.state().mem =~= Map::<nat, int>::empty());
            assert(r.state().input =~= Seq::new(r.input@.len(), |i: int| r.input@[i].v()));
            assert(r.state().output =~= Seq::<int>::empty());
            assert(r.state() =~= StateS {
                mem: Map::<nat, int>::empty(),
                input: Seq::new(r.input@.len(), |i: int| r.input@[i].v()),
                output: Seq::<int>::empty(),
                ir: 0,
            });
        }
        r
    }

    /// A process with only a `STOP` instruction and no input.
    pub fn empty() -> (r: Ram<T>)
        ensures
            r.wf(),
            r.code_v() =~= seq![crate::inst::InstS::Stop],
            r.state().input =~= Seq::<int>::empty(),
            r.state().output =~= Seq::<int>::empty(),
    {
        let r = Ram::new(RoCode::default(), Vec::new());
        r
    }

    /// Creates a process for the given code and no input.
    pub fn without_inputs(code: RoCode<T>) -> (r: Ram<T>)
        requires
            0 < code@.len(),
            targets_ok(code@),
        ensures
            r.wf(),
            r.code == code,
            r.state() == (StateS {
                mem: Map::<nat, int>::empty(),
                input: Seq::<int>::empty(),
                output: Seq::<int>::empty(),
                ir: 0,
            }),
    {
        let r = Ram::new(code, Vec::new());
        proof {
            assert(r.state().input =~= Seq::<int>::empty());
        }
        r
    }

    /// The output produced so far.
    pub fn output(&self) -> (r: &Vec<T>)
        ensures
            r@ == self.output@,
            r@.map_values(|t: T| t.v()) == self.state().output,
    {
        &self.output
    }

    /// The program this process runs.
    pub fn code(&self) -> (r: &RoCode<T>)
        ensures
            *r == self.code,
    {
        &self.code
    }

    /// The current program counter.
    pub fn ir(&self) -> (r: usize)
        ensures
            r == self.state().ir,
    {
        self.ir
    }

    /// The cell at a raw index; indices past the register file's current
    /// length read as uninitialized.
    fn read_mem(&self, adr: usize) -> (r: Loc<T>)
        ensures
            r is Init <==> self.state().mem.contains_key(adr as nat),
            r matches Loc::Init(t) ==> t.v() == self.state().mem[adr as nat],
    {
        if adr < self.memory.len() {
            self.memory[adr]
        } else {
            Loc::Uninit
        }
    }

    /// Writes a word into the cell at a raw index, growing the register
    /// file as needed. Everything but the register file is untouched.
    fn write_mem(&mut self, adr: usize, val: T)
        requires
            adr < usize::MAX,
        ensures
            final(self).code == old(self).code,
            final(self).inst == old(self).inst,
            final(self).ir == old(self).ir,
            final(self).pos == old(self).pos,
            final(self).input == old(self).input,
            final(self).output == old(self).output,
            final(self).state().mem == old(self).state().mem.insert(adr as nat, val.v()),
    {
        let ghost pre = self.memory@;
        while self.memory.len() <= adr
            invariant
                self.code == old(self).code,
                self.inst == old(self).inst,
                self.ir == old(self).ir,
                self.pos == old(self).pos,
                self.input == old(self).input,
                self.output == old(self).output,
                self.memory@.len() >= pre.len(),
                self.memory@.take(pre.len() as int) == pre,
                forall|k: int|
                    pre.len() <= k < self.memory@.len() ==> #[trigger] self.memory@[k] is Uninit,
            decreases adr - self.memory.len() + 1,
        {
            self.memory.push(Loc::Uninit);
            proof {
                assert(self.memory@.take(pre.len() as int) == pre);
            }
        }
        proof {
            assert(mem_view(self.memory@) =~= mem_view(pre));
        }
        self.memory.set(adr, Loc::Init(val));
        proof {
            assert(mem_view(self.memory@) =~= mem_view(pre).insert(adr as nat, val.v()));
        }
    }

    /// Reads the accumulator.
    fn acc_get(&self) -> (r: Result<T, RunError<T>>)
        ensures
            r matches Ok(t) ==> read_acc_s(self.state().mem) == Ok::<int, ErrS>(t.v()),
            r matches Err(e) ==> read_acc_s(self.state().mem) == Err::<int, ErrS>(e@),
    {
        match self.read_mem(0) {
            Loc::Init(t) => Ok(t),
            Loc::Uninit => Err(RunError::ReadUninit { adr: RoLoc(0) }),
        }
    }

    /// Resolves the cell a write through the operand would land in,
    /// without writing.
    fn write_target<L: LocTag>(&self, reg: Register<L>) -> (r: Result<usize, RunError<T>>)
        requires
            reg@ matches RegS::Direct(a) ==> a < usize::MAX,
        ensures
            r matches Ok(t) ==> write_loc_s(self.state().mem, reg@) == Ok::<nat, ErrS>(t as nat)
                && t < usize::MAX,
            r matches Err(e) ==> write_loc_s(self.state().mem, reg@) == Err::<nat, ErrS>(e@),
    {
        match reg {
            Register::Direct(l) => Ok(l.raw()),
            Register::Indirect(l) => {
                let p = match self.read_mem(l.raw()) {
                    Loc::Init(t) => t,
                    Loc::Uninit => {
                        return Err(RunError::ReadUninit { adr: l });
                    },
                };
                match p.to_index() {
                    Some(t) => Ok(t),
                    None => Err(RunError::InvalidAddress { adr: p }),
                }
            },
        }
    }

    /// Moves the program counter to the next instruction, known to exist.
    fn bump(&mut self)
        requires
            old(self).wf(),
            old(self).ir + 1 < old(self).code@.len(),
        ensures
            final(self).code == old(self).code,
            final(self).input == old(self).input,
            final(self).output == old(self).output,
            final(self).memory == old(self).memory,
            final(self).pos == old(self).pos,
            final(self).ir == old(self).ir + 1,
            final(self).wf(),
            final(self).state() == (StateS { ir: old(self).state().ir + 1, ..old(self).state() }),
    {
        let len = self.code.len();
        self.ir = self.ir + 1;
        self.inst = self.code.0[self.ir];
        proof {
            assert(self.state() =~= StateS { ir: old(self).state().ir + 1, ..old(self).state() });
        }
    }

    /// Executes the next instruction.
    ///
    /// On success the process has made exactly one step of the abstract
    /// machine. On an error the process is left in exactly the state the
    /// abstract machine's failed step describes: unchanged for an error
    /// the instruction itself raises, and with the instruction's effects
    /// applied for the `Eof` raised after a final instruction without
    /// `STOP` — a last `WRITE` does extend the output before `Eof`.
    pub fn step(&mut self) -> (r: Result<(), RunError<T>>)
        requires
            old(self).wf(),
        ensures
            final(self).code == old(self).code,
            r is Ok ==> final(self).wf() && step_s(
                old(self).code_v(),
                T::min_v(),
                T::max_v(),
                old(self).state(),
            ) == Ok::<StateS, (StateS, ErrS)>(final(self).state()),
            r matches Err(e) ==> step_s(
                old(self).code_v(),
                T::min_v(),
                T::max_v(),
                old(self).state(),
            ) == Err::<StateS, (StateS, ErrS)>((final(self).state(), e@)),
            r matches Err(e) ==> (e == RunError::<T>::Eof || (*final(self) == *old(self)
                && final(self).wf())),
    {
        let ghost c = self.code_v();
        let ghost pre = self.state();
        let inst = self.inst;
        match inst {
            Instruction::Read => {
                if self.pos >= self.input.len() {
                    return Err(RunError::ReadEof);
                }
                let val = self.input[self.pos];
                self.pos = self.pos + 1;
                self.write_mem(0, val);
                proof {
                    assert(self.state() =~= StateS {
                        mem: pre.mem.insert(0, pre.input[0]),
                        input: pre.input.skip(1),
                        output: pre.output,
                        ir: pre.ir,
                    });
                }
                self.advance()
            },
            Instruction::Write => {
                let a = match self.acc_get() {
                    Ok(a) => a,
                    Err(e) => {
                        return Err(e);
                    },
                };
                self.output.push(a);
                proof {
                    assert(self.state() =~= StateS { output: pre.output.push(a.v()), ..pre });
                }
                self.advance()
            },
            Instruction::Load(v) => {
                let x = match v.get(self) {
                    Ok(x) => x,
                    Err(e) => {
                        return Err(e);
                    },
                };
                self.write_mem(0, x);
                proof {
                    assert(self.state() =~= StateS { mem: pre.mem.insert(0, x.v()), ..pre });
                }
                self.advance()
            },
            Instruction::Store(reg) => {
                let a = match self.acc_get() {
                    Ok(a) => a,
                    Err(e) => {
                        return Err(e);
                    },
                };
                let t = match self.write_target(reg) {
                    Ok(t) => t,
                    Err(e) => {
                        return Err(e);
                    },
                };
                self.write_mem(t, a);
                proof {
                    assert(self.state() =~= StateS { mem: pre.mem.insert(t as nat, a.v()), ..pre });
                }
                self.advance()
            },
            Instruction::Increment(reg) => self.unop(reg, true),
            Instruction::Decrement(reg) => self.unop(reg, false),
            Instruction::Add(v) => self.binop(OpS::Add, v),
            Instruction::Sub(v) => self.binop(OpS::Sub, v),
            Instruction::Mul(v) => self.binop(OpS::Mul, v),
            Instruction::Div(v) => self.binop(OpS::Div, v),
            Instruction::Mod(v) => self.binop(OpS::Mod, v),
            Instruction::Jump(a) => {
                let t = a.inner();
                if t >= self.code.len() {
                    return Err(RunError::InexistentJump);
                }
                self.land(t);
                Ok(())
            },
            Instruction::JumpZero(a) | Instruction::JumpLtz(a) | Instruction::JumpGtz(a) => {
                let acc = match self.acc_get() {
                    Ok(x) => x,
                    Err(e) => {
                        return Err(e);
                    },
                };
                let pred = match inst {
                    Instruction::JumpZero(_) => acc.eq_value(T::zero()),
                    Instruction::JumpLtz(_) => acc.lt_value(T::zero()),
                    _ => T::zero().lt_value(acc),
                };
                if pred {
                    let t = a.inner();
                    if t >= self.code.len() {
                        return Err(RunError::InexistentJump);
                    }
                    self.land(t);
                    Ok(())
                } else {
                    self.advance()
                }
            },
            Instruction::Stop => {
                Ok(())
            },
            Instruction::Nop => {
                self.advance()
            },
        }
    }

    /// `INC` or `DEC`: read the operand cell, add or subtract one
    /// checked, write the result back, fall through.
    fn unop(&mut self, reg: Register<RwLoc>, inc: bool) -> (r: Result<(), RunError<T>>)
        requires
            old(self).wf(),
            reg@ matches RegS::Direct(a) ==> a < usize::MAX,
        ensures
            final(self).code == old(self).code,
            r is Ok ==> final(self).wf() && step_unop_s(
                old(self).code_v(),
                T::min_v(),
                T::max_v(),
                old(self).state(),
                reg@,
                if inc {
                    1int
                } else {
                    -1int
                },
            ) == Ok::<StateS, (StateS, ErrS)>(final(self).state()),
            r matches Err(e) ==> step_unop_s(
                old(self).code_v(),
                T::min_v(),
                T::max_v(),
                old(self).state(),
                reg@,
                if inc {
                    1int
                } else {
                    -1int
                },
            ) == Err::<StateS, (StateS, ErrS)>((final(self).state(), e@)),
            r matches Err(e) ==> (e == RunError::<T>::Eof || *final(self) == *old(self)),
    {
        let ghost pre = self.state();
        let t = match self.write_target(reg) {
            Ok(t) => t,
            Err(e) => {
                return Err(e);
            },
        };
        let x0 = match self.read_mem(t) {
            Loc::Init(x) => x,
            Loc::Uninit => {
                return Err(RunError::ReadUninit { adr: RoLoc(t) });
            },
        };
        let x = match if inc {
            x0.checked_add(T::one())
        } else {
            x0.checked_sub(T::one())
        } {
            Some(x) => x,
            None => {
                return Err(RunError::IntegerOverflow);
            },
        };
        self.write_mem(t, x);
        proof {
            assert(self.state() =~= StateS { mem: pre.mem.insert(t as nat, x.v()), ..pre });
        }
        self.advance()
    }

    /// An arithmetic instruction on the accumulator: read the
    /// accumulator, read the operand, apply the checked operation, store
    /// the result, fall through.
    fn binop(&mut self, op: OpS, v: Value<T>) -> (r: Result<(), RunError<T>>)
        requires
            old(self).wf(),
        ensures
            final(self).code == old(self).code,
            r is Ok ==> final(self).wf() && step_binop_s(
                old(self).code_v(),
                T::min_v(),
                T::max_v(),
                old(self).state(),
                op,
                v@,
            ) == Ok::<StateS, (StateS, ErrS)>(final(self).state()),
            r matches Err(e) ==> step_binop_s(
                old(self).code_v(),
                T::min_v(),
                T::max_v(),
                old(self).state(),
                op,
                v@,
            ) == Err::<StateS, (StateS, ErrS)>((final(self).state(), e@)),
            r matches Err(e) ==> (e == RunError::<T>::Eof || *final(self) == *old(self)),
    {
        let ghost pre = self.state();
        let a = match self.acc_get() {
            Ok(a) => a,
            Err(e) => {
                return Err(e);
            },
        };
        let b = match v.get(self) {
            Ok(b) => b,
            Err(e) => {
                return Err(e);
            },
        };
        let res = match op {
            OpS::Add => a.checked_add(b),
            OpS::Sub => a.checked_sub(b),
            OpS::Mul => a.checked_mul(b),
            OpS::Div => a.checked_div(b),
            OpS::Mod => a.checked_rem(b),
        };
        let x = match res {
            Some(x) => x,
            None => {
                return Err(RunError::IntegerOverflow);
            },
        };
        self.write_mem(0, x);
        proof {
            assert(self.state() =~= StateS { mem: pre.mem.insert(0, x.v()), ..pre });
        }
        self.advance()
    }

    /// Runs the process until it halts or fails, and returns its output.
    ///
    /// The driver counts its steps in a machine word: a program that
    /// makes `usize::MAX` steps without halting is abandoned with `Eof`.
    /// No physical machine reaches that bound.
    pub fn run(self) -> (r: Result<Vec<T>, RunError<T>>)
        requires
            self.wf(),
        ensures
            r matches Ok(out) ==> exists|n: nat, s_end: StateS|
                n <= usize::MAX && run_n(self.code_v(), T::min_v(), T::max_v(), self.state(), n)
                    == Ok::<StateS, (StateS, ErrS)>(s_end) && halted(self.code_v(), s_end)
                    && out@.map_values(|t: T| t.v()) == s_end.output,
            r matches Err(e) ==> (exists|n: nat, s_err: StateS|
                n <= usize::MAX && run_n(self.code_v(), T::min_v(), T::max_v(), self.state(), n)
                    == Err::<StateS, (StateS, ErrS)>((s_err, e@))) || (e == RunError::<T>::Eof
                && forall|k: nat|
                k <= usize::MAX ==> !final_outcome(
                    self.code_v(),
                    run_n(self.code_v(), T::min_v(), T::max_v(), self.state(), k),
                )),
    {
        let mut ram = self;
        let ghost c0 = ram.code_v();
        let ghost st0 = ram.state();
        let mut fuel: usize = usize::MAX;
        let ghost mut n: nat = 0;
        while fuel > 0
            invariant
                ram.wf(),
                ram.code_v() == c0,
                c0 == self.code_v(),
                st0 == self.state(),
                n + fuel == usize::MAX,
                run_n(c0, T::min_v(), T::max_v(), st0, n) == Ok::<StateS, (StateS, ErrS)>(
                    ram.state(),
                ),
            decreases fuel,
        {
            if matches!(ram.inst, Instruction::Stop) {
                proof {
                    assert(halted(c0, ram.state()));
                }
                return Ok(ram.output);
            }
            let ghost before = ram.state();
            match ram.step() {
                Ok(()) => {
                    proof {
                        assert(run_n(c0, T::min_v(), T::max_v(), st0, n + 1) == Ok::<
                            StateS,
                            (StateS, ErrS),
                        >(ram.state()));
                        n = n + 1;
                    }
                },
                Err(e) => {
                    proof {
                        assert(run_n(c0, T::min_v(), T::max_v(), st0, n + 1) == Err::<
                            StateS,
                            (StateS, ErrS),
                        >((ram.state(), e@)));
                    }
                    return Err(e);
                },
            }
            fuel = fuel - 1;
        }
        if matches!(ram.inst, Instruction::Stop) {
            proof {
                assert(halted(c0, ram.state()));
            }
            return Ok(ram.output);
        }
        proof {
            assert(!final_outcome(c0, run_n(c0, T::min_v(), T::max_v(), st0, n)));
            assert forall|k: nat| k <= usize::MAX implies !final_outcome(
                c0,
                run_n(c0, T::min_v(), T::max_v(), st0, k),
            ) by {
                if final_outcome(c0, run_n(c0, T::min_v(), T::max_v(), st0, k)) {
                    crate::sem::lemma_run_n_absorbs(c0, T::min_v(), T::max_v(), st0, k, n);
                    assert(false);
                }
            }
        }
        Err(RunError::Eof)
    }

    /// Falls through to the next instruction after the current one's
    /// effects were applied. Past the last instruction this is the `Eof`
    /// error, with the effects kept and the counter one past the end.
    fn advance(&mut self) -> (r: Result<(), RunError<T>>)
        requires
            old(self).wf(),
        ensures
            final(self).code == old(self).code,
            final(self).input == old(self).input,
            final(self).output == old(self).output,
            final(self).memory == old(self).memory,
            final(self).pos == old(self).pos,
            final(self).ir == old(self).ir + 1,
            r is Ok ==> final(self).wf() && advance_s(old(self).code_v(), old(self).state())
                == Ok::<StateS, (StateS, ErrS)>(final(self).state()),
            r matches Err(e) ==> e == RunError::<T>::Eof && advance_s(
                old(self).code_v(),
                old(self).state(),
            ) == Err::<StateS, (StateS, ErrS)>((final(self).state(), ErrS::Eof)),
    {
        let len = self.code.len();
        self.ir = self.ir + 1;
        if self.ir < len {
            self.inst = self.code.0[self.ir];
            proof {
                assert(self.state() =~= StateS { ir: old(self).state().ir + 1, ..old(self).state() });
            }
            Ok(())
        } else {
            proof {
                assert(self.state() =~= StateS { ir: old(self).state().ir + 1, ..old(self).state() });
            }
            Err(RunError::Eof)
        }
    }

    /// Moves the program counter to a jump target, known to be in range.
    fn land(&mut self, t: usize)
        requires
            old(self).wf(),
            t < old(self).code@.len(),
        ensures
            final(self).code == old(self).code,
            final(self).input == old(self).input,
            final(self).output == old(self).output,
            final(self).memory == old(self).memory,
            final(self).pos == old(self).pos,
            final(self).ir == t,
            final(self).wf(),
            final(self).state() == (StateS { ir: t as nat, ..old(self).state() }),
    {
        self.ir = t;
        self.inst = self.code.0[self.ir];
        proof {
            assert(self.state() =~= StateS { ir: t as nat, ..old(self).state() });
        }
    }
}

impl<T: Integer> Value<T> {
    /// Fetches the operand's value from the process's register file.
    pub fn get(&self, ram: &Ram<T>) -> (r: Result<T, RunError<T>>)
        ensures
            r matches Ok(t) ==> read_val_s(ram.state().mem, self@) == Ok::<int, ErrS>(t.v()),
            r matches Err(e) ==> read_val_s(ram.state().mem, self@) == Err::<int, ErrS>(e@),
    {
        match *self {
            Value::Constant(c) => Ok(c),
            Value::Register(reg) => reg.get(ram),
        }
    }
}

impl Register<RoLoc> {
    /// Reads the cell this operand names, resolving indirection.
    pub fn get<T: Integer>(&self, ram: &Ram<T>) -> (r: Result<T, RunError<T>>)
        ensures
            r matches Ok(t) ==> read_reg_s(ram.state().mem, self@) == Ok::<int, ErrS>(t.v()),
            r matches Err(e) ==> read_reg_s(ram.state().mem, self@) == Err::<int, ErrS>(e@),
    {
        match *self {
            Register::Direct(l) => match ram.read_mem(l.raw()) {
                Loc::Init(t) => Ok(t),
                Loc::Uninit => Err(RunError::ReadUninit { adr: l }),
            },
            Register::Indirect(l) => {
                let p = match ram.read_mem(l.raw()) {
                    Loc::Init(t) => t,
                    Loc::Uninit => {
                        return Err(RunError::ReadUninit { adr: l });
                    },
                };
                match p.to_index() {
                    None => Err(RunError::InvalidAddress { adr: p }),
                    Some(t) => match ram.read_mem(t) {
                        Loc::Init(x) => Ok(x),
                        Loc::Uninit => Err(RunError::ReadUninit { adr: RoLoc(t) }),
                    },
                }
            },
        }
    }
}

impl Register<WoLoc> {
    /// Writes a word through this operand, resolving indirection.
    pub fn set<T: Integer>(&self, v: T, ram: &mut Ram<T>) -> (r: Result<(), RunError<T>>)
        requires
            self@ matches RegS::Direct(a) ==> a < usize::MAX,
        ensures
            final(ram).code == old(ram).code,
            final(ram).inst == old(ram).inst,
            final(ram).ir == old(ram).ir,
            final(ram).pos == old(ram).pos,
            final(ram).input == old(ram).input,
            final(ram).output == old(ram).output,
            r is Ok ==> (write_loc_s(old(ram).state().mem, self@) matches Ok(t)
                && final(ram).state().mem == old(ram).state().mem.insert(t, v.v())),
            r matches Err(e) ==> *final(ram) == *old(ram) && write_loc_s(
                old(ram).state().mem,
                self@,
            ) == Err::<nat, ErrS>(e@),
    {
        let t = match ram.write_target(*self) {
            Ok(t) => t,
            Err(e) => {
                return Err(e);
            },
        };
        ram.write_mem(t, v);
        Ok(())
    }
}

impl Ir {
    /// Resolves this index as a jump target of the process's program:
    /// the instruction there, or `InexistentJump` past the end.
    pub fn get<T: Integer>(&self, ram: &Ram<T>) -> (r: Result<(Ir, Instruction<T>), RunError<T>>)
        ensures
            r matches Ok(p) ==> self@ < ram.code_v().len() && p.0 == *self && p.1
                == ram.code.insts()[self@ as int],
            r matches Err(e) ==> self@ >= ram.code_v().len() && e@ == ErrS::InexistentJump,
    {
        match ram.code.get(*self) {
            Some(inst) => Ok((*self, inst)),
            None => Err(RunError::InexistentJump),
        }
    }
}

} // verus!
