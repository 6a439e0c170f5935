use rame::code::RoCode;
use rame::error::RunError;
use rame::inst::{Instruction, Register, RoLoc, RwLoc, Value, WoLoc};
use rame::ir::Ir;
use rame::runner::Ram;

#[test]
fn read_write() {
    let code = RoCode::<i32>::new(vec![
        Instruction::Read,
        Instruction::Write,
        Instruction::Stop,
    ]);
    assert_eq!(Ram::new(code, vec![12]).run(), Ok(vec![12]));
}

#[test]
fn run_read_write() {
    let code = RoCode::<i32>::new(vec![
        Instruction::Read,
        Instruction::Write,
        Instruction::Stop,
    ]);
    assert_eq!(Ram::new(code, vec![12]).run(), Ok(vec![12]));
}

#[test]
fn load_write() {
    let code = RoCode::<i32>::new(vec![
        Instruction::Load(Value::Constant(-1)),
        Instruction::Write,
        Instruction::Stop,
    ]);
    assert_eq!(Ram::without_inputs(code).run(), Ok(vec![-1]));
}

#[test]
fn run_load_write() {
    let code = RoCode::<i32>::new(vec![
        Instruction::Load(Value::Constant(-1)),
        Instruction::Write,
        Instruction::Stop,
    ]);
    assert_eq!(Ram::without_inputs(code).run(), Ok(vec![-1]));
}

fn rem_program() -> RoCode<i8> {
    RoCode::new(vec![
        Instruction::Load(Value::Constant(2)),
        Instruction::Store(Register::Direct(WoLoc(1))),
        Instruction::Load(Value::Constant(-5)),
        Instruction::Store(Register::Direct(WoLoc(2))),
        Instruction::Mod(Value::Register(Register::Direct(RoLoc(1)))),
        Instruction::Write,
        Instruction::Load(Value::Constant(-2)),
        Instruction::Store(Register::Direct(WoLoc(1))),
        Instruction::Load(Value::Register(Register::Direct(RoLoc(2)))),
        Instruction::Mod(Value::Register(Register::Direct(RoLoc(1)))),
        Instruction::Write,
        Instruction::Stop,
    ])
}

#[test]
fn rem() {
    assert_eq!(Ram::without_inputs(rem_program()).run(), Ok(vec![-1, -1]));
}

#[test]
fn run_rem() {
    assert_eq!(Ram::without_inputs(rem_program()).run(), Ok(vec![-1, -1]));
}

fn jump_program() -> RoCode<i32> {
    RoCode::new(vec![
        Instruction::Load(Value::Constant(1)),
        Instruction::Jump(Ir::new(3)),
        Instruction::Load(Value::Constant(0)),
        Instruction::Write,
        Instruction::Stop,
    ])
}

#[test]
fn jump() {
    assert_eq!(Ram::without_inputs(jump_program()).run(), Ok(vec![1]));
}

#[test]
fn run_jump() {
    assert_eq!(Ram::without_inputs(jump_program()).run(), Ok(vec![1]));
}

fn jumz_program() -> RoCode<i32> {
    RoCode::new(vec![
        Instruction::Load(Value::Constant(-2)),
        Instruction::JumpZero(Ir::new(100)),
        Instruction::Stop,
    ])
}

#[test]
fn jumz_inexistent() {
    assert_eq!(Ram::without_inputs(jumz_program()).run(), Ok(vec![]));
}

#[test]
fn run_jumz_inexistent() {
    assert_eq!(Ram::without_inputs(jumz_program()).run(), Ok(vec![]));
}

#[test]
fn read_then_add_two() {
    let code = RoCode::<i32>::new(vec![
        Instruction::Read,
        Instruction::Add(Value::Constant(2)),
        Instruction::Write,
        Instruction::Stop,
    ]);
    assert_eq!(Ram::new(code, vec![1]).run(), Ok(vec![3]));
}

#[test]
fn inc_overflow_reported() {
    let code = RoCode::<u8>::new(vec![
        Instruction::Load(Value::Constant(255)),
        Instruction::Increment(Register::Direct(RwLoc(0))),
    ]);
    assert_eq!(
        Ram::without_inputs(code).run(),
        Err(RunError::IntegerOverflow)
    );
}

#[test]
fn dec_overflow_reported() {
    let code = RoCode::<u32>::new(vec![
        Instruction::Load(Value::Constant(0)),
        Instruction::Decrement(Register::Direct(RwLoc(0))),
    ]);
    assert_eq!(
        Ram::without_inputs(code).run(),
        Err(RunError::IntegerOverflow)
    );
}

#[test]
fn add_overflow_reported() {
    let code = RoCode::<u8>::new(vec![
        Instruction::Load(Value::Constant(200)),
        Instruction::Store(Register::Direct(WoLoc(1))),
        Instruction::Load(Value::Constant(70)),
        Instruction::Add(Value::Register(Register::Direct(RoLoc(1)))),
    ]);
    assert_eq!(
        Ram::without_inputs(code).run(),
        Err(RunError::IntegerOverflow)
    );
}

#[test]
fn div_zero_reported() {
    let code = RoCode::<u8>::new(vec![
        Instruction::Load(Value::Constant(1)),
        Instruction::Div(Value::Constant(0)),
    ]);
    assert_eq!(
        Ram::without_inputs(code).run(),
        Err(RunError::IntegerOverflow)
    );
}

#[test]
fn rem_zero_reported() {
    let code = RoCode::<u8>::new(vec![
        Instruction::Load(Value::Constant(1)),
        Instruction::Mod(Value::Constant(0)),
    ]);
    assert_eq!(
        Ram::without_inputs(code).run(),
        Err(RunError::IntegerOverflow)
    );
}

#[test]
fn read_eof_reported() {
    let code = RoCode::<i32>::new(vec![Instruction::Read, Instruction::Stop]);
    assert_eq!(Ram::without_inputs(code).run(), Err(RunError::ReadEof));
}

#[test]
fn write_uninit_reported() {
    let code = RoCode::<i32>::new(vec![Instruction::Write, Instruction::Stop]);
    assert_eq!(
        Ram::without_inputs(code).run(),
        Err(RunError::ReadUninit { adr: RoLoc(0) })
    );
}

#[test]
fn load_uninit_reported() {
    let code = RoCode::<i32>::new(vec![Instruction::Load(Value::Register(
        Register::Direct(RoLoc(0)),
    ))]);
    assert_eq!(
        Ram::without_inputs(code).run(),
        Err(RunError::ReadUninit { adr: RoLoc(0) })
    );
}

#[test]
fn load_indirect_uninit_reported() {
    let code = RoCode::<i32>::new(vec![
        Instruction::Load(Value::Constant(1)),
        Instruction::Load(Value::Register(Register::Indirect(RoLoc(0)))),
    ]);
    assert_eq!(
        Ram::without_inputs(code).run(),
        Err(RunError::ReadUninit { adr: RoLoc(1) })
    );
}

#[test]
fn load_indirect_negative_reported() {
    let code = RoCode::<i32>::new(vec![
        Instruction::Load(Value::Constant(-10)),
        Instruction::Load(Value::Register(Register::Indirect(RoLoc(0)))),
    ]);
    assert_eq!(
        Ram::without_inputs(code).run(),
        Err(RunError::InvalidAddress { adr: -10 })
    );
}

#[test]
fn store_indirect_negative_reported() {
    let code = RoCode::<i32>::new(vec![
        Instruction::Load(Value::Constant(-3)),
        Instruction::Store(Register::Direct(WoLoc(1))),
        Instruction::Store(Register::Indirect(RoLoc(1))),
    ]);
    assert_eq!(
        Ram::without_inputs(code).run(),
        Err(RunError::InvalidAddress { adr: -3 })
    );
}

#[test]
fn jump_inexistent_reported() {
    let code = RoCode::<i32>::new(vec![Instruction::Jump(Ir::new(100))]);
    assert_eq!(
        Ram::without_inputs(code).run(),
        Err(RunError::InexistentJump)
    );
}

#[test]
fn missing_stop_reported() {
    let code = RoCode::<i32>::new(vec![Instruction::Nop]);
    assert_eq!(Ram::without_inputs(code).run(), Err(RunError::Eof));
}

#[test]
fn write_at_end_extends_output_before_eof() {
    let code = RoCode::<i32>::new(vec![
        Instruction::Load(Value::Constant(1)),
        Instruction::Write,
    ]);
    let mut ram = Ram::without_inputs(code);
    assert_eq!(ram.step(), Ok(()));
    assert_eq!(ram.step(), Err(RunError::Eof));
    assert_eq!(ram.output(), &vec![1]);
    assert_eq!(ram.ir(), 2);
}

#[test]
fn wide_unsigned_words_run() {
    let big: u128 = 170141183460469231731687303715884105828;
    let code = RoCode::<u128>::new(vec![
        Instruction::Load(Value::Constant(big)),
        Instruction::Sub(Value::Constant(100)),
        Instruction::Write,
        Instruction::Stop,
    ]);
    assert_eq!(
        Ram::without_inputs(code).run(),
        Ok(vec![170141183460469231731687303715884105728])
    );
}

#[test]
fn deterministic_runs() {
    let code = RoCode::<i32>::new(vec![
        Instruction::Read,
        Instruction::Mul(Value::Constant(7)),
        Instruction::Write,
        Instruction::Stop,
    ]);
    let first = Ram::new(code.clone(), vec![6]).run();
    let second = Ram::new(code, vec![6]).run();
    assert_eq!(first, second);
    assert_eq!(first, Ok(vec![42]));
}

#[test]
fn optimized_program_same_output() {
    let code = RoCode::<i32>::new(vec![
        Instruction::Read,
        Instruction::Add(Value::Constant(1)),
        Instruction::Add(Value::Constant(2)),
        Instruction::Nop,
        Instruction::Write,
        Instruction::Stop,
    ]);
    let optimized = code.optimize();
    assert_eq!(
        Ram::new(code, vec![4]).run(),
        Ram::new(optimized, vec![4]).run()
    );
}
