use rame::code::RoCode;
use rame::inst::{Instruction, Register, RoLoc, Value};
use rame::ir::Ir;
use rame::passes::{run_pass, run_passes, PassKind};
use rame::rw::WoCode;

fn k(v: i32) -> Value<i32> {
    Value::Constant(v)
}

fn reg(n: usize) -> Value<i32> {
    Value::Register(Register::Direct(RoLoc(n)))
}

#[test]
fn remove_nops() {
    let a = RoCode::<i32>::new(vec![
        Instruction::Nop,
        Instruction::Jump(Ir::new(3)),
        Instruction::Nop,
        Instruction::Write,
        Instruction::Nop,
        Instruction::Nop,
        Instruction::Jump(Ir::new(3)),
    ]);
    let b = RoCode::<i32>::new(vec![
        Instruction::Jump(Ir::new(1)),
        Instruction::Write,
        Instruction::Jump(Ir::new(1)),
    ]);
    assert_eq!(run_pass(&a, PassKind::RemoveNops), b);
}

#[test]
fn mod_remove_nops() {
    let a = RoCode::<i32>::new(vec![
        Instruction::Nop,
        Instruction::Jump(Ir::new(3)),
        Instruction::Nop,
        Instruction::Write,
        Instruction::Nop,
        Instruction::Nop,
        Instruction::Jump(Ir::new(3)),
    ]);
    let b = RoCode::<i32>::new(vec![
        Instruction::Jump(Ir::new(1)),
        Instruction::Write,
        Instruction::Jump(Ir::new(1)),
    ]);
    assert_eq!(run_pass(&a, PassKind::RemoveNops), b);
}

#[test]
fn cant_combine() {
    let code = RoCode::<i32>::new(vec![
        Instruction::Jump(Ir::new(2)),
        Instruction::Add(k(1)),
        Instruction::Add(k(3)),
    ]);
    let rewriter = WoCode::new(&code);
    assert!(!rewriter.can_combine(Ir::new(1), Ir::new(2)));
}

#[test]
fn mod_cant_combine() {
    let code = RoCode::<i32>::new(vec![
        Instruction::Jump(Ir::new(2)),
        Instruction::Add(k(1)),
        Instruction::Add(k(3)),
    ]);
    let rewriter = WoCode::new(&code);
    assert!(!rewriter.can_combine(Ir::new(1), Ir::new(2)));
}

#[test]
fn remove_identities() {
    let a = RoCode::<i32>::new(vec![
        Instruction::Add(k(0)),
        Instruction::Sub(k(0)),
        Instruction::Mul(k(1)),
        Instruction::Div(k(1)),
    ]);
    let b = RoCode::<i32>::new(vec![Instruction::Stop]);
    assert_eq!(run_pass(&a, PassKind::FoldConsts), b);
}

#[test]
fn mod_remove_identities() {
    let a = RoCode::<i32>::new(vec![
        Instruction::Add(k(0)),
        Instruction::Sub(k(0)),
        Instruction::Mul(k(1)),
        Instruction::Div(k(1)),
    ]);
    let b = RoCode::<i32>::new(vec![Instruction::Stop]);
    assert_eq!(run_pass(&a, PassKind::FoldConsts), b);
}

#[test]
fn combine_consts() {
    let a = RoCode::<i32>::new(vec![
        Instruction::Add(k(0)),
        Instruction::Sub(k(-1)),
        Instruction::Add(k(2)),
        Instruction::Mul(k(1)),
        Instruction::Div(k(2)),
        Instruction::Div(k(3)),
    ]);
    let b = RoCode::<i32>::new(vec![Instruction::Add(k(3)), Instruction::Div(k(6))]);
    assert_eq!(run_pass(&a, PassKind::FoldConsts), b);
}

#[test]
fn mod_combine_consts() {
    let a = RoCode::<i32>::new(vec![
        Instruction::Add(k(0)),
        Instruction::Sub(k(-1)),
        Instruction::Add(k(2)),
        Instruction::Mul(k(1)),
        Instruction::Div(k(2)),
        Instruction::Div(k(3)),
    ]);
    let b = RoCode::<i32>::new(vec![Instruction::Add(k(3)), Instruction::Div(k(6))]);
    assert_eq!(run_pass(&a, PassKind::FoldConsts), b);
}

#[test]
fn jump_block_combine_consts() {
    let a = RoCode::<i32>::new(vec![
        Instruction::Add(k(1)),
        Instruction::Add(k(2)),
        Instruction::Add(k(3)),
        Instruction::Add(k(4)),
        Instruction::Jump(Ir::new(3)),
    ]);
    let b = RoCode::<i32>::new(vec![
        Instruction::Add(k(6)),
        Instruction::Add(k(4)),
        Instruction::Jump(Ir::new(1)),
    ]);
    assert_eq!(run_pass(&a, PassKind::FoldConsts), b);
}

#[test]
fn mod_jump_block_combine_consts() {
    let a = RoCode::<i32>::new(vec![
        Instruction::Add(k(1)),
        Instruction::Add(k(2)),
        Instruction::Add(k(3)),
        Instruction::Add(k(4)),
        Instruction::Jump(Ir::new(3)),
    ]);
    let b = RoCode::<i32>::new(vec![
        Instruction::Add(k(6)),
        Instruction::Add(k(4)),
        Instruction::Jump(Ir::new(1)),
    ]);
    assert_eq!(run_pass(&a, PassKind::FoldConsts), b);
}

#[test]
fn follow_jumps() {
    let a = RoCode::<i32>::new(vec![
        Instruction::JumpZero(Ir::new(1)),
        Instruction::Jump(Ir::new(2)),
        Instruction::Jump(Ir::new(3)),
        Instruction::JumpLtz(Ir::new(4)),
    ]);
    let b = RoCode::<i32>::new(vec![
        Instruction::JumpZero(Ir::new(3)),
        Instruction::Jump(Ir::new(3)),
        Instruction::Jump(Ir::new(3)),
        Instruction::JumpLtz(Ir::new(4)),
    ]);
    assert_eq!(run_pass(&a, PassKind::SimplifyJumps), b);
}

#[test]
fn combine_jumps() {
    let a = RoCode::<i32>::new(vec![
        Instruction::JumpZero(Ir::new(1)),
        Instruction::Jump(Ir::new(2)),
        Instruction::Jump(Ir::new(3)),
        Instruction::JumpLtz(Ir::new(4)),
    ]);
    let b = RoCode::<i32>::new(vec![
        Instruction::JumpZero(Ir::new(3)),
        Instruction::Jump(Ir::new(3)),
        Instruction::Jump(Ir::new(3)),
        Instruction::JumpLtz(Ir::new(4)),
    ]);
    assert_eq!(run_pass(&a, PassKind::SimplifyJumps), b);
}

#[test]
fn dont_follow_infinite_jumps() {
    let a = RoCode::<i32>::new(vec![
        Instruction::Jump(Ir::new(0)),
        Instruction::Jump(Ir::new(2)),
        Instruction::Jump(Ir::new(1)),
    ]);
    assert_eq!(run_pass(&a, PassKind::SimplifyJumps), a);
}

#[test]
fn dont_combine_infinite_jumps() {
    let a = RoCode::<i32>::new(vec![
        Instruction::Jump(Ir::new(0)),
        Instruction::Jump(Ir::new(2)),
        Instruction::Jump(Ir::new(1)),
    ]);
    assert_eq!(run_pass(&a, PassKind::SimplifyJumps), a);
}

#[test]
fn remove_dead_code() {
    let a = RoCode::<i32>::new(vec![
        Instruction::Load(k(0)),
        Instruction::Jump(Ir::new(5)),
        Instruction::Add(k(1)),
        Instruction::Add(reg(0)),
        Instruction::Div(reg(2)),
        Instruction::Write,
        Instruction::Jump(Ir::new(5)),
    ]);
    let b = RoCode::<i32>::new(vec![
        Instruction::Load(k(0)),
        Instruction::Jump(Ir::new(2)),
        Instruction::Write,
        Instruction::Jump(Ir::new(2)),
    ]);
    assert_eq!(run_pass(&a, PassKind::RemoveUnreachableCode), b);
}

#[test]
fn mod_remove_dead_code() {
    let a = RoCode::<i32>::new(vec![
        Instruction::Jump(Ir::new(2)),
        Instruction::Read,
        Instruction::Stop,
    ]);
    let b = RoCode::<i32>::new(vec![Instruction::Jump(Ir::new(1)), Instruction::Stop]);
    assert_eq!(run_pass(&a, PassKind::RemoveUnreachableCode), b);
}

#[test]
fn pass_never_returns_empty_code() {
    let a = RoCode::<i32>::new(vec![Instruction::Nop, Instruction::Nop]);
    let b = RoCode::<i32>::new(vec![Instruction::Stop]);
    assert_eq!(run_pass(&a, PassKind::RemoveNops), b);
}

#[test]
fn all_nops_optimize_to_stop() {
    let a = RoCode::<i32>::new(vec![Instruction::Nop, Instruction::Nop]);
    let b = RoCode::<i32>::new(vec![Instruction::Stop]);
    assert_eq!(run_passes(&a), b);
}

#[test]
fn optimize_twice_same_result() {
    let a = RoCode::<i32>::new(vec![
        Instruction::Nop,
        Instruction::Add(k(1)),
        Instruction::Add(k(2)),
        Instruction::Write,
        Instruction::Stop,
    ]);
    let once = a.optimize();
    let twice = once.optimize();
    assert_eq!(once, twice);
}
