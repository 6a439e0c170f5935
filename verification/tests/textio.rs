use rame::code::RoCode;
use rame::error::{ParseCodeError, ParseInstructionError};
use rame::inst::{Instruction, Register, RoLoc, RwLoc, Value, WoLoc};
use rame::ir::Ir;
use rame::text::parse_instruction;

#[test]
fn parse_indirect() {
    assert_eq!(
        parse_instruction::<i16>("JUML @4".as_bytes()),
        Err(ParseInstructionError::DisabledIndirect)
    );
}

fn sample_program() -> RoCode<i32> {
    RoCode::new(vec![
        Instruction::Read,
        Instruction::Load(Value::Constant(-5)),
        Instruction::Store(Register::Direct(WoLoc(1))),
        Instruction::Store(Register::Indirect(RoLoc(2))),
        Instruction::Increment(Register::Direct(RwLoc(2))),
        Instruction::Decrement(Register::Indirect(RoLoc(3))),
        Instruction::Add(Value::Register(Register::Direct(RoLoc(4)))),
        Instruction::Sub(Value::Constant(7)),
        Instruction::Mul(Value::Register(Register::Indirect(RoLoc(1)))),
        Instruction::Div(Value::Constant(2)),
        Instruction::Mod(Value::Constant(0)),
        Instruction::Jump(Ir::new(0)),
        Instruction::JumpZero(Ir::new(1)),
        Instruction::JumpLtz(Ir::new(2)),
        Instruction::JumpGtz(Ir::new(3)),
        Instruction::Write,
        Instruction::Nop,
        Instruction::Stop,
    ])
}

#[test]
fn write_then_parse_round_trip() {
    let code = sample_program();
    let mut text: Vec<u8> = Vec::new();
    code.write(&mut text);
    let back = RoCode::<i32>::parse(text.as_slice()).unwrap();
    assert_eq!(back, code);
}

#[test]
fn parse_single_instruction_lines() {
    let text = b"READ\nADD #2\nWRITE\nSTOP";
    let code = RoCode::<i32>::parse(text).unwrap();
    let expected = RoCode::<i32>::new(vec![
        Instruction::Read,
        Instruction::Add(Value::Constant(2)),
        Instruction::Write,
        Instruction::Stop,
    ]);
    assert_eq!(code, expected);
}

#[test]
fn parse_with_comments_and_blanks() {
    let text = b"; a comment line\n\n  READ  \nADD #2 ; add two\n\nWRITE\nSTOP\n";
    let code = RoCode::<i32>::parse(text).unwrap();
    let expected = RoCode::<i32>::new(vec![
        Instruction::Read,
        Instruction::Add(Value::Constant(2)),
        Instruction::Write,
        Instruction::Stop,
    ]);
    assert_eq!(code, expected);
}

#[test]
fn parse_crlf_lines() {
    let text = b"READ\r\nSTOP\r\n";
    let code = RoCode::<i32>::parse(text).unwrap();
    let expected = RoCode::<i32>::new(vec![Instruction::Read, Instruction::Stop]);
    assert_eq!(code, expected);
}

#[test]
fn parse_no_instruction() {
    let text = b"; nothing here\n\n";
    assert_eq!(
        RoCode::<i32>::parse(text),
        Err(ParseCodeError::NoInst)
    );
}

#[test]
fn parse_unknown_instruction() {
    let text = b"READ\nFROB 1\nSTOP";
    assert_eq!(
        RoCode::<i32>::parse(text),
        Err(ParseCodeError::Inst(
            1,
            b"FROB 1".to_vec(),
            ParseInstructionError::UnknownInstruction
        ))
    );
}

#[test]
fn parse_invalid_value() {
    assert_eq!(
        parse_instruction::<i32>(b"ADD #x"),
        Err(ParseInstructionError::InvalidValue)
    );
}

#[test]
fn parse_value_out_of_range() {
    assert_eq!(
        parse_instruction::<u8>(b"LOAD #256"),
        Err(ParseInstructionError::InvalidValue)
    );
    assert!(parse_instruction::<u8>(b"LOAD #255").is_ok());
}

#[test]
fn parse_negative_into_unsigned() {
    assert_eq!(
        parse_instruction::<u8>(b"LOAD #-1"),
        Err(ParseInstructionError::InvalidValue)
    );
}

#[test]
fn parse_invalid_register() {
    assert_eq!(
        parse_instruction::<i32>(b"STORE x"),
        Err(ParseInstructionError::InvalidRegister)
    );
}

#[test]
fn parse_invalid_address() {
    assert_eq!(
        parse_instruction::<i32>(b"JUMP x"),
        Err(ParseInstructionError::InvalidAddress)
    );
}

#[test]
fn parse_disabled_indirect_jump() {
    assert_eq!(
        parse_instruction::<i32>(b"JUMP @1"),
        Err(ParseInstructionError::DisabledIndirect)
    );
}

#[test]
fn render_one_line() {
    let code = RoCode::<i32>::new(vec![Instruction::Sub(Value::Constant(-3))]);
    let mut text: Vec<u8> = Vec::new();
    code.write(&mut text);
    assert_eq!(text, b"SUB #-3".to_vec());
}

#[test]
fn render_joins_lines_without_trailing_newline() {
    let code = RoCode::<i32>::new(vec![
        Instruction::Load(Value::Constant(0)),
        Instruction::Stop,
    ]);
    let mut text: Vec<u8> = Vec::new();
    code.write(&mut text);
    assert_eq!(text, b"LOAD #0\nSTOP".to_vec());
}

#[test]
fn round_trip_extreme_words() {
    let signed = RoCode::<i8>::new(vec![
        Instruction::Load(Value::Constant(-128)),
        Instruction::Add(Value::Constant(127)),
        Instruction::Stop,
    ]);
    let mut text: Vec<u8> = Vec::new();
    signed.write(&mut text);
    assert_eq!(text, b"LOAD #-128\nADD #127\nSTOP".to_vec());
    assert_eq!(RoCode::<i8>::parse(text.as_slice()).unwrap(), signed);

    let unsigned = RoCode::<u8>::new(vec![
        Instruction::Load(Value::Constant(255)),
        Instruction::Stop,
    ]);
    let mut text2: Vec<u8> = Vec::new();
    unsigned.write(&mut text2);
    assert_eq!(RoCode::<u8>::parse(text2.as_slice()).unwrap(), unsigned);
}

#[test]
fn cast_and_map_keep_the_program() {
    let code = RoCode::<i8>::new(vec![
        Instruction::Load(Value::Constant(-7)),
        Instruction::Jump(Ir::new(0)),
        Instruction::Stop,
    ]);
    let wide: RoCode<i64> = code.cast();
    let back: Option<RoCode<i8>> = wide.try_cast();
    assert_eq!(back, Some(code.clone()));
    let doubled: RoCode<i8> = code.map(|x: i8| x.wrapping_mul(2));
    assert_eq!(
        doubled,
        RoCode::<i8>::new(vec![
            Instruction::Load(Value::Constant(-14)),
            Instruction::Jump(Ir::new(0)),
            Instruction::Stop,
        ])
    );
    let narrowed: Option<RoCode<i8>> = RoCode::<i64>::new(vec![Instruction::Load(
        Value::Constant(1000),
    )])
    .try_cast();
    assert_eq!(narrowed, None);
}

#[test]
fn parse_wide_words() {
    let text = b"LOAD #340282366920938463463374607431768211455\nSTOP";
    let code = RoCode::<u128>::parse(text).unwrap();
    let expected = RoCode::<u128>::new(vec![
        Instruction::Load(Value::Constant(u128::MAX)),
        Instruction::Stop,
    ]);
    assert_eq!(code, expected);
    let mut back: Vec<u8> = Vec::new();
    code.write(&mut back);
    assert_eq!(back, text.to_vec());
}

#[test]
fn instruction_round_trip_each_form() {
    let code = sample_program();
    for inst in code.iter() {
        let mut line: Vec<u8> = Vec::new();
        rame::text::render_instruction(&inst, &mut line);
        assert_eq!(parse_instruction::<i32>(line.as_slice()), Ok(inst));
    }
}
