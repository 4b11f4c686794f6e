use bytevm::opcode::OpCode;
use bytevm::value::Value;
use bytevm::vm::{Function, RuntimeError, VM};

const FUEL: usize = 1_000_000;

fn imm_i(chunk: &mut Vec<u8>, v: i64) {
    chunk.push(OpCode::ImmI.byte());
    chunk.extend_from_slice(&v.to_be_bytes());
}

fn op2(chunk: &mut Vec<u8>, op: OpCode, b0: u8, b1: u8) {
    chunk.push(op.byte());
    chunk.push(b0);
    chunk.push(b1);
}

#[test]
fn test_factorial() {
    let factorial = vec![
        OpCode::ImmI.byte(), 0, 0, 0, 0, 0, 0, 0, 5,
        OpCode::Store.byte(), 0, 0,

        // x = 1
        OpCode::ImmI.byte(), 0, 0, 0, 0, 0, 0, 0, 1,
        OpCode::Store.byte(), 0, 1,

        // while n > 1 {
        OpCode::Load.byte(), 0, 0,
        OpCode::ImmI.byte(), 0, 0, 0, 0, 0, 0, 0, 1,
        OpCode::CmpGtI.byte(),
        OpCode::GotoIf.byte(), 0, 69,

        // x = x * n
        OpCode::Load.byte(), 0, 1,
        OpCode::Load.byte(), 0, 0,
        OpCode::MulI.byte(),
        OpCode::Store.byte(), 0, 1,

        // n = n - 1
        OpCode::ImmI.byte(), 0, 0, 0, 0, 0, 0, 0, 1,
        OpCode::Load.byte(), 0, 0,
        OpCode::SubI.byte(),
        OpCode::Store.byte(), 0, 0,

        // }
        OpCode::Goto.byte(), 0, 24,

        // return x
        OpCode::Load.byte(), 0, 1,
        OpCode::Return.byte(),
    ];

    let mut vm = VM::new(factorial, Vec::new(), Vec::new());
    assert_eq!(vm.execute_all(FUEL), Ok(true));
    assert_eq!(vm.stack(), &vec![Value::Integer(120)]);
}

#[test]
fn factorial_through_recursive_call() {
    // callee: arity 1, local 0 holds n; computes n! iteratively.
    let body = vec![
        OpCode::ImmI.byte(), 0, 0, 0, 0, 0, 0, 0, 1,
        OpCode::Store.byte(), 0, 1,
        OpCode::Load.byte(), 0, 0,
        OpCode::ImmI.byte(), 0, 0, 0, 0, 0, 0, 0, 1,
        OpCode::CmpGtI.byte(),
        OpCode::GotoIf.byte(), 0, 57,
        OpCode::Load.byte(), 0, 1,
        OpCode::Load.byte(), 0, 0,
        OpCode::MulI.byte(),
        OpCode::Store.byte(), 0, 1,
        OpCode::ImmI.byte(), 0, 0, 0, 0, 0, 0, 0, 1,
        OpCode::Load.byte(), 0, 0,
        OpCode::SubI.byte(),
        OpCode::Store.byte(), 0, 0,
        OpCode::Goto.byte(), 0, 12,
        OpCode::Load.byte(), 0, 1,
        OpCode::Return.byte(),
    ];
    let mut top = Vec::new();
    imm_i(&mut top, 5);
    top.push(OpCode::Call.byte());
    top.push(0);
    top.push(OpCode::Return.byte());

    let table = vec![Function { arity: 1, chunk: body }];
    let mut vm = VM::new(top, Vec::new(), table);
    assert_eq!(vm.execute_all(FUEL), Ok(true));
    assert_eq!(vm.stack(), &vec![Value::Integer(120)]);
}

#[test]
fn callee_reads_caller_locals_as_globals() {
    // caller stores 42 in local 0, then calls a zero-arity function that
    // reads it through the captured/global slots.
    let body = vec![
        OpCode::LoadGlobal.byte(),
        0,
        0,
        OpCode::Return.byte(),
    ];
    let mut top = Vec::new();
    imm_i(&mut top, 42);
    op2(&mut top, OpCode::Store, 0, 0);
    top.push(OpCode::Call.byte());
    top.push(0);
    top.push(OpCode::Return.byte());

    let table = vec![Function { arity: 0, chunk: body }];
    let mut vm = VM::new(top, Vec::new(), table);
    assert_eq!(vm.execute_all(FUEL), Ok(true));
    assert_eq!(vm.stack(), &vec![Value::Integer(42)]);
}

#[test]
fn overflow_on_the_257th_push() {
    // 257 pushes against a capacity of 256: the first 256 succeed, the
    // 257th fails with StackOverflow.
    let mut chunk = Vec::new();
    for _ in 0..257 {
        chunk.push(OpCode::ImmIByte.byte());
        chunk.push(1);
    }
    let mut vm = VM::new(chunk, Vec::new(), Vec::new());
    assert_eq!(vm.execute_all(FUEL), Err(RuntimeError::StackOverflow));
    assert_eq!(vm.stack().len(), 256);
}

#[test]
fn push_fails_on_full_stack_and_leaves_it_unchanged() {
    let mut vm = VM::new(Vec::new(), Vec::new(), Vec::new());
    for i in 0..256 {
        assert_eq!(vm.push(Value::Integer(i)), Ok(()));
    }
    assert_eq!(vm.push(Value::Integer(999)), Err(RuntimeError::StackOverflow));
    assert_eq!(vm.stack().len(), 256);
    assert_eq!(vm.stack()[255], Value::Integer(255));
}

#[test]
fn goto_to_stream_length_halts() {
    let mut chunk = Vec::new();
    chunk.push(OpCode::ImmIByte.byte());
    chunk.push(7);
    let len = (chunk.len() + 3) as u16;
    op2(&mut chunk, OpCode::Goto, (len >> 8) as u8, (len & 0xff) as u8);
    let mut vm = VM::new(chunk, Vec::new(), Vec::new());
    assert_eq!(vm.execute_all(FUEL), Ok(true));
    assert_eq!(vm.stack(), &vec![Value::Integer(7)]);
}

#[test]
fn goto_past_stream_length_is_illegal_and_preserves_the_stack() {
    let mut chunk = Vec::new();
    chunk.push(OpCode::ImmIByte.byte());
    chunk.push(7);
    op2(&mut chunk, OpCode::Goto, 0xff, 0xff);
    let mut vm = VM::new(chunk, Vec::new(), Vec::new());
    assert_eq!(vm.execute_all(FUEL), Err(RuntimeError::IllegalGoto));
    assert_eq!(vm.stack(), &vec![Value::Integer(7)]);
}

#[test]
fn goto_if_pops_and_branches_on_nonzero() {
    // pushes 3, then a true word; the jump lands on Return, leaving [3].
    let mut chunk = Vec::new();
    chunk.push(OpCode::ImmIByte.byte());
    chunk.push(3);
    chunk.push(OpCode::ImmW.byte());
    chunk.extend_from_slice(&1u64.to_be_bytes());
    op2(&mut chunk, OpCode::GotoIf, 0, 16);
    chunk.push(OpCode::ImmIByte.byte());
    chunk.push(9);
    chunk.push(OpCode::Return.byte());
    assert_eq!(chunk[16], OpCode::Return.byte());
    let mut vm = VM::new(chunk, Vec::new(), Vec::new());
    assert_eq!(vm.execute_all(FUEL), Ok(true));
    assert_eq!(vm.stack(), &vec![Value::Integer(3)]);
}

#[test]
fn goto_if_falls_through_on_zero() {
    let mut chunk = Vec::new();
    chunk.push(OpCode::ImmW.byte());
    chunk.extend_from_slice(&0u64.to_be_bytes());
    op2(&mut chunk, OpCode::GotoIf, 0, 15);
    chunk.push(OpCode::ImmIByte.byte());
    chunk.push(9);
    chunk.push(OpCode::Return.byte());
    let mut vm = VM::new(chunk, Vec::new(), Vec::new());
    assert_eq!(vm.execute_all(FUEL), Ok(true));
    assert_eq!(vm.stack(), &vec![Value::Integer(9)]);
}

#[test]
fn store_at_slot_count_appends_and_below_overwrites() {
    let mut chunk = Vec::new();
    chunk.push(OpCode::ImmIByte.byte());
    chunk.push(5);
    op2(&mut chunk, OpCode::Store, 0, 0); // append: locals == [5]
    chunk.push(OpCode::ImmIByte.byte());
    chunk.push(6);
    op2(&mut chunk, OpCode::Store, 0, 0); // overwrite: locals == [6]
    chunk.push(OpCode::ImmIByte.byte());
    chunk.push(7);
    op2(&mut chunk, OpCode::Store, 0, 1); // append: locals == [6, 7]
    op2(&mut chunk, OpCode::Load, 0, 0);
    op2(&mut chunk, OpCode::Load, 0, 1);
    let mut vm = VM::new(chunk, Vec::new(), Vec::new());
    assert_eq!(vm.execute_all(FUEL), Ok(true));
    assert_eq!(vm.stack(), &vec![Value::Integer(6), Value::Integer(7)]);
}

#[test]
fn store_past_slot_count_is_unbound() {
    let mut chunk = Vec::new();
    chunk.push(OpCode::ImmIByte.byte());
    chunk.push(5);
    op2(&mut chunk, OpCode::Store, 0, 1); // locals are empty: index 1 > 0
    let mut vm = VM::new(chunk, Vec::new(), Vec::new());
    assert_eq!(vm.execute_all(FUEL), Err(RuntimeError::UnboundVariable));
}

#[test]
fn load_of_unpopulated_slot_is_unbound() {
    let mut chunk = Vec::new();
    op2(&mut chunk, OpCode::Load, 0, 0);
    let mut vm = VM::new(chunk, Vec::new(), Vec::new());
    assert_eq!(vm.execute_all(FUEL), Err(RuntimeError::UnboundVariable));
}

#[test]
fn arithmetic_matches_twos_complement() {
    // 10 - 3: push the right operand first, the left operand on top.
    let mut chunk = Vec::new();
    imm_i(&mut chunk, 3);
    imm_i(&mut chunk, 10);
    chunk.push(OpCode::SubI.byte());
    let mut vm = VM::new(chunk, Vec::new(), Vec::new());
    assert_eq!(vm.execute_all(FUEL), Ok(true));
    assert_eq!(vm.stack(), &vec![Value::Integer(7)]);

    // i64::MAX + 1 wraps to i64::MIN.
    let mut chunk = Vec::new();
    imm_i(&mut chunk, 1);
    imm_i(&mut chunk, i64::MAX);
    chunk.push(OpCode::AddI.byte());
    let mut vm = VM::new(chunk, Vec::new(), Vec::new());
    assert_eq!(vm.execute_all(FUEL), Ok(true));
    assert_eq!(vm.stack(), &vec![Value::Integer(i64::MIN)]);

    // -7 / 2 truncates toward zero.
    let mut chunk = Vec::new();
    imm_i(&mut chunk, 2);
    imm_i(&mut chunk, -7);
    chunk.push(OpCode::DivI.byte());
    let mut vm = VM::new(chunk, Vec::new(), Vec::new());
    assert_eq!(vm.execute_all(FUEL), Ok(true));
    assert_eq!(vm.stack(), &vec![Value::Integer(-3)]);

    // i64::MIN / -1 wraps to i64::MIN.
    let mut chunk = Vec::new();
    imm_i(&mut chunk, -1);
    imm_i(&mut chunk, i64::MIN);
    chunk.push(OpCode::DivI.byte());
    let mut vm = VM::new(chunk, Vec::new(), Vec::new());
    assert_eq!(vm.execute_all(FUEL), Ok(true));
    assert_eq!(vm.stack(), &vec![Value::Integer(i64::MIN)]);

    // 6 * 7, and a comparison word.
    let mut chunk = Vec::new();
    imm_i(&mut chunk, 7);
    imm_i(&mut chunk, 6);
    chunk.push(OpCode::MulI.byte());
    imm_i(&mut chunk, 42);
    chunk.push(OpCode::CmpEqI.byte());
    let mut vm = VM::new(chunk, Vec::new(), Vec::new());
    assert_eq!(vm.execute_all(FUEL), Ok(true));
    assert_eq!(vm.stack(), &vec![Value::Word(1)]);

    // negation wraps at i64::MIN.
    let mut chunk = Vec::new();
    imm_i(&mut chunk, i64::MIN);
    chunk.push(OpCode::NegI.byte());
    let mut vm = VM::new(chunk, Vec::new(), Vec::new());
    assert_eq!(vm.execute_all(FUEL), Ok(true));
    assert_eq!(vm.stack(), &vec![Value::Integer(i64::MIN)]);
}

#[test]
fn dividing_by_zero_is_a_reported_error() {
    let mut chunk = Vec::new();
    imm_i(&mut chunk, 0);
    imm_i(&mut chunk, 10);
    chunk.push(OpCode::DivI.byte());
    let mut vm = VM::new(chunk, Vec::new(), Vec::new());
    assert_eq!(vm.execute_all(FUEL), Err(RuntimeError::DivideByZero));
}

#[test]
fn comparing_words_as_integers_is_a_type_error() {
    let mut chunk = Vec::new();
    chunk.push(OpCode::ImmW.byte());
    chunk.extend_from_slice(&1u64.to_be_bytes());
    chunk.push(OpCode::ImmW.byte());
    chunk.extend_from_slice(&2u64.to_be_bytes());
    chunk.push(OpCode::CmpEqI.byte());
    let mut vm = VM::new(chunk, Vec::new(), Vec::new());
    assert_eq!(vm.execute_all(FUEL), Err(RuntimeError::TypeError));
}

#[test]
fn arithmetic_on_an_empty_stack_is_stack_empty() {
    let chunk = vec![OpCode::AddI.byte()];
    let mut vm = VM::new(chunk, Vec::new(), Vec::new());
    assert_eq!(vm.execute_all(FUEL), Err(RuntimeError::StackEmpty));
}

#[test]
fn unknown_opcode_byte_is_reported() {
    let chunk = vec![99];
    let mut vm = VM::new(chunk, Vec::new(), Vec::new());
    assert_eq!(vm.execute_all(FUEL), Err(RuntimeError::UnknownOpCode));
}

#[test]
fn truncated_operand_is_unexpected_eof() {
    let chunk = vec![OpCode::ImmI.byte(), 0, 0];
    let mut vm = VM::new(chunk, Vec::new(), Vec::new());
    assert_eq!(vm.execute_all(FUEL), Err(RuntimeError::UnexpectedEOF));
}

#[test]
fn constant_pool_load_and_its_index_error() {
    let consts = vec![Value::Char('q'), Value::Integer(-9)];
    let chunk = vec![OpCode::LoadConst.byte(), 1, OpCode::LoadConst.byte(), 0];
    let mut vm = VM::new(chunk, consts.clone(), Vec::new());
    assert_eq!(vm.execute_all(FUEL), Ok(true));
    assert_eq!(vm.stack(), &vec![Value::Integer(-9), Value::Char('q')]);

    let chunk = vec![OpCode::LoadConst.byte(), 2];
    let mut vm = VM::new(chunk, consts, Vec::new());
    assert_eq!(vm.execute_all(FUEL), Err(RuntimeError::ConstIndexError));
}

#[test]
fn call_of_missing_function_is_an_argument_error() {
    let chunk = vec![OpCode::Call.byte(), 0];
    let mut vm = VM::new(chunk, Vec::new(), Vec::new());
    assert_eq!(vm.execute_all(FUEL), Err(RuntimeError::ArgumentError));
}

#[test]
fn finished_callee_with_empty_stack_propagates_stack_empty() {
    // the callee returns nothing: handing its result back fails.
    let body = vec![OpCode::Return.byte()];
    let chunk = vec![OpCode::Call.byte(), 0];
    let table = vec![Function { arity: 0, chunk: body }];
    let mut vm = VM::new(chunk, Vec::new(), table);
    assert_eq!(vm.execute_all(FUEL), Err(RuntimeError::StackEmpty));
}

#[test]
fn short_and_byte_literals_sign_extend() {
    let mut chunk = Vec::new();
    chunk.push(OpCode::ImmIByte.byte());
    chunk.push(0xff); // -1
    chunk.push(OpCode::ImmIShort.byte());
    chunk.push(0x80);
    chunk.push(0x00); // -32768
    let mut vm = VM::new(chunk, Vec::new(), Vec::new());
    assert_eq!(vm.execute_all(FUEL), Ok(true));
    assert_eq!(vm.stack(), &vec![Value::Integer(-1), Value::Integer(-32768)]);
}

#[test]
fn immediate_float_and_word_carry_their_bits() {
    let bits: u64 = 0x4045000000000000; // the IEEE-754 pattern of 42.0
    let mut chunk = Vec::new();
    chunk.push(OpCode::ImmF.byte());
    chunk.extend_from_slice(&bits.to_be_bytes());
    chunk.push(OpCode::ImmW.byte());
    chunk.extend_from_slice(&7u64.to_be_bytes());
    let mut vm = VM::new(chunk, Vec::new(), Vec::new());
    assert_eq!(vm.execute_all(FUEL), Ok(true));
    assert_eq!(vm.stack(), &vec![Value::Float(bits), Value::Word(7)]);
}

#[test]
fn typed_pops_check_the_kind_and_keep_the_stack_on_failure() {
    let mut vm = VM::new(Vec::new(), Vec::new(), Vec::new());
    assert_eq!(vm.get_integer(), Err(RuntimeError::StackEmpty));
    assert_eq!(vm.push(Value::Integer(5)), Ok(()));
    assert_eq!(vm.get_word(), Err(RuntimeError::TypeError));
    assert_eq!(vm.stack().len(), 1);
    assert_eq!(vm.get_integer(), Ok(5));
    assert_eq!(vm.push(Value::Word(3)), Ok(()));
    assert_eq!(vm.get_bool(), Ok(true));
    assert_eq!(vm.push(Value::Word(0)), Ok(()));
    assert_eq!(vm.get_bool(), Ok(false));
    assert_eq!(vm.push(Value::Float(0x3ff0000000000000)), Ok(()));
    assert_eq!(vm.get_float(), Ok(0x3ff0000000000000));
    assert_eq!(vm.pop(), Err(RuntimeError::StackEmpty));
}

#[test]
fn advance_reads_big_endian_operands() {
    let chunk = vec![1, 2, 3, 4, 5, 6, 7, 8, 9, 10, 11, 12, 13, 14, 15];
    let mut vm = VM::new(chunk, Vec::new(), Vec::new());
    assert!(!vm.eof());
    assert_eq!(vm.advance(), Ok(1));
    assert_eq!(vm.advance2(), Ok(0x0203));
    assert_eq!(vm.advance4(), Ok(0x04050607));
    assert_eq!(vm.advance8(), Ok(0x08090a0b0c0d0e0f));
    assert_eq!(vm.advance8(), Err(RuntimeError::UnexpectedEOF));
    assert_eq!(vm.advance(), Err(RuntimeError::UnexpectedEOF));
    assert!(vm.eof());
    assert!(vm.halted());
}

#[test]
fn out_of_fuel_reports_false_without_an_error() {
    // an infinite loop: jump back to offset 0 forever.
    let chunk = vec![OpCode::Goto.byte(), 0, 0];
    let mut vm = VM::new(chunk, Vec::new(), Vec::new());
    assert_eq!(vm.execute_all(1000), Ok(false));
}
