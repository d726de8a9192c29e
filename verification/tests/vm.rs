use caolo_sim::bytecode::{ByteEncodeProperties, Instruction, Value};
use caolo_sim::input_string::InputString;
use caolo_sim::vm::{ExecutionError, FloatUnit, NoFunction, VM};

struct Ieee;

impl FloatUnit for Ieee {
    fn binary(&self, op: Instruction, lhs: u64, rhs: u64) -> u64 {
        let a = f64::from_bits(lhs);
        let b = f64::from_bits(rhs);
        let r = match op {
            Instruction::AddFloat => a + b,
            Instruction::SubFloat => a - b,
            Instruction::MulFloat => a * b,
            _ => a / b,
        };
        r.to_bits()
    }
}

fn machine() -> VM<(), NoFunction> {
    VM::new(())
}

fn lit_int(v: i64) -> Vec<u8> {
    let mut code = vec![Instruction::LiteralInt.opcode()];
    code.extend(v.encode());
    code
}

fn lit_float(v: f64) -> Vec<u8> {
    let mut code = vec![Instruction::LiteralFloat.opcode()];
    code.extend(v.to_bits().encode());
    code
}

fn binary(a: Vec<u8>, b: Vec<u8>, op: Instruction) -> Vec<u8> {
    let mut code = a;
    code.extend(b);
    code.push(op.opcode());
    code
}

fn run_ints(a: i64, b: i64, op: Instruction) -> Result<Vec<Value>, ExecutionError> {
    let mut vm = machine();
    vm.run(&binary(lit_int(a), lit_int(b), op), &Ieee)?;
    Ok(vm.stack)
}

fn run_floats(a: f64, b: f64, op: Instruction) -> f64 {
    let mut vm = machine();
    vm.run(&binary(lit_float(a), lit_float(b), op), &Ieee).unwrap();
    assert_eq!(vm.stack.len(), 1);
    match vm.stack[0] {
        Value::FValue(bits) => f64::from_bits(bits),
        _ => panic!("not a float"),
    }
}

#[test]
fn a_new_machine_is_empty_and_has_the_default_limits() {
    let vm = machine();
    assert!(vm.stack.is_empty());
    assert!(vm.memory.is_empty());
    assert_eq!(vm.stack_limit, 256);
    assert_eq!(vm.memory_limit, 2048);
    assert_eq!(vm.max_instructions, 65536);
    assert_eq!(*vm.get_aux(), ());
}

#[test]
fn integer_arithmetic() {
    assert_eq!(run_ints(2, 3, Instruction::AddInt), Ok(vec![Value::IValue(5)]));
    assert_eq!(run_ints(10, 3, Instruction::SubInt), Ok(vec![Value::IValue(7)]));
    assert_eq!(run_ints(-4, 6, Instruction::Mul), Ok(vec![Value::IValue(-24)]));
    assert_eq!(run_ints(7, 2, Instruction::Div), Ok(vec![Value::IValue(3)]));
    assert_eq!(run_ints(-7, 2, Instruction::Div), Ok(vec![Value::IValue(-3)]));
    assert_eq!(run_ints(7, -2, Instruction::Div), Ok(vec![Value::IValue(-3)]));
}

#[test]
fn integer_arithmetic_wraps() {
    assert_eq!(run_ints(i64::MAX, 1, Instruction::AddInt), Ok(vec![Value::IValue(i64::MIN)]));
    assert_eq!(run_ints(i64::MIN, 1, Instruction::SubInt), Ok(vec![Value::IValue(i64::MAX)]));
    assert_eq!(run_ints(i64::MAX, 2, Instruction::Mul), Ok(vec![Value::IValue(-2)]));
    assert_eq!(run_ints(i64::MIN, -1, Instruction::Div), Ok(vec![Value::IValue(i64::MIN)]));
}

#[test]
fn division_by_zero_is_fatal_for_integers_only() {
    assert_eq!(run_ints(1, 0, Instruction::Div), Err(ExecutionError::DivideByZero));
    assert_eq!(run_floats(1.0, 0.0, Instruction::DivFloat), f64::INFINITY);
    assert!(run_floats(0.0, 0.0, Instruction::DivFloat).is_nan());
}

#[test]
fn float_arithmetic_goes_through_the_float_unit() {
    assert_eq!(run_floats(42.0, 512.0, Instruction::AddFloat), 554.0);
    assert_eq!(run_floats(1.5, 2.25, Instruction::SubFloat), -0.75);
    assert_eq!(run_floats(1.5, 4.0, Instruction::MulFloat), 6.0);
    assert_eq!(run_floats(9.0, 2.0, Instruction::DivFloat), 4.5);
}

#[test]
fn a_failed_instruction_leaves_the_stack_as_it_was() {
    let mut vm = machine();
    let code = binary(lit_int(1), lit_float(2.0), Instruction::AddInt);
    assert_eq!(vm.run(&code, &Ieee), Err(ExecutionError::TypeMismatch));
    assert_eq!(vm.stack, vec![Value::IValue(1), Value::FValue(2.0f64.to_bits())]);
    let mut vm = machine();
    let code = binary(lit_int(1), lit_int(2), Instruction::AddFloat);
    assert_eq!(vm.run(&code, &Ieee), Err(ExecutionError::TypeMismatch));
    assert_eq!(vm.stack, vec![Value::IValue(1), Value::IValue(2)]);
}

#[test]
fn too_few_operands_are_a_stack_underflow() {
    for op in [Instruction::AddInt, Instruction::Div, Instruction::AddFloat, Instruction::CopyLast] {
        let mut vm = machine();
        assert_eq!(vm.run(&[op.opcode()], &Ieee), Err(ExecutionError::StackUnderflow));
    }
    let mut vm = machine();
    let mut code = lit_int(1);
    code.push(Instruction::Mul.opcode());
    assert_eq!(vm.run(&code, &Ieee), Err(ExecutionError::StackUnderflow));
    assert_eq!(vm.stack, vec![Value::IValue(1)]);
    assert_eq!(vm.pop(), Ok(Value::IValue(1)));
    assert_eq!(vm.pop(), Err(ExecutionError::StackUnderflow));
}

#[test]
fn a_full_stack_is_a_stack_overflow() {
    let mut code = Vec::new();
    for _ in 0..256 {
        code.extend([Instruction::LiteralPtr.opcode(), 1, 0, 0, 0]);
    }
    let mut vm = machine();
    assert_eq!(vm.run(&code, &Ieee), Ok(()));
    assert_eq!(vm.stack.len(), 256);
    assert_eq!(vm.push(Value::IValue(0)), Err(ExecutionError::StackOverflow));
    let mut vm = machine();
    code.push(Instruction::CopyLast.opcode());
    assert_eq!(vm.run(&code, &Ieee), Err(ExecutionError::StackOverflow));
    assert_eq!(vm.stack.len(), 256);
}

#[test]
fn an_unknown_byte_is_fatal() {
    for b in [0u8, 16, 200] {
        let mut vm = machine();
        assert_eq!(vm.run(&[14, b], &Ieee), Err(ExecutionError::UnknownOpcode));
    }
}

#[test]
fn a_truncated_operand_is_an_invalid_argument() {
    let mut vm = machine();
    assert_eq!(vm.run(&[10, 1, 2, 3], &Ieee), Err(ExecutionError::InvalidArgument));
    assert_eq!(vm.run(&[11, 1, 2, 3, 4, 5, 6, 7], &Ieee), Err(ExecutionError::InvalidArgument));
    assert_eq!(vm.run(&[12, 1, 2, 3], &Ieee), Err(ExecutionError::InvalidArgument));
    assert_eq!(vm.run(&[13], &Ieee), Err(ExecutionError::InvalidArgument));
    assert_eq!(vm.run(&[9, 1, 0], &Ieee), Err(ExecutionError::InvalidArgument));
    assert!(vm.stack.is_empty());
}

#[test]
fn the_instruction_budget_aborts_a_long_program() {
    let mut vm = machine();
    vm.max_instructions = 2;
    assert_eq!(vm.run(&[14, 14], &Ieee), Ok(()));
    assert_eq!(vm.run(&[14, 14, 14], &Ieee), Err(ExecutionError::Aborted));
    vm.max_instructions = 0;
    assert_eq!(vm.run(&[], &Ieee), Ok(()));
    assert_eq!(vm.run(&[14], &Ieee), Err(ExecutionError::Aborted));
}

#[test]
fn literals_pass_and_copy() {
    let mut code = vec![Instruction::Pass.opcode()];
    code.extend(lit_int(-9));
    code.extend([Instruction::LiteralPtr.opcode(), 4, 3, 2, 1]);
    code.push(Instruction::CopyLast.opcode());
    code.extend([Instruction::LiteralArray.opcode(), 3, 0, 0, 0, 0, 0, 0, 0]);
    code.extend(lit_float(0.5));
    let mut vm = machine();
    assert_eq!(vm.run(&code, &Ieee), Ok(()));
    assert_eq!(
        vm.stack,
        vec![
            Value::IValue(-9),
            Value::Pointer(0x0102_0304),
            Value::Pointer(0x0102_0304),
            Value::IValue(3),
            Value::FValue(0.5f64.to_bits()),
        ]
    );
    assert!(vm.memory.is_empty());
}

#[test]
fn values_are_written_to_and_read_from_the_memory() {
    let mut vm = machine();
    assert_eq!(vm.set_value_at(10, 7i64), Ok(8));
    assert_eq!(vm.memory.len(), 18);
    assert!(vm.memory[..10].iter().all(|b| *b == 0));
    assert_eq!(vm.get_value::<i64>(10), Some(7));
    assert_eq!(vm.get_value::<i64>(11), None);
    assert_eq!(vm.get_value::<i64>(18), None);
    assert_eq!(vm.get_value::<i64>(19), None);
    assert_eq!(vm.set_value_at(12, 0x0a0b_0c0du32), Ok(4));
    assert_eq!(vm.memory.len(), 18);
    assert_eq!(&vm.memory[10..18], &[7, 0, 0x0d, 0x0c, 0x0b, 0x0a, 0, 0]);
    let name = InputString::from("abc").unwrap();
    assert_eq!(vm.set_value_at(0, name), Ok(7));
    assert_eq!(vm.get_value::<InputString>(0).unwrap().as_str(), "abc");
    assert_eq!(vm.get_value::<Value>(0), None);
}

#[test]
fn a_value_that_does_not_fit_is_a_memory_overflow() {
    let mut vm = machine();
    assert_eq!(vm.set_value_at(2040, 1i64), Ok(8));
    assert_eq!(vm.memory.len(), 2048);
    let mut vm = machine();
    assert_eq!(vm.set_value_at(2041, 1i64), Err(ExecutionError::MemoryOverflow));
    assert_eq!(vm.set_value_at(u32::MAX, 1i64), Err(ExecutionError::MemoryOverflow));
    assert!(vm.memory.is_empty());
}

#[test]
fn a_call_of_a_name_that_is_not_registered_is_fatal() {
    let mut vm = machine();
    let mut code = vec![Instruction::Call.opcode()];
    code.extend(InputString::from("nothing").unwrap().encode());
    assert_eq!(vm.run(&code, &Ieee), Err(ExecutionError::UnknownFunction));
    vm.register_function_obj("nothing", NoFunction {});
    assert_eq!(vm.run(&code, &Ieee), Err(ExecutionError::UnknownFunction));
    assert_eq!(vm.names, vec![b"nothing".to_vec()]);
}

#[test]
fn inputs_are_moved_from_the_stack_to_the_memory() {
    let mut vm = machine();
    assert_eq!(vm.push(Value::IValue(1)), Ok(()));
    assert_eq!(vm.push(Value::IValue(2)), Ok(()));
    assert_eq!(vm.push(Value::Pointer(3)), Ok(()));
    assert_eq!(vm.pass_inputs(4), Err(ExecutionError::StackUnderflow));
    assert_eq!(vm.pass_inputs(2), Ok(0));
    assert_eq!(vm.stack, vec![Value::IValue(1)]);
    let mut expected = Value::IValue(2).encode();
    expected.extend(Value::Pointer(3).encode());
    assert_eq!(vm.memory, expected);
    assert_eq!(vm.pass_inputs(0), Ok(18));
    assert_eq!(vm.pass_inputs(1), Ok(18));
    assert_eq!(vm.memory.len(), 27);
    assert!(vm.stack.is_empty());
    vm.memory_limit = 30;
    assert_eq!(vm.push(Value::IValue(1)), Ok(()));
    assert_eq!(vm.pass_inputs(1), Err(ExecutionError::MemoryOverflow));
    assert_eq!(vm.stack.len(), 1);
    assert_eq!(vm.memory.len(), 27);
}

#[test]
fn the_answer_of_a_call_is_taken_in() {
    let mut vm = machine();
    assert_eq!(vm.finish_call(4, 0), Ok(()));
    assert_eq!(vm.memory, vec![0; 4]);
    assert!(vm.stack.is_empty());
    assert_eq!(vm.finish_call(4, 6), Ok(()));
    assert_eq!(vm.memory, vec![0; 10]);
    assert_eq!(vm.stack, vec![Value::Pointer(4)]);
    assert_eq!(vm.finish_call(2040, 9), Err(ExecutionError::MemoryOverflow));
    assert_eq!(vm.memory.len(), 10);
    vm.stack_limit = 1;
    assert_eq!(vm.finish_call(0, 1), Err(ExecutionError::StackOverflow));
    assert_eq!(vm.finish_call(0, 0), Ok(()));
}

#[test]
fn float_operands_are_the_two_values_on_top() {
    let mut vm = machine();
    assert_eq!(vm.float_inputs(), Err(ExecutionError::StackUnderflow));
    vm.push(Value::FValue(1)).unwrap();
    vm.push(Value::FValue(2)).unwrap();
    vm.push(Value::FValue(3)).unwrap();
    assert_eq!(vm.float_inputs(), Ok((2, 3)));
    vm.float_done(9);
    assert_eq!(vm.stack, vec![Value::FValue(1), Value::FValue(9)]);
    vm.push(Value::IValue(3)).unwrap();
    assert_eq!(vm.float_inputs(), Err(ExecutionError::TypeMismatch));
}
