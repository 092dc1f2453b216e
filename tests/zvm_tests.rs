use zelealem_node::bytecode::OpCode;
use zelealem_node::zvm::ZVM;

fn push(code: &mut Vec<u8>, v: i64) {
    code.push(OpCode::Push as u8);
    code.extend_from_slice(&v.to_le_bytes());
}

#[test]
fn test_simple_arithmetic() {
    let mut bytecode = Vec::new();
    bytecode.push(OpCode::Push as u8);
    bytecode.extend_from_slice(&10i64.to_le_bytes());
    bytecode.push(OpCode::Push as u8);
    bytecode.extend_from_slice(&5i64.to_le_bytes());
    bytecode.push(OpCode::Add as u8);
    bytecode.push(OpCode::Push as u8);
    bytecode.extend_from_slice(&3i64.to_le_bytes());
    bytecode.push(OpCode::Sub as u8);
    bytecode.push(OpCode::Halt as u8);

    let mut vm = ZVM::new(bytecode);
    let result = vm.run().expect("ZVM execution failed");
    assert_eq!(result, 12);
}

#[test]
fn test_stack_underflow_error() {
    let bytecode = vec![
        OpCode::Push as u8,
        10i64.to_le_bytes()[0], 10i64.to_le_bytes()[1], 10i64.to_le_bytes()[2], 10i64.to_le_bytes()[3],
        10i64.to_le_bytes()[4], 10i64.to_le_bytes()[5], 10i64.to_le_bytes()[6], 10i64.to_le_bytes()[7],
        OpCode::Add as u8,
        OpCode::Halt as u8,
    ];

    let mut vm = ZVM::new(bytecode);
    let result = vm.run();
    assert!(result.is_err());
    assert_eq!(result.unwrap_err(), "ADD requires two values on the stack");
}

#[test]
fn opcode_bytes() {
    assert_eq!(OpCode::Halt as u8, 0);
    assert_eq!(OpCode::Push as u8, 1);
    assert_eq!(OpCode::Add as u8, 2);
    assert_eq!(OpCode::Sub as u8, 3);
    assert_eq!(OpCode::from_byte(3), Some(OpCode::Sub));
    assert_eq!(OpCode::from_byte(4), None);
    assert_eq!(OpCode::Push.to_byte(), 1);
}

#[test]
fn vm_errors() {
    let mut vm = ZVM::new(vec![]);
    assert_eq!(vm.run().unwrap_err(), "PC out of bounds");
    let mut vm = ZVM::new(vec![OpCode::Halt as u8]);
    assert_eq!(vm.run().unwrap_err(), "Execution halted on empty stack");
    let mut vm = ZVM::new(vec![0x07]);
    assert!(vm.run().unwrap_err().contains("Invalid opcode"));
    let mut code = Vec::new();
    push(&mut code, 1);
    code.push(OpCode::Sub as u8);
    let mut vm = ZVM::new(code);
    assert_eq!(vm.run().unwrap_err(), "SUB requires two values on the stack");
    let mut vm = ZVM::new(vec![OpCode::Push as u8, 1, 2]);
    assert_eq!(vm.run().unwrap_err(), "PC out of bounds");
    let mut code = Vec::new();
    push(&mut code, 1);
    let mut vm = ZVM::new(code);
    assert_eq!(vm.run().unwrap_err(), "PC out of bounds");
}

#[test]
fn vm_wraps_and_handles_negatives() {
    let mut code = Vec::new();
    push(&mut code, i64::MAX);
    push(&mut code, 1);
    code.push(OpCode::Add as u8);
    code.push(OpCode::Halt as u8);
    assert_eq!(ZVM::new(code).run(), Ok(i64::MIN));

    let mut code = Vec::new();
    push(&mut code, -7);
    push(&mut code, 5);
    code.push(OpCode::Sub as u8);
    code.push(OpCode::Halt as u8);
    assert_eq!(ZVM::new(code).run(), Ok(-12));
}

#[test]
fn vm_evaluates_nested_expression() {
    // (2 - (3 + 4)) + (10 - 1) = 4
    let mut code = Vec::new();
    push(&mut code, 2);
    push(&mut code, 3);
    push(&mut code, 4);
    code.push(OpCode::Add as u8);
    code.push(OpCode::Sub as u8);
    push(&mut code, 10);
    push(&mut code, 1);
    code.push(OpCode::Sub as u8);
    code.push(OpCode::Add as u8);
    code.push(OpCode::Halt as u8);
    assert_eq!(ZVM::new(code).run(), Ok(4));
}
