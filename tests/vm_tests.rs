use yahvm::vm::{Vm, VmError};

#[test]
fn it_sets() {
    let mut vm = Vm::new();
    vm.instructions.push(0b000100000010000011_u32); // SET $0 0 -3

    vm.exec().unwrap();

    assert_eq!(vm.registers[0], -3);
}

#[test]
fn it_adds() {
    let mut vm = Vm::new();
    vm.instructions.push(0b000100000000000001_u32); // SET $0 0 1
    vm.instructions.push(0b001000000000000010_u32); // ADD $0 0 2

    vm.exec().unwrap();

    assert_eq!(vm.registers[0], 3);
}

#[test]
fn it_prints() {
    let mut vm = Vm::new();
    vm.instructions.push(0b000100000000000001_u32); // SET $0 0 1
    vm.instructions.push(0b000000001000000000_u32); // PRT $0 2 0

    vm.exec().unwrap();

    assert_eq!(vm.output, String::from("output: 1"));
}

#[test]
fn it_subtracts() {
    let mut vm = Vm::new();
    vm.instructions.push(0b000100000000000001_u32); // SET $0 0 1
    vm.instructions.push(0b001100000000000010_u32); // SUB $0 0 2

    vm.exec().unwrap();

    assert_eq!(vm.registers[0], -1);
}

#[test]
fn it_multiplies() {
    let mut vm = Vm::new();
    vm.instructions.push(0b000100000000000010_u32); // SET $0 0 2
    vm.instructions.push(0b010000000000000010_u32); // MUL $0 0 2

    vm.exec().unwrap();

    assert_eq!(vm.registers[0], 4);
}

#[test]
fn it_divides() {
    let mut vm = Vm::new();
    vm.instructions.push(0b000100000000000010_u32); // SET $0 0 2
    vm.instructions.push(0b010100000000000010_u32); // DIV $0 0 2

    vm.exec().unwrap();

    assert_eq!(vm.registers[0], 1);
}

#[test]
fn it_loads_bin() {
    let mut vm = Vm::new();
    let data: Vec<u8> = vec![
        0x00, 0x00, 0x40, 0x01, // SET $0 0 1
        0x00, 0x00, 0x80, 0x02, // ADD $0 0 2
        0x00, 0x00, 0x02, 0x00, // PRT $0 2 0
    ];
    vm.load_bytes(&data).unwrap();

    assert_eq!(vm.instructions.len(), 3);
    assert_eq!(vm.instructions, vec![0b000100000000000001, 0b001000000000000010, 0b000000001000000000]);
}

#[test]
fn load_refuses_partial_word() {
    let mut vm = Vm::new();
    assert_eq!(vm.load_bytes(&vec![0, 0, 0x40, 0x01, 0x00]), Err(VmError::MalformedProgram));
    assert!(vm.instructions.is_empty());
}

#[test]
fn divide_by_zero_is_fatal() {
    let mut vm = Vm::new();
    vm.instructions.push(0b000100000000000010_u32); // SET $0 0 2
    vm.instructions.push(0b010100000000000000_u32); // DIV $0 0 0
    vm.instructions.push(0b000100000000000111_u32); // SET $0 0 7

    assert_eq!(vm.exec(), Err(VmError::DivideByZero));
    assert_eq!(vm.registers[0], 2);
    assert_eq!(vm.pc(), 1);
}

#[test]
fn overflow_is_fatal() {
    let mut vm = Vm::new();
    vm.instructions.push(0b000100000001111111_u32); // SET $0 0 127
    vm.instructions.push(0b001000000000000001_u32); // ADD $0 0 1
    assert_eq!(vm.exec(), Err(VmError::Overflow));
    assert_eq!(vm.registers[0], 127);
}

#[test]
fn register_operand_out_of_range_is_fatal() {
    let mut vm = Vm::new();
    vm.instructions.push(0b000100000100010000_u32); // SET $0 1 16
    assert_eq!(vm.exec(), Err(VmError::RegisterOutOfRange));
    let mut vm = Vm::new();
    vm.instructions.push(0b001100000110000001_u32); // SUB $0 1 -1
    assert_eq!(vm.exec(), Err(VmError::RegisterOutOfRange));
}

#[test]
fn division_truncates_toward_zero() {
    let mut vm = Vm::new();
    vm.instructions.push(0b000100000010000111_u32); // SET $0 0 -7
    vm.instructions.push(0b010100000000000010_u32); // DIV $0 0 2
    vm.exec().unwrap();
    assert_eq!(vm.registers[0], -3);
}

#[test]
fn register_copy_and_register_arithmetic() {
    let mut vm = Vm::new();
    vm.instructions.push(0b000101000000000101_u32); // SET $4 0 5
    vm.instructions.push(0b000100000100000100_u32); // SET $0 1 4
    vm.instructions.push(0b010000000100000100_u32); // MUL $0 1 4
    vm.exec().unwrap();
    assert_eq!(vm.registers[4], 5);
    assert_eq!(vm.registers[0], 25);
}

#[test]
fn prints_negative_literal() {
    let mut vm = Vm::new();
    vm.instructions.push(0b000000000010001100_u32); // PRT 0 0 -12
    vm.exec().unwrap();
    assert_eq!(vm.output, "output: -12");
}

#[test]
fn tick_limit_stops_a_run() {
    let mut vm = Vm::new();
    vm.instructions.push(0b000100000000000001_u32); // SET $0 0 1
    vm.instructions.push(0b001000000000000001_u32); // ADD $0 0 1
    vm.instructions.push(0b001000000000000001_u32); // ADD $0 0 1
    vm.set_tick_limit(1);
    vm.exec().unwrap();
    assert_eq!(vm.ticks, 2);
    assert_eq!(vm.registers[0], 2);
}

#[test]
fn step_reports_halt() {
    let mut vm = Vm::default();
    assert_eq!(vm.step(), Ok(false));
    vm.instructions.push(0b000100000000000001_u32); // SET $0 0 1
    assert_eq!(vm.step(), Ok(true));
    assert_eq!(vm.step(), Ok(false));
    assert_eq!(vm.pc(), 1);
    assert_eq!(vm.ticks, 1);
}

#[test]
fn compare_sets_flag() {
    for (word, expected) in [
        (0b100000000000000101_u32, true),  // EQL $0 0 5
        (0b100100000000000011_u32, true),  // CBP $0 0 3
        (0b100100000000000101_u32, false), // CBP $0 0 5
        (0b101000000000000110_u32, true),  // CLP $0 0 6
        (0b101000000000000101_u32, false), // CLP $0 0 5
    ] {
        let mut vm = Vm::new();
        vm.instructions.push(0b000100000000000101_u32); // SET $0 0 5
        vm.instructions.push(word);
        vm.exec().unwrap();
        assert_eq!(vm.jump, expected);
    }
}
