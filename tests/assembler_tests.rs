use yahvm::assembler::{
    assemble, first_pass, parse_num, parse_opcode, parse_type, parse_var, process_line,
    char_index_of, resolve_labels, split_line, AsmError, AsmFailure,
};
use yahvm::codec::{get_num, get_unum};
use yahvm::vm::{Vm, VmError};

fn source(lines: &[&str]) -> Vec<String> {
    lines.iter().map(|l| l.to_string()).collect()
}

fn chars(s: &str) -> Vec<char> {
    s.chars().collect()
}

fn words(bytes: &[u8]) -> Vec<u32> {
    bytes.chunks(4).map(|c| u32::from_be_bytes([c[0], c[1], c[2], c[3]])).collect()
}

fn run_source(lines: &[&str]) -> (Vm, Result<(), VmError>) {
    let bytes = assemble(&source(lines)).unwrap();
    let mut vm = Vm::new();
    vm.load_bytes(&bytes).unwrap();
    let r = vm.exec();
    (vm, r)
}

#[test]
fn operand_sign_law() {
    assert_eq!(get_num(parse_num(&chars("-3")).unwrap() as u32), -3);
    assert_eq!(get_num(parse_num(&chars("3")).unwrap() as u32), 3);
    assert_eq!(get_num(parse_num(&chars("0")).unwrap() as u32), 0);
    assert_eq!(parse_num(&chars("-3")), Ok(0b10000011));
    assert_eq!(parse_num(&chars("127")), Ok(127));
    assert_eq!(parse_num(&chars("-127")), Ok(255));
    assert_eq!(parse_num(&chars("128")), Err(AsmError::OperandOutOfRange));
    assert_eq!(parse_num(&chars("-128")), Err(AsmError::OperandOutOfRange));
    assert_eq!(parse_num(&chars("99999999999999999999")), Err(AsmError::OperandOutOfRange));
}

#[test]
fn operand_literal_forms() {
    assert_eq!(parse_num(&chars("+5")), Ok(5));
    assert_eq!(parse_num(&chars("007")), Ok(7));
    assert_eq!(parse_num(&chars("")), Err(AsmError::InvalidOperand));
    assert_eq!(parse_num(&chars("-")), Err(AsmError::InvalidOperand));
    assert_eq!(parse_num(&chars("1x")), Err(AsmError::InvalidOperand));
    assert_eq!(parse_num(&chars("300x")), Err(AsmError::InvalidOperand));
}

#[test]
fn lookup_tables() {
    assert_eq!(parse_opcode(&chars("PRT")), Some(0));
    assert_eq!(parse_opcode(&chars("CLP")), Some(10));
    assert_eq!(parse_opcode(&chars("prt")), None);
    assert_eq!(parse_opcode(&chars("NOP")), None);
    assert_eq!(parse_var(&chars("$0")), Some(0));
    assert_eq!(parse_var(&chars("$f")), Some(15));
    assert_eq!(parse_var(&chars("$F")), Some(15));
    assert_eq!(parse_var(&chars("$A")), Some(10));
    assert_eq!(parse_var(&chars("$g")), None);
    assert_eq!(parse_var(&chars("$10")), None);
    assert_eq!(parse_type(&chars("3")), Some(3));
    assert_eq!(parse_type(&chars("4")), None);
}

#[test]
fn splits_on_single_spaces() {
    assert_eq!(split_line(&chars("SET $0 1")), vec![chars("SET"), chars("$0"), chars("1")]);
    assert_eq!(split_line(&chars("A  B")), vec![chars("A"), chars(""), chars("B")]);
    assert_eq!(split_line(&chars("")), vec![chars("")]);
}

#[test]
fn encodes_each_form() {
    assert_eq!(process_line(&chars("SET $0 0 1")), Ok(0b000100000000000001));
    assert_eq!(process_line(&chars("SET $0 -3")), Ok(0b000100000010000011));
    assert_eq!(process_line(&chars("ADD $1 $B")), Ok(0b001000010100001011));
    assert_eq!(process_line(&chars("PRT $2")), Ok(0b000000101000000000));
    assert_eq!(process_line(&chars("PRT 12")), Ok(0b000000000000001100));
    assert_eq!(process_line(&chars("JMP 5")), Ok(0b011000000000000101));
    assert_eq!(process_line(&chars("JNP $0 0 5")), Ok(0b011100000000000101));
}

#[test]
fn each_assembly_error() {
    assert_eq!(process_line(&chars("NOP $0 0 1")), Err(AsmError::UnknownMnemonic));
    assert_eq!(process_line(&chars("SET $x 0 1")), Err(AsmError::UnknownRegister));
    assert_eq!(process_line(&chars("SET $0 $z")), Err(AsmError::UnknownRegister));
    assert_eq!(process_line(&chars("SET $0 7 1")), Err(AsmError::InvalidType));
    assert_eq!(process_line(&chars("SET $0 0 one")), Err(AsmError::InvalidOperand));
    assert_eq!(process_line(&chars("SET $0 0 200")), Err(AsmError::OperandOutOfRange));
    assert_eq!(process_line(&chars("SET $0")), Err(AsmError::WrongTokenCount));
    assert_eq!(process_line(&chars("SET $0 0 1 2")), Err(AsmError::WrongTokenCount));
    assert_eq!(
        assemble(&source(&["JMP #nowhere"])),
        Err(AsmFailure { error: AsmError::UnknownLabel, line: "JMP #nowhere".to_string() })
    );
}

#[test]
fn failure_names_the_source_line() {
    let lines = source(&["; start", "SET $0 0 1", "#l", "ADD $0 0 999", "JMP #l"]);
    assert_eq!(
        assemble(&lines),
        Err(AsmFailure { error: AsmError::OperandOutOfRange, line: "ADD $0 0 999".to_string() })
    );
    let lines = source(&["ADD $0 0 999", "JMP #missing"]);
    assert_eq!(
        assemble(&lines),
        Err(AsmFailure { error: AsmError::UnknownLabel, line: "JMP #missing".to_string() })
    );
    let lines = source(&["#x", "JMP #x", "FOO $0 0 0"]);
    assert_eq!(
        assemble(&lines),
        Err(AsmFailure { error: AsmError::UnknownMnemonic, line: "FOO $0 0 0".to_string() })
    );
}

#[test]
fn byte_offsets_become_char_indices() {
    let line = chars("é#ab");
    assert_eq!(char_index_of(&line, 0), 0);
    assert_eq!(char_index_of(&line, 1), 0);
    assert_eq!(char_index_of(&line, 2), 1);
    assert_eq!(char_index_of(&line, 5), 4);
    assert_eq!(char_index_of(&line, 99), 4);
}

#[test]
fn each_reference_resolves_on_its_own() {
    let table = vec![(chars("#a"), 0), (chars("#ab"), 1)];
    assert_eq!(
        resolve_labels("SET $0 #a #ab", &vec![(7, 9), (10, 13)], &table),
        Ok(chars("SET $0 1 2"))
    );
    assert_eq!(
        resolve_labels("SET $0 #ab #a", &vec![(7, 10), (11, 13)], &table),
        Ok(chars("SET $0 2 1"))
    );
    let lines = source(&["#a", "SET $1 0 4", "#ab", "SET $0 #a #ab", "PRT $0"]);
    let ws = words(&assemble(&lines).unwrap());
    assert_eq!(ws[1], process_line(&chars("SET $0 1 2")).unwrap());
}

#[test]
fn repeated_reference_resolves_each_time() {
    let table = vec![(chars("#x"), 4)];
    assert_eq!(resolve_labels("#x #x", &vec![(0, 2), (3, 5)], &table), Ok(chars("5 5")));
}

#[test]
fn non_ascii_label_resolves() {
    let table = vec![(chars("#é"), 2)];
    assert_eq!(resolve_labels("JMP #é", &vec![(4, 7)], &table), Ok(chars("JMP 3")));
    let (vm, r) = run_source(&["SET $0 0 0", "#bücle", "ADD $0 0 1", "CLP $0 0 4", "JMP #bücle", "PRT $0"]);
    assert_eq!(r, Ok(()));
    assert_eq!(vm.output, "output: 4");
}

#[test]
fn first_pass_counts_instruction_lines() {
    let lines = source(&["; note", "SET $0 0 1", "", "#top", "ADD $0 0 1", "#end", "#top"]);
    let (idx, table) = first_pass(&lines);
    assert_eq!(idx, vec![1, 4]);
    assert_eq!(table, vec![(chars("#top"), 1), (chars("#end"), 2), (chars("#top"), 2)]);
}

#[test]
fn resolves_given_spans() {
    let table = vec![(chars("#a"), 0), (chars("#loop"), 4)];
    assert_eq!(resolve_labels("JMP #loop", &vec![(4, 9)], &table), Ok(chars("JMP 5")));
    assert_eq!(resolve_labels("JMP #a", &vec![(4, 6)], &table), Ok(chars("JMP 1")));
    assert_eq!(resolve_labels("JMP #b", &vec![(4, 6)], &table), Err(AsmError::UnknownLabel));
    assert_eq!(resolve_labels("JMP 3", &vec![], &table), Ok(chars("JMP 3")));
}

#[test]
fn label_offset_law() {
    let lines = source(&["SET $0 0 0", "#loop", "ADD $0 0 1", "CLP $0 0 3", "JMP #loop", "PRT $0"]);
    let ws = words(&assemble(&lines).unwrap());
    assert_eq!(ws.len(), 5);
    assert_eq!(get_unum(ws[3]), 2);
    let (vm, r) = run_source(&["SET $0 0 0", "#loop", "ADD $0 0 1", "CLP $0 0 3", "JMP #loop", "PRT $0"]);
    assert_eq!(r, Ok(()));
    assert_eq!(vm.registers[0], 3);
    assert_eq!(vm.output, "output: 3");
}

#[test]
fn arithmetic_scenarios() {
    let (vm, r) = run_source(&["SET $0 0 1", "ADD $0 0 2"]);
    assert_eq!(r, Ok(()));
    assert_eq!(vm.registers[0], 3);
    let (vm, r) = run_source(&["SET $0 0 2", "DIV $0 0 2"]);
    assert_eq!(r, Ok(()));
    assert_eq!(vm.registers[0], 1);
    let (_, r) = run_source(&["SET $0 0 2", "DIV $0 0 0"]);
    assert_eq!(r, Err(VmError::DivideByZero));
}

#[test]
fn comparison_and_branch() {
    let (vm, _) = run_source(&["SET $0 0 5", "CBP $0 0 3"]);
    assert!(vm.jump);
    let (vm, r) = run_source(&["SET $1 0 0", "#back", "ADD $1 0 1", "SET $0 0 5", "CBP $0 0 3", "EQL $1 0 1", "JMP #back", "PRT $1"]);
    assert_eq!(r, Ok(()));
    assert_eq!(vm.registers[1], 2);
    let (vm, r) = run_source(&["SET $0 0 5", "CBP $0 0 3", "JNP #skip", "SET $2 0 9", "#skip", "PRT $2"]);
    assert_eq!(r, Ok(()));
    assert_eq!(vm.registers[2], 9);
    assert_eq!(vm.output, "output: 9");
}

#[test]
fn print_forms() {
    let (vm, _) = run_source(&["SET $0 0 1", "PRT $0"]);
    assert_eq!(vm.output, "output: 1");
    let (vm, _) = run_source(&["PRT 12"]);
    assert_eq!(vm.output, "output: 12");
    assert!(vm.registers.iter().all(|r| *r == 0));
}

#[test]
fn reassembly_is_identical() {
    let lines = source(&["; demo", "SET $0 0 3", "#l", "SUB $0 0 1", "CBP $0 0 0", "JMP #l", "PRT $0"]);
    let a = assemble(&lines).unwrap();
    let b = assemble(&lines).unwrap();
    assert_eq!(a, b);
    assert_eq!(a.len(), 20);
}

#[test]
fn set_shortform_with_register_operand() {
    let (vm, r) = run_source(&["SET $1 122", "SET $0 9", "SET $2 $1", "PRT $2"]);
    assert_eq!(r, Ok(()));
    assert_eq!(vm.registers[0], 9);
    assert_eq!(vm.registers[2], 122);
    assert_eq!(vm.output, "output: 122");
}

#[test]
fn labels_with_word_characters() {
    let (vm, r) = run_source(&["SET $0 0 0", "#count_up2", "ADD $0 0 2", "CLP $0 0 6", "JMP #count_up2", "PRT $0"]);
    assert_eq!(r, Ok(()));
    assert_eq!(vm.output, "output: 6");
}
