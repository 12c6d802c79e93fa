use yahvm::codec::{get_num, get_opcode, get_type, get_unum, get_var, Instruction};

#[test]
fn test_get_opcode() {
    assert_eq!(get_opcode(0b111100000000000000), 0b1111);
    assert_eq!(get_opcode(0b011000000000000000), 0b0110);
    assert_eq!(get_opcode(0b100100000000000000), 0b1001);
}

#[test]
fn test_get_var() {
    assert_eq!(get_var(0b000011110000000000), 0b1111);
    assert_eq!(get_var(0b000001100000000000), 0b0110);
    assert_eq!(get_var(0b000010010000000000), 0b1001);
}

#[test]
fn test_get_type() {
    assert_eq!(get_type(0b000000000000000000), 0b00);
    assert_eq!(get_type(0b000000000100000000), 0b01);
    assert_eq!(get_type(0b000000001000000000), 0b10);
    assert_eq!(get_type(0b000000001100000000), 0b11);
}

#[test]
fn test_get_num() {
    assert_eq!(get_num(0b000000000000000001), 1);
    assert_eq!(get_num(0b000000000000000011), 3);
    assert_eq!(get_num(0b000000000000000100), 4);
    assert_eq!(get_num(0b000000000010000001), -1);
}

#[test]
fn unsigned_operand_keeps_sign_bit() {
    assert_eq!(get_unum(0b000000000010000001), 0b10000001);
    assert_eq!(get_num(0b000000000011111111), -127);
    assert_eq!(get_num(0b000000000001111111), 127);
    assert_eq!(get_num(0b000000000010000000), 0);
}

#[test]
fn encode_then_decode_gives_fields_back() {
    let cases = [(0u8, 0u8, 0u8, 0u8), (15, 15, 3, 255), (10, 3, 1, 0b10000011), (6, 0, 0, 7)];
    for (opcode, var, ins_type, num) in cases {
        let ins = Instruction { opcode, var, ins_type, num };
        let w = ins.as_binary();
        assert!(w < 1 << 18);
        assert_eq!(Instruction::decode(w), ins);
    }
}

#[test]
fn decode_then_encode_gives_word_back() {
    for w in [0u32, 1, 0b111111111111111111, 0b000100000010000011, 0b011000000000000101] {
        assert_eq!(Instruction::decode(w).as_binary(), w);
    }
}

#[test]
fn as_binary_packs_fields() {
    let ins = Instruction { opcode: 1, var: 0, ins_type: 0, num: 0b10000011 };
    assert_eq!(ins.as_binary(), 0b000100000010000011);
    let d = Instruction::default();
    assert_eq!(d.as_binary(), 0);
}
