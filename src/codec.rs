//! The instruction word: an 18-bit packing of opcode, register, operand type
//! and a sign-magnitude operand byte.
use vstd::prelude::*;

verus! {

pub const OPCODE_MASK: u32 = 0b111100000000000000;

pub const VAR_MASK: u32 = 0b000011110000000000;

pub const TYPE_MASK: u32 = 0b000000001100000000;

pub const NUM_MASK: u32 = 0b000000000011111111;

/// The word that packs the four fields: opcode in bits 17..14, register in
/// bits 13..10, type in bits 9..8 and the operand byte in bits 7..0.
pub open spec fn word_of(opcode: u8, var: u8, ins_type: u8, num: u8) -> u32 {
    ((opcode as u32) << 14u32) | ((var as u32) << 10u32) | ((ins_type as u32) << 8u32) | (
    num as u32)
}

pub open spec fn opcode_field(w: u32) -> u8 {
    ((w & OPCODE_MASK) >> 14u32) as u8
}

pub open spec fn var_field(w: u32) -> u8 {
    ((w & VAR_MASK) >> 10u32) as u8
}

pub open spec fn type_field(w: u32) -> u8 {
    ((w & TYPE_MASK) >> 8u32) as u8
}

pub open spec fn num_field(w: u32) -> u8 {
    (w & NUM_MASK) as u8
}

/// The signed reading of a sign-magnitude byte: bit 7 is the sign, bits 6..0
/// the magnitude.
pub open spec fn signed_operand(b: u8) -> int {
    if b >= 128 {
        -(b - 128)
    } else {
        b as int
    }
}

/// The sign-magnitude byte of a value with magnitude at most 127.
pub open spec fn sign_magnitude(v: int) -> u8
    recommends
        -127 <= v <= 127,
{
    if v < 0 {
        (128 - v) as u8
    } else {
        v as u8
    }
}

/// A structured instruction before packing.
#[derive(Clone, Copy, Debug, PartialEq, Eq, Structural)]
pub struct Instruction {
    pub opcode: u8,
    pub var: u8,
    pub ins_type: u8,
    pub num: u8,
}

impl Instruction {
    /// Every field fits its width in the word.
    pub open spec fn wf(&self) -> bool {
        self.opcode < 16 && self.var < 16 && self.ins_type < 4
    }

    pub open spec fn spec_word(&self) -> u32 {
        word_of(self.opcode, self.var, self.ins_type, self.num)
    }

    /// The all-zero instruction (`PRT` of the literal 0).
    pub fn default() -> (r: Instruction)
        ensures
            r == (Instruction { opcode: 0, var: 0, ins_type: 0, num: 0 }),
    {
        Instruction { opcode: 0, var: 0, ins_type: 0, num: 0 }
    }

    /// The fields of a word.
    pub fn decode(w: u32) -> (r: Instruction)
        ensures
            r.wf(),
            r == (Instruction {
                opcode: opcode_field(w),
                var: var_field(w),
                ins_type: type_field(w),
                num: num_field(w),
            }),
    {
        let r = Instruction {
            opcode: get_opcode(w),
            var: get_var(w),
            ins_type: get_type(w),
            num: get_unum(w),
        };
        proof {
            lemma_fields_fit(w);
        }
        r
    }

    /// Packs the fields into one word.
    pub fn as_binary(&self) -> (r: u32)
        requires
            self.wf(),
        ensures
            r == self.spec_word(),
            r < 0x40000,
    {
        let mut result: u32 = self.opcode as u32;
        result = result << 4u32;
        result = result | self.var as u32;
        result = result << 2u32;
        result = result | self.ins_type as u32;
        result = result << 8u32;
        result = result | self.num as u32;
        proof {
            lemma_pack_steps(self.opcode as u32, self.var as u32, self.ins_type as u32, self.num as u32);
        }
        result
    }
}

proof fn lemma_pack_steps(op: u32, var: u32, ty: u32, num: u32)
    requires
        op < 16,
        var < 16,
        ty < 4,
        num < 256,
    ensures
        ((((((op << 4u32) | var) << 2u32) | ty) << 8u32) | num) == (op << 14u32) | (var << 10u32)
            | (ty << 8u32) | num,
        (op << 14u32) | (var << 10u32) | (ty << 8u32) | num < 0x40000,
{
    assert(((((((op << 4u32) | var) << 2u32) | ty) << 8u32) | num) == (op << 14u32) | (var
        << 10u32) | (ty << 8u32) | num) by (bit_vector)
        requires
            op < 16,
            var < 16,
            ty < 4,
            num < 256,
    ;
    assert((op << 14u32) | (var << 10u32) | (ty << 8u32) | num < 0x40000) by (bit_vector)
        requires
            op < 16,
            var < 16,
            ty < 4,
            num < 256,
    ;
}

proof fn lemma_fields_fit(w: u32)
    ensures
        opcode_field(w) < 16,
        var_field(w) < 16,
        type_field(w) < 4,
{
    assert(((w & 0b111100000000000000u32) >> 14u32) < 16) by (bit_vector);
    assert(((w & 0b000011110000000000u32) >> 10u32) < 16) by (bit_vector);
    assert(((w & 0b000000001100000000u32) >> 8u32) < 4) by (bit_vector);
}

/// Decoding a packed instruction gives back its fields.
pub proof fn lemma_decode_encode(i: Instruction)
    requires
        i.wf(),
    ensures
        opcode_field(i.spec_word()) == i.opcode,
        var_field(i.spec_word()) == i.var,
        type_field(i.spec_word()) == i.ins_type,
        num_field(i.spec_word()) == i.num,
{
    let op = i.opcode as u32;
    let var = i.var as u32;
    let ty = i.ins_type as u32;
    let num = i.num as u32;
    assert((((op << 14u32) | (var << 10u32) | (ty << 8u32) | num) & 0b111100000000000000u32)
        >> 14u32 == op) by (bit_vector)
        requires
            op < 16,
            var < 16,
            ty < 4,
            num < 256,
    ;
    assert((((op << 14u32) | (var << 10u32) | (ty << 8u32) | num) & 0b000011110000000000u32)
        >> 10u32 == var) by (bit_vector)
        requires
            op < 16,
            var < 16,
            ty < 4,
            num < 256,
    ;
    assert((((op << 14u32) | (var << 10u32) | (ty << 8u32) | num) & 0b000000001100000000u32)
        >> 8u32 == ty) by (bit_vector)
        requires
            op < 16,
            var < 16,
            ty < 4,
            num < 256,
    ;
    assert((((op << 14u32) | (var << 10u32) | (ty << 8u32) | num) & 0b000000000011111111u32)
        == num) by (bit_vector)
        requires
            op < 16,
            var < 16,
            ty < 4,
            num < 256,
    ;
}

/// Packing the fields of a word whose bits above 17 are clear gives back the
/// word.
pub proof fn lemma_encode_decode(w: u32)
    requires
        w < 0x40000,
    ensures
        word_of(opcode_field(w), var_field(w), type_field(w), num_field(w)) == w,
{
    assert(((((((w & 0b111100000000000000u32) >> 14u32) as u8) as u32) << 14u32) | (((((w
        & 0b000011110000000000u32) >> 10u32) as u8) as u32) << 10u32) | (((((w
        & 0b000000001100000000u32) >> 8u32) as u8) as u32) << 8u32) | (((w
        & 0b000000000011111111u32) as u8) as u32)) == w) by (bit_vector)
        requires
            w < 0x40000,
    ;
}

/// The word of four bytes, most significant first.
pub open spec fn be_word(b0: u8, b1: u8, b2: u8, b3: u8) -> u32 {
    ((b0 as u32) << 24u32) | ((b1 as u32) << 16u32) | ((b2 as u32) << 8u32) | (b3 as u32)
}

/// The words of a byte stream, four bytes each, most significant first.
pub open spec fn words_of(b: Seq<u8>) -> Seq<u32> {
    Seq::new(
        (b.len() / 4) as nat,
        |i: int| be_word(b[4 * i], b[4 * i + 1], b[4 * i + 2], b[4 * i + 3]),
    )
}

/// The four bytes of a word, most significant first.
pub open spec fn be_bytes(w: u32) -> Seq<u8> {
    seq![(w >> 24u32) as u8, (w >> 16u32) as u8, (w >> 8u32) as u8, w as u8]
}

/// The byte stream of a word sequence.
pub open spec fn bytes_of(ws: Seq<u32>) -> Seq<u8>
    decreases ws.len(),
{
    if ws.len() == 0 {
        seq![]
    } else {
        bytes_of(ws.drop_last()) + be_bytes(ws.last())
    }
}

/// Appends the four bytes of `w` to `out`.
pub fn push_be_bytes(out: &mut Vec<u8>, w: u32)
    ensures
        final(out)@ == old(out)@ + be_bytes(w),
{
    out.push((w >> 24u32) as u8);
    out.push((w >> 16u32) as u8);
    out.push((w >> 8u32) as u8);
    out.push(w as u8);
    assert(out@ =~= old(out)@ + be_bytes(w));
}

/// The word of four bytes, most significant first.
pub fn word_from_be(b0: u8, b1: u8, b2: u8, b3: u8) -> (r: u32)
    ensures
        r == be_word(b0, b1, b2, b3),
{
    ((b0 as u32) << 24u32) | ((b1 as u32) << 16u32) | ((b2 as u32) << 8u32) | (b3 as u32)
}

proof fn lemma_bytes_len(ws: Seq<u32>)
    ensures
        bytes_of(ws).len() == 4 * ws.len(),
    decreases ws.len(),
{
    if ws.len() > 0 {
        lemma_bytes_len(ws.drop_last());
    }
}

proof fn lemma_be_round_trip(w: u32)
    ensures
        be_word(
            be_bytes(w)[0],
            be_bytes(w)[1],
            be_bytes(w)[2],
            be_bytes(w)[3],
        ) == w,
{
    assert((((((w >> 24u32) as u8) as u32) << 24u32) | ((((w >> 16u32) as u8) as u32) << 16u32)
        | ((((w >> 8u32) as u8) as u32) << 8u32) | (((w as u8) as u32))) == w) by (bit_vector);
}

/// Reading back the byte stream of a word sequence gives the words.
pub proof fn lemma_artifact_round_trip(ws: Seq<u32>)
    ensures
        words_of(bytes_of(ws)) == ws,
    decreases ws.len(),
{
    lemma_bytes_len(ws);
    if ws.len() > 0 {
        let p = ws.drop_last();
        lemma_artifact_round_trip(p);
        lemma_bytes_len(p);
        lemma_be_round_trip(ws.last());
        let b = bytes_of(ws);
        let pb = bytes_of(p);
        assert(b == pb + be_bytes(ws.last()));
        assert forall|i: int| 0 <= i < ws.len() implies #[trigger] words_of(b)[i] == ws[i] by {
            if i < ws.len() - 1 {
                assert(4 * i + 3 < pb.len());
                assert(b[4 * i] == pb[4 * i]);
                assert(b[4 * i + 1] == pb[4 * i + 1]);
                assert(b[4 * i + 2] == pb[4 * i + 2]);
                assert(b[4 * i + 3] == pb[4 * i + 3]);
                assert(words_of(pb)[i] == p[i]);
            } else {
                assert(4 * i == pb.len());
            }
        }
        assert(words_of(b) =~= ws);
    }
}

/// The opcode field of a word.
pub fn get_opcode(instruction: u32) -> (r: u8)
    ensures
        r == opcode_field(instruction),
        r < 16,
{
    proof {
        lemma_fields_fit(instruction);
    }
    ((instruction & OPCODE_MASK) >> 14u32) as u8
}

/// The register field of a word.
pub fn get_var(instruction: u32) -> (r: u8)
    ensures
        r == var_field(instruction),
        r < 16,
{
    proof {
        lemma_fields_fit(instruction);
    }
    ((instruction & VAR_MASK) >> 10u32) as u8
}

/// The operand type field of a word.
pub fn get_type(instruction: u32) -> (r: u8)
    ensures
        r == type_field(instruction),
        r < 4,
{
    proof {
        lemma_fields_fit(instruction);
    }
    ((instruction & TYPE_MASK) >> 8u32) as u8
}

/// The operand byte of a word, read as a sign-magnitude integer.
pub fn get_num(instruction: u32) -> (r: i8)
    ensures
        r as int == signed_operand(num_field(instruction)),
{
    let unsigned_num = (instruction & NUM_MASK) as u8;
    if unsigned_num >= 128 {
        -((unsigned_num - 128) as i8)
    } else {
        unsigned_num as i8
    }
}

/// The operand byte of a word, unmodified.
pub fn get_unum(instruction: u32) -> (r: u8)
    ensures
        r == num_field(instruction),
{
    (instruction & NUM_MASK) as u8
}

} // verus!
