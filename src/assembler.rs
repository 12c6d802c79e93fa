//! The assembler: source lines to a big-endian stream of instruction words.
use vstd::prelude::*;
use crate::codec::{
    Instruction, bytes_of, push_be_bytes, sign_magnitude, signed_operand, word_of,
};
use crate::text::{chars_of, decimal, digit_char, int_text, push_decimal};
use substring::Substring;

verus! {

/// Why a source text does not assemble.
#[derive(Clone, Copy, Debug, PartialEq, Eq, Structural)]
pub enum AsmError {
    UnknownMnemonic,
    UnknownRegister,
    InvalidType,
    InvalidOperand,
    OperandOutOfRange,
    UnknownLabel,
    WrongTokenCount,
}

/// An assembly error with the source line on which it came.
#[derive(Debug, PartialEq, Eq)]
pub struct AsmFailure {
    pub error: AsmError,
    pub line: String,
}

pub open spec fn is_word3(m: Seq<char>, a: char, b: char, c: char) -> bool {
    m.len() == 3 && m[0] == a && m[1] == b && m[2] == c
}

/// The opcode of a mnemonic.
pub open spec fn opcode_of(m: Seq<char>) -> Option<u8> {
    if is_word3(m, 'P', 'R', 'T') {
        Some(0u8)
    } else if is_word3(m, 'S', 'E', 'T') {
        Some(1u8)
    } else if is_word3(m, 'A', 'D', 'D') {
        Some(2u8)
    } else if is_word3(m, 'S', 'U', 'B') {
        Some(3u8)
    } else if is_word3(m, 'M', 'U', 'L') {
        Some(4u8)
    } else if is_word3(m, 'D', 'I', 'V') {
        Some(5u8)
    } else if is_word3(m, 'J', 'M', 'P') {
        Some(6u8)
    } else if is_word3(m, 'J', 'N', 'P') {
        Some(7u8)
    } else if is_word3(m, 'E', 'Q', 'L') {
        Some(8u8)
    } else if is_word3(m, 'C', 'B', 'P') {
        Some(9u8)
    } else if is_word3(m, 'C', 'L', 'P') {
        Some(10u8)
    } else {
        None
    }
}

/// The value of a hexadecimal digit, in either case.
pub open spec fn hex_value(c: char) -> Option<u8> {
    let k = c as u32;
    if 48 <= k <= 57 {
        Some((k - 48) as u8)
    } else if 97 <= k <= 102 {
        Some((k - 87) as u8)
    } else if 65 <= k <= 70 {
        Some((k - 55) as u8)
    } else {
        None
    }
}

/// The index of a register name `$0`..`$f`, in either case.
pub open spec fn register_of(t: Seq<char>) -> Option<u8> {
    if t.len() == 2 && t[0] == '$' {
        hex_value(t[1])
    } else {
        None
    }
}

/// The operand type of a type digit `0`..`3`.
pub open spec fn type_of(t: Seq<char>) -> Option<u8> {
    if t.len() == 1 && 48 <= t[0] as u32 <= 51 {
        Some((t[0] as u32 - 48) as u8)
    } else {
        None
    }
}

pub open spec fn is_digit(c: char) -> bool {
    48 <= c as u32 <= 57
}

/// The value of a string of decimal digits.
pub open spec fn digits_value(d: Seq<char>) -> nat
    decreases d.len(),
{
    if d.len() == 0 {
        0
    } else {
        digits_value(d.drop_last()) * 10 + (d.last() as u32 - 48) as nat
    }
}

/// The digits of an unsigned literal: without its leading `+`, if any.
pub open spec fn unsigned_digits(t: Seq<char>) -> Seq<char> {
    if t.len() > 0 && t[0] == '+' {
        t.drop_first()
    } else {
        t
    }
}

pub open spec fn all_digits(d: Seq<char>) -> bool {
    forall|i: int| 0 <= i < d.len() ==> is_digit(#[trigger] d[i])
}

/// An unsigned decimal literal with an optional leading `+`, of at most 127.
pub open spec fn magnitude_of(t: Seq<char>) -> Result<nat, AsmError> {
    let d = unsigned_digits(t);
    if d.len() == 0 || !all_digits(d) {
        Err(AsmError::InvalidOperand)
    } else if digits_value(d) > 127 {
        Err(AsmError::OperandOutOfRange)
    } else {
        Ok(digits_value(d))
    }
}

/// The sign-magnitude operand byte of a signed decimal literal.
pub open spec fn operand_of(t: Seq<char>) -> Result<u8, AsmError> {
    if t.len() > 0 && t[0] == '-' {
        match magnitude_of(t.drop_first()) {
            Ok(m) => Ok((128 + m) as u8),
            Err(e) => Err(e),
        }
    } else {
        match magnitude_of(t) {
            Ok(m) => Ok(m as u8),
            Err(e) => Err(e),
        }
    }
}

/// The pieces of a line split at each single space, empty pieces included.
pub open spec fn split_spaces(s: Seq<char>) -> Seq<Seq<char>>
    decreases s.len(),
{
    if s.len() == 0 {
        seq![seq![]]
    } else {
        let p = split_spaces(s.drop_last());
        if s.last() == ' ' {
            p.push(seq![])
        } else {
            p.update(p.len() - 1, p.last().push(s.last()))
        }
    }
}

pub open spec fn token_views(v: Seq<Vec<char>>) -> Seq<Seq<char>> {
    v.map_values(|t: Vec<char>| t@)
}

pub open spec fn starts_with_dollar(t: Seq<char>) -> bool {
    t.len() > 0 && t[0] == '$'
}

/// The full form `MNEMONIC REG TYPE OPERAND`.
pub open spec fn full_form(toks: Seq<Seq<char>>) -> Result<u32, AsmError> {
    match opcode_of(toks[0]) {
        None => Err(AsmError::UnknownMnemonic),
        Some(op) => if toks.len() != 4 {
            Err(AsmError::WrongTokenCount)
        } else {
            match register_of(toks[1]) {
                None => Err(AsmError::UnknownRegister),
                Some(r) => match type_of(toks[2]) {
                    None => Err(AsmError::InvalidType),
                    Some(ty) => match operand_of(toks[3]) {
                        Ok(n) => Ok(word_of(op, r, ty, n)),
                        Err(e) => Err(e),
                    },
                },
            }
        },
    }
}

/// `PRT $x` prints a register, `PRT N` a literal.
pub open spec fn print_short(t: Seq<char>) -> Result<u32, AsmError> {
    if starts_with_dollar(t) {
        match register_of(t) {
            Some(r) => Ok(word_of(0, r, 2, 0)),
            None => Err(AsmError::UnknownRegister),
        }
    } else {
        match operand_of(t) {
            Ok(n) => Ok(word_of(0, 0, 0, n)),
            Err(e) => Err(e),
        }
    }
}

/// `JMP N` and `JNP N`.
pub open spec fn jump_short(op: u8, t: Seq<char>) -> Result<u32, AsmError> {
    match operand_of(t) {
        Ok(n) => Ok(word_of(op, 0, 0, n)),
        Err(e) => Err(e),
    }
}

/// `OP $r $x` takes a register operand (type 1), `OP $r N` a literal (type 0).
pub open spec fn register_short(op: u8, a: Seq<char>, b: Seq<char>) -> Result<u32, AsmError> {
    match register_of(a) {
        None => Err(AsmError::UnknownRegister),
        Some(r) => if starts_with_dollar(b) {
            match register_of(b) {
                Some(x) => Ok(word_of(op, r, 1, x)),
                None => Err(AsmError::UnknownRegister),
            }
        } else {
            match operand_of(b) {
                Ok(n) => Ok(word_of(op, r, 0, n)),
                Err(e) => Err(e),
            }
        },
    }
}

pub open spec fn has_register_short(op: u8) -> bool {
    (1 <= op <= 5) || (8 <= op <= 10)
}

/// The word of a line's tokens: a short form where the mnemonic has one of
/// that many tokens, else the full form.
pub open spec fn encode_tokens(toks: Seq<Seq<char>>) -> Result<u32, AsmError>
    recommends
        toks.len() >= 1,
{
    let op = opcode_of(toks[0]);
    if op == Some(0u8) && toks.len() == 2 {
        print_short(toks[1])
    } else if (op == Some(6u8) || op == Some(7u8)) && toks.len() == 2 {
        jump_short(op->Some_0, toks[1])
    } else if op is Some && has_register_short(op->Some_0) && toks.len() == 3 {
        register_short(op->Some_0, toks[1], toks[2])
    } else {
        full_form(toks)
    }
}

/// The word of one line with its labels resolved.
pub open spec fn encode_line(line: Seq<char>) -> Result<u32, AsmError> {
    encode_tokens(split_spaces(line))
}

pub proof fn lemma_split_nonempty(s: Seq<char>)
    ensures
        split_spaces(s).len() >= 1,
    decreases s.len(),
{
    if s.len() > 0 {
        lemma_split_nonempty(s.drop_last());
    }
}

/// The characters `s[a..b]`.
fn chars_between(s: &Vec<char>, a: usize, b: usize) -> (r: Vec<char>)
    requires
        a <= b <= s@.len(),
    ensures
        r@ == s@.subrange(a as int, b as int),
{
    let mut r: Vec<char> = Vec::new();
    let mut i = a;
    while i < b
        invariant
            a <= i <= b,
            b <= s@.len(),
            r@ == s@.subrange(a as int, i as int),
        decreases b - i,
    {
        r.push(s[i]);
        i = i + 1;
        assert(r@ =~= s@.subrange(a as int, i as int));
    }
    r
}

/// Splits a line at each single space.
pub fn split_line(s: &Vec<char>) -> (r: Vec<Vec<char>>)
    ensures
        token_views(r@) == split_spaces(s@),
{
    let mut toks: Vec<Vec<char>> = Vec::new();
    let mut start: usize = 0;
    let mut i: usize = 0;
    assert(s@.take(0) =~= Seq::<char>::empty());
    assert(token_views(toks@).push(s@.subrange(0, 0)) =~= seq![Seq::<char>::empty()]);
    while i < s.len()
        invariant
            start <= i <= s@.len(),
            token_views(toks@).push(s@.subrange(start as int, i as int)) == split_spaces(
                s@.take(i as int),
            ),
        decreases s@.len() - i,
    {
        let ghost prev = s@.take(i as int);
        let ghost views = token_views(toks@);
        let ghost cur = s@.subrange(start as int, i as int);
        proof {
            assert(s@.take(i as int + 1).drop_last() =~= prev);
            assert(s@.take(i as int + 1).last() == s@[i as int]);
            lemma_split_nonempty(prev);
        }
        if s[i] == ' ' {
            let t = chars_between(s, start, i);
            toks.push(t);
            start = i + 1;
            i = i + 1;
            assert(token_views(toks@) =~= views.push(cur));
            assert(s@.subrange(start as int, i as int) =~= Seq::<char>::empty());
        } else {
            i = i + 1;
            assert(s@.subrange(start as int, i as int) =~= cur.push(s@[i - 1]));
            assert(views.push(cur).update(views.len() as int, cur.push(s@[i - 1])) =~= views.push(
                cur.push(s@[i - 1]),
            ));
        }
    }
    let ghost views = token_views(toks@);
    let t = chars_between(s, start, i);
    toks.push(t);
    assert(s@.take(i as int) =~= s@);
    assert(token_views(toks@) =~= views.push(s@.subrange(start as int, i as int)));
    toks
}

/// The opcode of a mnemonic.
pub fn parse_opcode(m: &Vec<char>) -> (r: Option<u8>)
    ensures
        r == opcode_of(m@),
{
    if m.len() != 3 {
        return None;
    }
    let a = m[0];
    let b = m[1];
    let c = m[2];
    if a == 'P' && b == 'R' && c == 'T' {
        Some(0)
    } else if a == 'S' && b == 'E' && c == 'T' {
        Some(1)
    } else if a == 'A' && b == 'D' && c == 'D' {
        Some(2)
    } else if a == 'S' && b == 'U' && c == 'B' {
        Some(3)
    } else if a == 'M' && b == 'U' && c == 'L' {
        Some(4)
    } else if a == 'D' && b == 'I' && c == 'V' {
        Some(5)
    } else if a == 'J' && b == 'M' && c == 'P' {
        Some(6)
    } else if a == 'J' && b == 'N' && c == 'P' {
        Some(7)
    } else if a == 'E' && b == 'Q' && c == 'L' {
        Some(8)
    } else if a == 'C' && b == 'B' && c == 'P' {
        Some(9)
    } else if a == 'C' && b == 'L' && c == 'P' {
        Some(10)
    } else {
        None
    }
}

fn hex_digit(c: char) -> (r: Option<u8>)
    ensures
        r == hex_value(c),
{
    let k = c as u32;
    if 48 <= k && k <= 57 {
        Some((k - 48) as u8)
    } else if 97 <= k && k <= 102 {
        Some((k - 87) as u8)
    } else if 65 <= k && k <= 70 {
        Some((k - 55) as u8)
    } else {
        None
    }
}

/// The index of a register name.
pub fn parse_var(t: &Vec<char>) -> (r: Option<u8>)
    ensures
        r == register_of(t@),
        r matches Some(x) ==> x < 16,
{
    if t.len() != 2 || t[0] != '$' {
        return None;
    }
    hex_digit(t[1])
}

/// The operand type of a type digit.
pub fn parse_type(t: &Vec<char>) -> (r: Option<u8>)
    ensures
        r == type_of(t@),
        r matches Some(x) ==> x < 4,
{
    if t.len() != 1 {
        return None;
    }
    let k = t[0] as u32;
    if 48 <= k && k <= 51 {
        Some((k - 48) as u8)
    } else {
        None
    }
}

/// The magnitude of the literal that starts at `from`.
fn parse_magnitude(t: &Vec<char>, from: usize) -> (r: Result<u8, AsmError>)
    requires
        from <= t@.len(),
    ensures
        match magnitude_of(t@.skip(from as int)) {
            Ok(m) => r == Ok::<u8, AsmError>(m as u8) && m <= 127,
            Err(e) => r == Err::<u8, AsmError>(e),
        },
{
    let ghost rest = t@.skip(from as int);
    let mut i = from;
    if i < t.len() && t[i] == '+' {
        i = i + 1;
    }
    let first = i;
    let ghost d = t@.subrange(first as int, t@.len() as int);
    assert(d =~= unsigned_digits(rest));
    if first == t.len() {
        return Err(AsmError::InvalidOperand);
    }
    let mut v: u32 = 0;
    assert(t@.subrange(first as int, first as int) =~= Seq::<char>::empty());
    while i < t.len()
        invariant
            first <= i <= t@.len(),
            first < t@.len(),
            rest == t@.skip(from as int),
            d == unsigned_digits(rest),
            d == t@.subrange(first as int, t@.len() as int),
            forall|j: int| first <= j < i ==> is_digit(#[trigger] t@[j]),
            v as int == if digits_value(t@.subrange(first as int, i as int)) < 128 {
                digits_value(t@.subrange(first as int, i as int)) as int
            } else {
                128
            },
        decreases t@.len() - i,
    {
        let k = t[i] as u32;
        if k < 48 || k > 57 {
            assert(!is_digit(d[i - first]));
            return Err(AsmError::InvalidOperand);
        }
        let ghost p = t@.subrange(first as int, i as int);
        assert(t@.subrange(first as int, i + 1) =~= p.push(t@[i as int]));
        assert(p.push(t@[i as int]).drop_last() =~= p);
        v = v * 10 + (k - 48);
        if v > 128 {
            v = 128;
        }
        i = i + 1;
    }
    assert(t@.subrange(first as int, i as int) =~= d);
    assert forall|j: int| 0 <= j < d.len() implies is_digit(#[trigger] d[j]) by {
        assert(d[j] == t@[first + j]);
    }
    assert(all_digits(d));
    if v > 127 {
        return Err(AsmError::OperandOutOfRange);
    }
    Ok(v as u8)
}

/// The sign-magnitude operand byte of a signed decimal literal.
pub fn parse_num(t: &Vec<char>) -> (r: Result<u8, AsmError>)
    ensures
        r == operand_of(t@),
{
    if t.len() > 0 && t[0] == '-' {
        assert(t@.skip(1) =~= t@.drop_first());
        match parse_magnitude(t, 1) {
            Ok(m) => Ok(128 + m),
            Err(e) => Err(e),
        }
    } else {
        assert(t@.skip(0) =~= t@);
        parse_magnitude(t, 0)
    }
}

fn word(opcode: u8, var: u8, ins_type: u8, num: u8) -> (r: u32)
    requires
        opcode < 16,
        var < 16,
        ins_type < 4,
    ensures
        r == word_of(opcode, var, ins_type, num),
{
    let ins = Instruction { opcode, var, ins_type, num };
    ins.as_binary()
}

/// The full form `MNEMONIC REG TYPE OPERAND`.
fn parse_full(toks: &Vec<Vec<char>>) -> (r: Result<u32, AsmError>)
    requires
        toks@.len() >= 1,
    ensures
        r == full_form(token_views(toks@)),
{
    let op = match parse_opcode(&toks[0]) {
        Some(op) => op,
        None => return Err(AsmError::UnknownMnemonic),
    };
    if toks.len() != 4 {
        return Err(AsmError::WrongTokenCount);
    }
    let var = match parse_var(&toks[1]) {
        Some(x) => x,
        None => return Err(AsmError::UnknownRegister),
    };
    let ins_type = match parse_type(&toks[2]) {
        Some(x) => x,
        None => return Err(AsmError::InvalidType),
    };
    let num = match parse_num(&toks[3]) {
        Ok(x) => x,
        Err(e) => return Err(e),
    };
    Ok(word(op, var, ins_type, num))
}

fn starts_with_dollar_exec(t: &Vec<char>) -> (r: bool)
    ensures
        r == starts_with_dollar(t@),
{
    t.len() > 0 && t[0] == '$'
}

/// `PRT $x`, `PRT N`, or the full form.
fn parse_just_var_or_num(toks: &Vec<Vec<char>>) -> (r: Result<u32, AsmError>)
    requires
        toks@.len() >= 1,
        opcode_of(toks@[0]@) == Some(0u8),
    ensures
        r == encode_tokens(token_views(toks@)),
{
    if toks.len() == 2 {
        let t = &toks[1];
        if starts_with_dollar_exec(t) {
            match parse_var(t) {
                Some(var) => Ok(word(0, var, 2, 0)),
                None => Err(AsmError::UnknownRegister),
            }
        } else {
            match parse_num(t) {
                Ok(n) => Ok(word(0, 0, 0, n)),
                Err(e) => Err(e),
            }
        }
    } else {
        parse_full(toks)
    }
}

/// `JMP N` or `JNP N`, or the full form.
fn parse_just_num(op: u8, toks: &Vec<Vec<char>>) -> (r: Result<u32, AsmError>)
    requires
        toks@.len() >= 1,
        op == 6 || op == 7,
        opcode_of(toks@[0]@) == Some(op),
    ensures
        r == encode_tokens(token_views(toks@)),
{
    if toks.len() == 2 {
        match parse_num(&toks[1]) {
            Ok(n) => Ok(word(op, 0, 0, n)),
            Err(e) => Err(e),
        }
    } else {
        parse_full(toks)
    }
}

/// `OP $r $x`, `OP $r N`, or the full form.
fn parse_no_type(op: u8, toks: &Vec<Vec<char>>) -> (r: Result<u32, AsmError>)
    requires
        toks@.len() >= 1,
        has_register_short(op),
        opcode_of(toks@[0]@) == Some(op),
    ensures
        r == encode_tokens(token_views(toks@)),
{
    if toks.len() == 3 {
        let var = match parse_var(&toks[1]) {
            Some(x) => x,
            None => return Err(AsmError::UnknownRegister),
        };
        let t = &toks[2];
        if starts_with_dollar_exec(t) {
            match parse_var(t) {
                Some(x) => Ok(word(op, var, 1, x)),
                None => Err(AsmError::UnknownRegister),
            }
        } else {
            match parse_num(t) {
                Ok(n) => Ok(word(op, var, 0, n)),
                Err(e) => Err(e),
            }
        }
    } else {
        parse_full(toks)
    }
}

/// The word of one line whose labels are resolved.
pub fn process_line(line: &Vec<char>) -> (r: Result<u32, AsmError>)
    ensures
        r == encode_line(line@),
{
    let toks = split_line(line);
    proof {
        lemma_split_nonempty(line@);
    }
    match parse_opcode(&toks[0]) {
        Some(op) => {
            if op == 0 {
                parse_just_var_or_num(&toks)
            } else if op == 6 || op == 7 {
                parse_just_num(op, &toks)
            } else {
                parse_no_type(op, &toks)
            }
        },
        None => parse_full(&toks),
    }
}

pub open spec fn is_label(l: Seq<char>) -> bool {
    l.len() > 0 && l[0] == '#'
}

/// A line that holds an instruction: not empty, not a comment, not a label.
pub open spec fn is_instruction(l: Seq<char>) -> bool {
    l.len() > 0 && l[0] != '#' && l[0] != ';'
}

pub open spec fn lines_view(lines: Seq<String>) -> Seq<Seq<char>> {
    lines.map_values(|l: String| l@)
}

/// The instruction lines, in order.
pub open spec fn retained(lines: Seq<Seq<char>>) -> Seq<Seq<char>>
    decreases lines.len(),
{
    if lines.len() == 0 {
        seq![]
    } else {
        let p = retained(lines.drop_last());
        if is_instruction(lines.last()) {
            p.push(lines.last())
        } else {
            p
        }
    }
}

/// Each label line, in order, with the number of instruction lines before it.
pub open spec fn labels(lines: Seq<Seq<char>>) -> Seq<(Seq<char>, nat)>
    decreases lines.len(),
{
    if lines.len() == 0 {
        seq![]
    } else {
        let p = labels(lines.drop_last());
        if is_label(lines.last()) {
            p.push((lines.last(), retained(lines.drop_last()).len()))
        } else {
            p
        }
    }
}

/// The count of the last definition of label `k`.
pub open spec fn lookup(table: Seq<(Seq<char>, nat)>, k: Seq<char>) -> Option<nat>
    decreases table.len(),
{
    if table.len() == 0 {
        None
    } else if table.last().0 == k {
        Some(table.last().1)
    } else {
        lookup(table.drop_last(), k)
    }
}

pub open spec fn table_view(t: Seq<(Vec<char>, usize)>) -> Seq<(Seq<char>, nat)> {
    t.map_values(|e: (Vec<char>, usize)| (e.0@, e.1 as nat))
}

/// The pattern of a label reference: `#` and one or more word characters.
pub open spec fn label_pattern() -> Seq<char> {
    seq!['#', '\\', 'w', '+']
}

/// The start and end offsets of the label references in a line.
pub uninterp spec fn label_spans(text: Seq<char>) -> Seq<(usize, usize)>;

/// Relies on `regex::Regex::new` and `regex::Regex::find_iter`: the byte
/// offsets of the start and end of each successive non-overlapping match of
/// the label pattern, in order. Every match begins with `#` and is not empty.
#[verifier::external_body]
fn find_label_spans(pattern: &str, text: &str) -> (r: Vec<(usize, usize)>)
    requires
        pattern@ == label_pattern(),
    ensures
        r@ == label_spans(text@),
        (forall|i: int| 0 <= i < text@.len() ==> text@[i] != '#') ==> r@.len() == 0,
        forall|k: int| 0 <= k < r@.len() ==> (#[trigger] r@[k]).0 < r@[k].1,
        forall|k: int| 0 <= k < r@.len() - 1 ==> (#[trigger] r@[k]).1 <= r@[k + 1].0,
{
    let re = regex::Regex::new(pattern).unwrap();
    re.find_iter(text).map(|m| (m.start(), m.end())).collect()
}

pub open spec fn clamp(i: int, n: int) -> int {
    if i < n {
        i
    } else {
        n
    }
}

/// The characters from `start` up to `end`, each clamped to the length;
/// none when `end <= start`.
pub open spec fn substring_spec(s: Seq<char>, start: int, end: int) -> Seq<char> {
    if end <= start {
        seq![]
    } else {
        s.subrange(clamp(start, s.len() as int), clamp(end, s.len() as int))
    }
}

/// Relies on `substring::Substring::substring`: the characters from index
/// `start` up to index `end`, each clamped to the length; none when
/// `end <= start`.
#[verifier::external_body]
fn substring_chars(s: &str, start: usize, end: usize) -> (r: Vec<char>)
    ensures
        r@ == substring_spec(s@, start as int, end as int),
{
    s.substring(start, end).chars().collect()
}

/// The number of bytes that UTF-8 takes for a character.
pub open spec fn utf8_len(c: char) -> int {
    let k = c as u32;
    if k < 0x80 {
        1
    } else if k < 0x800 {
        2
    } else if k < 0x10000 {
        3
    } else {
        4
    }
}

/// The character index of byte offset `b` in the UTF-8 text of `s`: the
/// number of characters whose encoding ends at or before `b`.
pub open spec fn char_index(s: Seq<char>, b: int) -> int
    decreases s.len(),
{
    if s.len() == 0 || b < utf8_len(s[0]) {
        0
    } else {
        1 + char_index(s.drop_first(), b - utf8_len(s[0]))
    }
}

pub open spec fn max_int(a: int, b: int) -> int {
    if a < b {
        b
    } else {
        a
    }
}

/// The first `k` label references of `line` resolved, each in its own place:
/// the text up to the end of the `k`-th reference, with every reference
/// replaced by the decimal text of its label's count plus one, and the
/// character index where that text stops in `line`. `spans` holds byte
/// offsets.
pub open spec fn resolve_prefix(
    line: Seq<char>,
    spans: Seq<(usize, usize)>,
    table: Seq<(Seq<char>, nat)>,
    k: int,
) -> Result<(Seq<char>, int), AsmError>
    decreases k,
{
    if k <= 0 {
        Ok((seq![], 0))
    } else {
        match resolve_prefix(line, spans, table, k - 1) {
            Err(e) => Err(e),
            Ok(done) => {
                let cs = char_index(line, spans[k - 1].0 as int);
                let ce = char_index(line, spans[k - 1].1 as int);
                match lookup(table, substring_spec(line, cs, ce)) {
                    None => Err(AsmError::UnknownLabel),
                    Some(n) => {
                        let start = max_int(cs, done.1);
                        let end = max_int(ce, start);
                        Ok((done.0 + line.subrange(done.1, start) + decimal(n + 1), end))
                    },
                }
            },
        }
    }
}

/// A line with each of its label references, whose byte offsets are
/// `spans`, replaced by the decimal text of its own label's count plus one.
pub open spec fn resolve_spec(
    line: Seq<char>,
    spans: Seq<(usize, usize)>,
    table: Seq<(Seq<char>, nat)>,
) -> Result<Seq<char>, AsmError> {
    match resolve_prefix(line, spans, table, spans.len() as int) {
        Err(e) => Err(e),
        Ok(done) => Ok(done.0 + line.subrange(done.1, line.len() as int)),
    }
}

/// Every instruction line with its label references resolved; an error
/// comes with the line on which it came.
pub open spec fn resolve_all(ret: Seq<Seq<char>>, table: Seq<(Seq<char>, nat)>) -> Result<
    Seq<Seq<char>>,
    (AsmError, Seq<char>),
>
    decreases ret.len(),
{
    if ret.len() == 0 {
        Ok(seq![])
    } else {
        match resolve_all(ret.drop_last(), table) {
            Err(e) => Err(e),
            Ok(p) => {
                match resolve_spec(ret.last(), label_spans(ret.last()), table) {
                    Err(e) => Err((e, ret.last())),
                    Ok(l) => Ok(p.push(l)),
                }
            },
        }
    }
}

/// The words of resolved lines; an error comes with the index of the line
/// on which it came.
pub open spec fn encode_all(ls: Seq<Seq<char>>) -> Result<Seq<u32>, (AsmError, int)>
    decreases ls.len(),
{
    if ls.len() == 0 {
        Ok(seq![])
    } else {
        match encode_all(ls.drop_last()) {
            Err(e) => Err(e),
            Ok(p) => match encode_line(ls.last()) {
                Err(e) => Err((e, ls.len() - 1)),
                Ok(w) => Ok(p.push(w)),
            },
        }
    }
}

/// The artifact of a source text given as trimmed lines: every label
/// reference is resolved first, then every line is encoded; the first error
/// of the first stage that fails is the result, with its source line.
pub open spec fn assemble_spec(lines: Seq<Seq<char>>) -> Result<Seq<u8>, (AsmError, Seq<char>)> {
    let ret = retained(lines);
    match resolve_all(ret, labels(lines)) {
        Err(e) => Err(e),
        Ok(ls) => match encode_all(ls) {
            Err((e, j)) => Err((e, ret[j])),
            Ok(ws) => Ok(bytes_of(ws)),
        },
    }
}

proof fn lemma_resolve_prefix_err(
    line: Seq<char>,
    spans: Seq<(usize, usize)>,
    table: Seq<(Seq<char>, nat)>,
    m: int,
    n: int,
    e: AsmError,
)
    requires
        0 <= m <= n,
        resolve_prefix(line, spans, table, m) == Err::<(Seq<char>, int), AsmError>(e),
    ensures
        resolve_prefix(line, spans, table, n) == Err::<(Seq<char>, int), AsmError>(e),
    decreases n - m,
{
    if m < n {
        lemma_resolve_prefix_err(line, spans, table, m, n - 1, e);
    }
}

proof fn lemma_resolve_all_prefix_err(
    ret: Seq<Seq<char>>,
    table: Seq<(Seq<char>, nat)>,
    n: int,
    e: (AsmError, Seq<char>),
)
    requires
        0 <= n <= ret.len(),
        resolve_all(ret.take(n), table) == Err::<Seq<Seq<char>>, (AsmError, Seq<char>)>(e),
    ensures
        resolve_all(ret, table) == Err::<Seq<Seq<char>>, (AsmError, Seq<char>)>(e),
    decreases ret.len(),
{
    if ret.len() > n {
        assert(ret.drop_last().take(n) =~= ret.take(n));
        lemma_resolve_all_prefix_err(ret.drop_last(), table, n, e);
    } else {
        assert(ret.take(n) =~= ret);
    }
}

proof fn lemma_resolve_all_len(ret: Seq<Seq<char>>, table: Seq<(Seq<char>, nat)>)
    ensures
        resolve_all(ret, table) matches Ok(rs) ==> rs.len() == ret.len(),
    decreases ret.len(),
{
    if ret.len() > 0 {
        lemma_resolve_all_len(ret.drop_last(), table);
    }
}

proof fn lemma_encode_all_prefix_err(ls: Seq<Seq<char>>, n: int, e: (AsmError, int))
    requires
        0 <= n <= ls.len(),
        encode_all(ls.take(n)) == Err::<Seq<u32>, (AsmError, int)>(e),
    ensures
        encode_all(ls) == Err::<Seq<u32>, (AsmError, int)>(e),
    decreases ls.len(),
{
    if ls.len() > n {
        assert(ls.drop_last().take(n) =~= ls.take(n));
        lemma_encode_all_prefix_err(ls.drop_last(), n, e);
    } else {
        assert(ls.take(n) =~= ls);
    }
}

fn same_chars(a: &Vec<char>, b: &Vec<char>) -> (r: bool)
    ensures
        r == (a@ == b@),
{
    if a.len() != b.len() {
        return false;
    }
    let mut i: usize = 0;
    while i < a.len()
        invariant
            a@.len() == b@.len(),
            i <= a@.len(),
            forall|j: int| 0 <= j < i ==> a@[j] == b@[j],
        decreases a@.len() - i,
    {
        if a[i] != b[i] {
            return false;
        }
        i = i + 1;
    }
    assert(a@ =~= b@);
    true
}

/// The count of the last definition of a label.
fn lookup_label(table: &Vec<(Vec<char>, usize)>, k: &Vec<char>) -> (r: Option<usize>)
    requires
        forall|i: int| 0 <= i < table@.len() ==> table@[i].1 < usize::MAX,
    ensures
        match r {
            Some(c) => lookup(table_view(table@), k@) == Some(c as nat) && c < usize::MAX,
            None => lookup(table_view(table@), k@) == None::<nat>,
        },
{
    let ghost tv = table_view(table@);
    let mut j = table.len();
    assert(tv.take(j as int) =~= tv);
    while j > 0
        invariant
            j <= table@.len(),
            tv == table_view(table@),
            forall|i: int| 0 <= i < table@.len() ==> table@[i].1 < usize::MAX,
            lookup(tv, k@) == lookup(tv.take(j as int), k@),
        decreases j,
    {
        let ghost p = tv.take(j as int);
        assert(p.drop_last() =~= tv.take(j - 1));
        assert(p.last() == tv[j - 1]);
        if same_chars(&table[j - 1].0, k) {
            assert(tv[j - 1] == (table@[j - 1].0@, table@[j - 1].1 as nat));
            return Some(table[j - 1].1);
        }
        j = j - 1;
    }
    assert(tv.take(0).len() == 0);
    None
}

fn utf8_len_of(c: char) -> (r: usize)
    ensures
        r as int == utf8_len(c),
{
    let k = c as u32;
    if k < 0x80 {
        1
    } else if k < 0x800 {
        2
    } else if k < 0x10000 {
        3
    } else {
        4
    }
}

/// The character index of byte offset `b` in the UTF-8 text of `s`.
pub fn char_index_of(s: &Vec<char>, b: usize) -> (r: usize)
    ensures
        r as int == char_index(s@, b as int),
        r <= s@.len(),
{
    let mut i: usize = 0;
    let mut rem: usize = b;
    assert(s@.skip(0) =~= s@);
    while i < s.len()
        invariant
            i <= s@.len(),
            char_index(s@, b as int) == i + char_index(s@.skip(i as int), rem as int),
        decreases s@.len() - i,
    {
        let l = utf8_len_of(s[i]);
        assert(s@.skip(i as int)[0] == s@[i as int]);
        if rem < l {
            return i;
        }
        assert(s@.skip(i as int).drop_first() =~= s@.skip(i + 1));
        rem = rem - l;
        i = i + 1;
    }
    assert(s@.skip(i as int).len() == 0);
    i
}

/// Appends `s[a..b]` to `out`.
fn append_range(out: &mut Vec<char>, s: &Vec<char>, a: usize, b: usize)
    requires
        a <= b <= s@.len(),
    ensures
        final(out)@ == old(out)@ + s@.subrange(a as int, b as int),
{
    let mut i = a;
    while i < b
        invariant
            a <= i <= b,
            b <= s@.len(),
            out@ == old(out)@ + s@.subrange(a as int, i as int),
        decreases b - i,
    {
        out.push(s[i]);
        i = i + 1;
        assert(out@ =~= old(out)@ + s@.subrange(a as int, i as int));
    }
}

/// Replaces each label reference of `line`, whose byte offsets are `spans`,
/// by the decimal text of its own label's count plus one.
pub fn resolve_labels(line: &str, spans: &Vec<(usize, usize)>, table: &Vec<(Vec<char>, usize)>) -> (r:
    Result<Vec<char>, AsmError>)
    requires
        forall|i: int| 0 <= i < table@.len() ==> table@[i].1 < usize::MAX,
    ensures
        match r {
            Ok(l) => resolve_spec(line@, spans@, table_view(table@)) == Ok::<Seq<char>, AsmError>(
                l@,
            ),
            Err(e) => resolve_spec(line@, spans@, table_view(table@)) == Err::<Seq<char>, AsmError>(
                e,
            ),
        },
{
    let ghost tv = table_view(table@);
    let chars = chars_of(line);
    let mut out: Vec<char> = Vec::new();
    let mut c: usize = 0;
    let mut k: usize = 0;
    while k < spans.len()
        invariant
            k <= spans@.len(),
            chars@ == line@,
            c <= chars@.len(),
            tv == table_view(table@),
            forall|i: int| 0 <= i < table@.len() ==> table@[i].1 < usize::MAX,
            resolve_prefix(line@, spans@, tv, k as int) == Ok::<(Seq<char>, int), AsmError>(
                (out@, c as int),
            ),
        decreases spans@.len() - k,
    {
        let cs = char_index_of(&chars, spans[k].0);
        let ce = char_index_of(&chars, spans[k].1);
        let label = substring_chars(line, cs, ce);
        match lookup_label(table, &label) {
            None => {
                proof {
                    lemma_resolve_prefix_err(
                        line@,
                        spans@,
                        tv,
                        k + 1,
                        spans@.len() as int,
                        AsmError::UnknownLabel,
                    );
                }
                return Err(AsmError::UnknownLabel);
            },
            Some(n) => {
                let start = if cs > c {
                    cs
                } else {
                    c
                };
                let end = if ce > start {
                    ce
                } else {
                    start
                };
                let ghost before = out@;
                append_range(&mut out, &chars, c, start);
                push_decimal(&mut out, n as u64 + 1);
                assert(out@ =~= before + line@.subrange(c as int, start as int) + decimal(
                    (n + 1) as nat,
                ));
                c = end;
            },
        }
        k = k + 1;
    }
    append_range(&mut out, &chars, c, chars.len());
    Ok(out)
}

/// The first pass: the indices of the instruction lines, and each label with
/// the number of instruction lines before it.
pub fn first_pass(lines: &Vec<String>) -> (r: (Vec<usize>, Vec<(Vec<char>, usize)>))
    ensures
        forall|k: int| 0 <= k < r.0@.len() ==> r.0@[k] < lines@.len(),
        r.0@.map_values(|i: usize| lines@[i as int]@) == retained(lines_view(lines@)),
        table_view(r.1@) == labels(lines_view(lines@)),
        forall|i: int| 0 <= i < r.1@.len() ==> r.1@[i].1 < usize::MAX,
{
    let ghost lv = lines_view(lines@);
    let mut idx: Vec<usize> = Vec::new();
    let mut table: Vec<(Vec<char>, usize)> = Vec::new();
    let mut i: usize = 0;
    assert(lv.take(0) =~= Seq::<Seq<char>>::empty());
    assert(idx@.map_values(|i: usize| lines@[i as int]@) =~= Seq::<Seq<char>>::empty());
    assert(table_view(table@) =~= Seq::<(Seq<char>, nat)>::empty());
    while i < lines.len()
        invariant
            i <= lines@.len(),
            lv == lines_view(lines@),
            idx@.len() <= i,
            forall|k: int| 0 <= k < idx@.len() ==> idx@[k] < i,
            idx@.map_values(|i: usize| lines@[i as int]@) == retained(lv.take(i as int)),
            table_view(table@) == labels(lv.take(i as int)),
            forall|m: int| 0 <= m < table@.len() ==> table@[m].1 < lines@.len(),
        decreases lines@.len() - i,
    {
        let line = chars_of(lines[i].as_str());
        let ghost prev = lv.take(i as int);
        let ghost old_idx = idx@;
        let ghost old_table = table@;
        proof {
            assert(lv.take(i + 1).drop_last() =~= prev);
            assert(lv.take(i + 1).last() == line@);
        }
        if line.len() > 0 && line[0] == '#' {
            let count = idx.len();
            table.push((line, count));
            assert(table_view(table@) =~= table_view(old_table).push((lv[i as int], count as nat)));
        } else if line.len() > 0 && line[0] != ';' {
            idx.push(i);
            assert(idx@.map_values(|i: usize| lines@[i as int]@) =~= old_idx.map_values(
                |i: usize| lines@[i as int]@,
            ).push(lv[i as int]));
        }
        i = i + 1;
    }
    assert(lv.take(i as int) =~= lv);
    (idx, table)
}

/// Assembles a source text given as trimmed lines into its artifact: four
/// bytes per instruction line, most significant first.
pub fn assemble(lines: &Vec<String>) -> (r: Result<Vec<u8>, AsmFailure>)
    ensures
        match r {
            Ok(b) => assemble_spec(lines_view(lines@)) == Ok::<Seq<u8>, (AsmError, Seq<char>)>(
                b@,
            ),
            Err(f) => assemble_spec(lines_view(lines@)) == Err::<Seq<u8>, (AsmError, Seq<char>)>(
                (f.error, f.line@),
            ),
        },
{
    let (idx, table) = first_pass(lines);
    let ghost lv = lines_view(lines@);
    let ghost ret = retained(lv);
    let ghost tv = labels(lv);
    let mut resolved: Vec<Vec<char>> = Vec::new();
    let mut k: usize = 0;
    assert(ret.take(0) =~= Seq::<Seq<char>>::empty());
    assert(token_views(resolved@) =~= Seq::<Seq<char>>::empty());
    while k < idx.len()
        invariant
            k <= idx@.len(),
            lv == lines_view(lines@),
            ret == retained(lv),
            tv == labels(lv),
            tv == table_view(table@),
            idx@.map_values(|i: usize| lines@[i as int]@) == ret,
            forall|j: int| 0 <= j < idx@.len() ==> idx@[j] < lines@.len(),
            forall|i: int| 0 <= i < table@.len() ==> table@[i].1 < usize::MAX,
            resolve_all(ret.take(k as int), tv) == Ok::<Seq<Seq<char>>, (AsmError, Seq<char>)>(
                token_views(resolved@),
            ),
        decreases idx@.len() - k,
    {
        let line = lines[idx[k]].as_str();
        proof {
            reveal_strlit("#\\w+");
            assert("#\\w+"@ =~= label_pattern());
            assert(ret[k as int] == line@);
            assert(ret.take(k + 1).drop_last() =~= ret.take(k as int));
            assert(ret.take(k + 1).last() == line@);
        }
        let spans = find_label_spans("#\\w+", line);
        match resolve_labels(line, &spans, &table) {
            Err(e) => {
                proof {
                    lemma_resolve_all_prefix_err(ret, tv, k + 1, (e, line@));
                }
                return Err(AsmFailure { error: e, line: lines[idx[k]].clone() });
            },
            Ok(l) => {
                let ghost before = token_views(resolved@);
                resolved.push(l);
                assert(token_views(resolved@) =~= before.push(l@));
            },
        }
        k = k + 1;
    }
    assert(ret.take(k as int) =~= ret);
    proof {
        lemma_resolve_all_len(ret, tv);
    }
    let ghost rs = token_views(resolved@);
    let mut bytes: Vec<u8> = Vec::new();
    let ghost mut ws: Seq<u32> = seq![];
    let mut j: usize = 0;
    assert(rs.take(0) =~= Seq::<Seq<char>>::empty());
    while j < resolved.len()
        invariant
            j <= resolved@.len(),
            rs == token_views(resolved@),
            resolve_all(ret, tv) == Ok::<Seq<Seq<char>>, (AsmError, Seq<char>)>(rs),
            idx@.map_values(|i: usize| lines@[i as int]@) == ret,
            forall|m: int| 0 <= m < idx@.len() ==> idx@[m] < lines@.len(),
            rs.len() == ret.len(),
            ret == retained(lv),
            tv == labels(lv),
            lv == lines_view(lines@),
            encode_all(rs.take(j as int)) == Ok::<Seq<u32>, (AsmError, int)>(ws),
            bytes@ == bytes_of(ws),
        decreases resolved@.len() - j,
    {
        proof {
            assert(rs.take(j + 1).drop_last() =~= rs.take(j as int));
            assert(rs.take(j + 1).last() == resolved@[j as int]@);
        }
        match process_line(&resolved[j]) {
            Err(e) => {
                proof {
                    lemma_encode_all_prefix_err(rs, j + 1, (e, j as int));
                }
                let line = lines[idx[j]].clone();
                assert(line@ == ret[j as int]);
                return Err(AsmFailure { error: e, line });
            },
            Ok(w) => {
                push_be_bytes(&mut bytes, w);
                proof {
                    assert(ws.push(w).drop_last() =~= ws);
                    ws = ws.push(w);
                }
            },
        }
        j = j + 1;
    }
    assert(rs.take(j as int) =~= rs);
    Ok(bytes)
}

proof fn lemma_decimal_digits(n: nat)
    ensures
        decimal(n).len() >= 1,
        all_digits(decimal(n)),
        digits_value(decimal(n)) == n,
    decreases n,
{
    let d = decimal(n);
    if n < 10 {
        assert(d.drop_last() =~= Seq::<char>::empty());
        assert(digit_char(n) as u32 == 48 + n) by {
            assert(n == 0 || n == 1 || n == 2 || n == 3 || n == 4 || n == 5 || n == 6 || n == 7
                || n == 8 || n == 9);
        }
        assert(d.last() == digit_char(n));
        assert(digits_value(d) == digits_value(d.drop_last()) * 10 + (d.last() as u32 - 48) as nat);
        assert(is_digit(d[0]));
    } else {
        lemma_decimal_digits(n / 10);
        let m = n % 10;
        assert(digit_char(m) as u32 == 48 + m) by {
            assert(m == 0 || m == 1 || m == 2 || m == 3 || m == 4 || m == 5 || m == 6 || m == 7
                || m == 8 || m == 9);
        }
        assert(d.drop_last() =~= decimal(n / 10));
        assert(d.last() == digit_char(m));
        assert(n == (n / 10) * 10 + m);
        assert(digits_value(d) == digits_value(d.drop_last()) * 10 + (d.last() as u32 - 48) as nat);
        assert forall|i: int| 0 <= i < d.len() implies is_digit(#[trigger] d[i]) by {
            if i < d.len() - 1 {
                assert(d[i] == decimal(n / 10)[i]);
            }
        }
    }
}

proof fn lemma_unsigned_text(n: nat)
    ensures
        unsigned_digits(decimal(n)) == decimal(n),
        decimal(n)[0] != '-',
        magnitude_of(decimal(n)) == (if n <= 127 {
            Ok::<nat, AsmError>(n)
        } else {
            Err::<nat, AsmError>(AsmError::OperandOutOfRange)
        }),
{
    lemma_decimal_digits(n);
    assert(is_digit(decimal(n)[0]));
}

/// The literal of every value of magnitude at most 127 encodes to its
/// sign-magnitude byte, and that byte decodes back to the value.
pub proof fn lemma_operand_sign(v: int)
    requires
        -127 <= v <= 127,
    ensures
        operand_of(int_text(v)) == Ok::<u8, AsmError>(sign_magnitude(v)),
        signed_operand(sign_magnitude(v)) == v,
{
    if v < 0 {
        lemma_unsigned_text((-v) as nat);
        assert(int_text(v).drop_first() =~= decimal((-v) as nat));
    } else {
        lemma_unsigned_text(v as nat);
    }
}

/// The literal of a value of magnitude 128 or more is refused as out of range.
pub proof fn lemma_operand_out_of_range(v: int)
    requires
        v >= 128 || v <= -128,
    ensures
        operand_of(int_text(v)) == Err::<u8, AsmError>(AsmError::OperandOutOfRange),
{
    if v < 0 {
        lemma_unsigned_text((-v) as nat);
        assert(int_text(v).drop_first() =~= decimal((-v) as nat));
    } else {
        lemma_unsigned_text(v as nat);
    }
}

proof fn lemma_retained_prefix(lines: Seq<Seq<char>>, n: int)
    requires
        0 <= n <= lines.len(),
    ensures
        retained(lines.take(n)).len() <= retained(lines).len(),
        retained(lines).take(retained(lines.take(n)).len() as int) == retained(lines.take(n)),
    decreases lines.len(),
{
    if n == lines.len() {
        assert(lines.take(n) =~= lines);
        assert(retained(lines).take(retained(lines).len() as int) =~= retained(lines));
    } else {
        assert(lines.drop_last().take(n) =~= lines.take(n));
        lemma_retained_prefix(lines.drop_last(), n);
        let a = retained(lines.drop_last());
        let b = retained(lines.take(n));
        if is_instruction(lines.last()) {
            assert(a.push(lines.last()).take(b.len() as int) =~= a.take(b.len() as int));
        }
    }
}

proof fn lemma_retained_skip(lines: Seq<Seq<char>>, a: int, b: int)
    requires
        0 <= a <= b <= lines.len(),
        forall|r: int| a <= r < b ==> !is_instruction(#[trigger] lines[r]),
    ensures
        retained(lines.take(b)) == retained(lines.take(a)),
    decreases b - a,
{
    if b > a {
        lemma_retained_skip(lines, a, b - 1);
        assert(lines.take(b).drop_last() =~= lines.take(b - 1));
        assert(lines.take(b).last() == lines[b - 1]);
    }
}

proof fn lemma_label_lookup(lines: Seq<Seq<char>>, p: int)
    requires
        0 <= p < lines.len(),
        is_label(lines[p]),
        forall|r: int| p < r < lines.len() ==> #[trigger] lines[r] != lines[p],
    ensures
        lookup(labels(lines), lines[p]) == Some(retained(lines.take(p)).len()),
    decreases lines.len(),
{
    let prev = labels(lines.drop_last());
    if p == lines.len() - 1 {
        assert(lines.drop_last() =~= lines.take(p));
        let e = (lines.last(), retained(lines.drop_last()).len());
        assert(labels(lines) == prev.push(e));
        assert(prev.push(e).last() == e);
    } else {
        assert(lines.drop_last().take(p) =~= lines.take(p));
        assert(lines.last() != lines[p]);
        assert(lines.drop_last()[p] == lines[p]);
        lemma_label_lookup(lines.drop_last(), p);
        if is_label(lines.last()) {
            let e = (lines.last(), retained(lines.drop_last()).len());
            assert(prev.push(e).drop_last() =~= prev);
            assert(prev.push(e).last() == e);
        }
    }
}

/// A label defined (for the last time) on line `p` stands for the count `k`
/// of instruction lines before it; the instruction at index `k` of the
/// program is the first instruction line after the label; and a reference,
/// replaced by the text of `k + 1`, encodes to the operand `k + 1`.
pub proof fn lemma_label_offset(lines: Seq<Seq<char>>, p: int, q: int)
    requires
        0 <= p < q < lines.len(),
        is_label(lines[p]),
        forall|r: int| p < r < lines.len() ==> #[trigger] lines[r] != lines[p],
        is_instruction(lines[q]),
        forall|r: int| p < r < q ==> !is_instruction(#[trigger] lines[r]),
    ensures
        ({
            let k = retained(lines.take(p)).len();
            &&& lookup(labels(lines), lines[p]) == Some(k)
            &&& k < retained(lines).len()
            &&& retained(lines)[k as int] == lines[q]
            &&& k + 1 <= 127 ==> operand_of(decimal(k + 1)) == Ok::<u8, AsmError>((k + 1) as u8)
        }),
{
    let k = retained(lines.take(p)).len();
    lemma_label_lookup(lines, p);
    assert forall|r: int| p <= r < q implies !is_instruction(#[trigger] lines[r]) by {
        if r > p {
        }
    }
    lemma_retained_skip(lines, p, q);
    assert(lines.take(q + 1).drop_last() =~= lines.take(q));
    assert(lines.take(q + 1).last() == lines[q]);
    lemma_retained_prefix(lines, q + 1);
    assert(retained(lines.take(q + 1)) == retained(lines.take(p)).push(lines[q]));
    assert(retained(lines).take((k + 1) as int)[k as int] == lines[q]);
    lemma_unsigned_text((k + 1) as nat);
}

pub open spec fn is_ascii_text(s: Seq<char>) -> bool {
    forall|i: int| 0 <= i < s.len() ==> ((#[trigger] s[i]) as u32) < 0x80
}

proof fn lemma_char_index_ascii(s: Seq<char>, b: int)
    requires
        is_ascii_text(s),
        0 <= b <= s.len(),
    ensures
        char_index(s, b) == b,
    decreases s.len(),
{
    if s.len() > 0 && b >= 1 {
        assert((s[0] as u32) < 0x80);
        assert(is_ascii_text(s.drop_first())) by {
            assert forall|i: int| 0 <= i < s.drop_first().len() implies ((
            #[trigger] s.drop_first()[i]) as u32) < 0x80 by {
                assert(s.drop_first()[i] == s[i + 1]);
            }
        }
        lemma_char_index_ascii(s.drop_first(), b - 1);
    }
}

proof fn lemma_split_append(a: Seq<char>, d: Seq<char>)
    requires
        forall|i: int| 0 <= i < d.len() ==> #[trigger] d[i] != ' ',
    ensures
        split_spaces(a + d) == split_spaces(a).update(
            split_spaces(a).len() - 1,
            split_spaces(a).last() + d,
        ),
    decreases d.len(),
{
    lemma_split_nonempty(a);
    if d.len() == 0 {
        assert(a + d =~= a);
        assert(split_spaces(a).last() + d =~= split_spaces(a).last());
        assert(split_spaces(a).update(split_spaces(a).len() - 1, split_spaces(a).last())
            =~= split_spaces(a));
    } else {
        let d0 = d.drop_last();
        lemma_split_append(a, d0);
        assert((a + d).drop_last() =~= a + d0);
        assert((a + d).last() == d.last());
        let p = split_spaces(a);
        assert(p.update(p.len() - 1, p.last() + d0).last() == p.last() + d0);
        assert((p.last() + d0).push(d.last()) =~= p.last() + d);
        assert(d.last() != ' ');
        assert(p.update(p.len() - 1, p.last() + d0).update(p.len() - 1, (p.last() + d0).push(
            d.last(),
        )) =~= p.update(p.len() - 1, p.last() + d));
    }
}

pub open spec fn jmp_prefix() -> Seq<char> {
    seq!['J', 'M', 'P', ' ']
}

/// A jump whose one reference names a label with count `k` (an ASCII name,
/// as a whole match) resolves to `JMP` and the text of `k + 1`, and encodes
/// to a JMP word whose operand is `k + 1`.
pub proof fn lemma_jump_reference(name: Seq<char>, table: Seq<(Seq<char>, nat)>, k: nat)
    requires
        name.len() >= 1,
        4 + name.len() <= usize::MAX,
        is_ascii_text(name),
        lookup(table, name) == Some(k),
        k + 1 <= 127,
    ensures
        resolve_spec(
            jmp_prefix() + name,
            seq![(4usize, (4 + name.len()) as usize)],
            table,
        ) == Ok::<Seq<char>, AsmError>(jmp_prefix() + decimal(k + 1)),
        encode_line(jmp_prefix() + decimal(k + 1)) == Ok::<u32, AsmError>(
            word_of(6, 0, 0, (k + 1) as u8),
        ),
{
    let line = jmp_prefix() + name;
    let spans = seq![(4usize, (4 + name.len()) as usize)];
    assert(is_ascii_text(line)) by {
        assert forall|i: int| 0 <= i < line.len() implies ((#[trigger] line[i]) as u32) < 0x80 by {
            if i >= 4 {
                assert(line[i] == name[i - 4]);
            }
        }
    }
    lemma_char_index_ascii(line, 4);
    lemma_char_index_ascii(line, line.len() as int);
    assert(line.subrange(4, line.len() as int) =~= name);
    assert(line.subrange(0, 4) =~= jmp_prefix());
    assert(resolve_prefix(line, spans, table, 0) == Ok::<(Seq<char>, int), AsmError>(
        (seq![], 0),
    ));
    assert(Seq::<char>::empty() + jmp_prefix() + decimal(k + 1) =~= jmp_prefix() + decimal(
        k + 1,
    ));
    assert(line.subrange(line.len() as int, line.len() as int) =~= Seq::<char>::empty());
    assert(jmp_prefix() + decimal(k + 1) + Seq::<char>::empty() =~= jmp_prefix() + decimal(
        k + 1,
    ));
    let d = decimal(k + 1);
    lemma_unsigned_text(k + 1);
    assert forall|i: int| 0 <= i < d.len() implies #[trigger] d[i] != ' ' by {
        assert(is_digit(d[i]));
    }
    let jmp = seq!['J', 'M', 'P'];
    assert forall|i: int| 0 <= i < jmp.len() implies #[trigger] jmp[i] != ' ' by {}
    lemma_split_append(Seq::<char>::empty(), jmp);
    assert(Seq::<char>::empty() + jmp =~= jmp);
    assert(split_spaces(Seq::<char>::empty()) == seq![Seq::<char>::empty()]);
    assert(split_spaces(jmp) =~= seq![jmp]);
    assert(jmp_prefix().drop_last() =~= jmp);
    assert(split_spaces(jmp_prefix()) =~= seq![jmp, Seq::<char>::empty()]);
    lemma_split_append(jmp_prefix(), d);
    assert(split_spaces(jmp_prefix() + d) =~= seq![jmp, d]);
    assert(opcode_of(jmp) == Some(6u8));
}

/// Assembling the same text twice gives the same artifact.
pub proof fn lemma_reassembly_identical(
    lines: Seq<Seq<char>>,
    first: Result<Seq<u8>, (AsmError, Seq<char>)>,
    second: Result<Seq<u8>, (AsmError, Seq<char>)>,
)
    requires
        first == assemble_spec(lines),
        second == assemble_spec(lines),
    ensures
        first == second,
{
}

} // verus!
