//! The virtual machine: a register file, a program of instruction words and
//! a condition flag, run by a fetch-decode-execute loop.
use vstd::prelude::*;
use crate::codec::{
    be_word, get_num, get_opcode, get_type, get_unum, get_var, num_field, opcode_field,
    signed_operand, type_field, var_field, word_from_be, words_of,
};
use crate::text::{int_text, push_decimal, string_from_chars};

verus! {

/// Why a run stopped short.
#[derive(Clone, Copy, Debug, PartialEq, Eq, Structural)]
pub enum VmError {
    /// A register operand named a register outside 0..=15.
    RegisterOutOfRange,
    /// A division had a zero divisor.
    DivideByZero,
    /// An arithmetic result does not fit a register.
    Overflow,
    /// A program's byte length is not a multiple of four.
    MalformedProgram,
}

/// The abstract state of a machine.
pub struct MachineState {
    pub pc: int,
    pub registers: Seq<i8>,
    pub instructions: Seq<u32>,
    pub output: Seq<char>,
    pub jump: bool,
    pub ticks: int,
    pub tick_limit: int,
}

/// What a print instruction records.
pub open spec fn output_text(v: int) -> Seq<char> {
    seq!['o', 'u', 't', 'p', 'u', 't', ':', ' '] + int_text(v)
}

pub open spec fn fits_i8(v: int) -> bool {
    -128 <= v <= 127
}

pub open spec fn abs_int(v: int) -> int {
    if v < 0 {
        -v
    } else {
        v
    }
}

/// Integer division rounding toward zero.
pub open spec fn trunc_div(a: int, b: int) -> int {
    if (a < 0) == (b < 0) {
        abs_int(a) / abs_int(b)
    } else {
        -(abs_int(a) / abs_int(b))
    }
}

/// The second operand of an instruction: the register that the operand names
/// when the type is 1, else the signed literal.
pub open spec fn source_value(s: MachineState, w: u32) -> Result<int, VmError> {
    let v = signed_operand(num_field(w));
    if type_field(w) == 1 {
        if 0 <= v <= 15 {
            Ok(s.registers[v] as int)
        } else {
            Err(VmError::RegisterOutOfRange)
        }
    } else {
        Ok(v)
    }
}

/// The result of the arithmetic opcode `op` (ADD, SUB, MUL or DIV).
pub open spec fn arith(op: u8, a: int, b: int) -> Result<int, VmError> {
    let r = if op == 2 {
        a + b
    } else if op == 3 {
        a - b
    } else if op == 4 {
        a * b
    } else {
        trunc_div(a, b)
    };
    if op == 5 && b == 0 {
        Err(VmError::DivideByZero)
    } else if fits_i8(r) {
        Ok(r)
    } else {
        Err(VmError::Overflow)
    }
}

pub open spec fn with_register(s: MachineState, i: int, v: int) -> MachineState {
    MachineState { registers: s.registers.update(i, v as i8), ..s }
}

/// Where a taken jump leaves the program counter, before the step's own
/// increment.
pub open spec fn jump_target(u: u8) -> int {
    if u < 2 {
        0
    } else {
        u - 2
    }
}

/// The effect of one instruction word, before the program counter and the
/// tick counter advance.
pub open spec fn dispatch(s: MachineState, w: u32) -> Result<MachineState, VmError> {
    let op = opcode_field(w);
    let r = var_field(w) as int;
    let ty = type_field(w);
    let v = signed_operand(num_field(w));
    if op == 0 {
        if ty == 0 {
            Ok(MachineState { output: output_text(v), ..s })
        } else if ty == 2 {
            Ok(MachineState { output: output_text(s.registers[r] as int), ..s })
        } else {
            Ok(s)
        }
    } else if op == 1 {
        match source_value(s, w) {
            Ok(x) => Ok(with_register(s, r, x)),
            Err(e) => Err(e),
        }
    } else if 2 <= op <= 5 {
        match source_value(s, w) {
            Ok(x) => match arith(op, s.registers[r] as int, x) {
                Ok(y) => Ok(with_register(s, r, y)),
                Err(e) => Err(e),
            },
            Err(e) => Err(e),
        }
    } else if op == 6 || op == 7 {
        if s.jump == (op == 6) {
            Ok(MachineState { pc: jump_target(num_field(w)), ..s })
        } else {
            Ok(s)
        }
    } else if op == 8 {
        Ok(MachineState { jump: s.registers[r] as int == v, ..s })
    } else if op == 9 {
        Ok(MachineState { jump: s.registers[r] as int > v, ..s })
    } else if op == 10 {
        Ok(MachineState { jump: (s.registers[r] as int) < v, ..s })
    } else {
        Ok(s)
    }
}

/// A print instruction that records a line: a literal (type 0) or a
/// register (type 2).
pub open spec fn prints(w: u32) -> bool {
    opcode_field(w) == 0 && (type_field(w) == 0 || type_field(w) == 2)
}

/// A step can run: an instruction is pending and the tick counter can count it.
pub open spec fn can_step(s: MachineState) -> bool {
    0 <= s.pc < s.instructions.len() && s.ticks < usize::MAX
}

/// One tick: the pending instruction runs, then the program counter and the
/// tick counter each advance by one.
pub open spec fn execute(s: MachineState) -> Result<MachineState, VmError>
    recommends
        can_step(s),
{
    match dispatch(s, s.instructions[s.pc]) {
        Ok(d) => Ok(MachineState { pc: d.pc + 1, ticks: s.ticks + 1, ..d }),
        Err(e) => Err(e),
    }
}

/// A whole run: steps until no instruction is pending, the tick counter
/// passes the tick limit, or an instruction fails. The state returned is the
/// one in which the run stopped.
pub open spec fn run_outcome(s: MachineState) -> (MachineState, Result<(), VmError>)
    decreases usize::MAX - s.ticks,
{
    if !can_step(s) {
        (s, Ok(()))
    } else {
        match execute(s) {
            Err(e) => (s, Err(e)),
            Ok(s1) => if s1.ticks > s1.tick_limit {
                (s1, Ok(()))
            } else {
                run_outcome(s1)
            },
        }
    }
}

/// A machine: its registers, program, last printed line, condition flag and
/// counters.
pub struct Vm {
    pub pc: usize,
    pub registers: [i8; 18],
    pub instructions: Vec<u32>,
    pub output: String,
    pub jump: bool,
    pub ticks: usize,
    pub tick_limit: usize,
}

impl View for Vm {
    type V = MachineState;

    open spec fn view(&self) -> MachineState {
        MachineState {
            pc: self.pc as int,
            registers: self.registers@,
            instructions: self.instructions@,
            output: self.output@,
            jump: self.jump,
            ticks: self.ticks as int,
            tick_limit: self.tick_limit as int,
        }
    }
}

impl Default for Vm {
    fn default() -> (r: Vm)
        ensures
            r@ == Vm::initial(),
    {
        Vm::new()
    }
}

impl Vm {
    /// The state of a new machine: all registers zero, no program, no output,
    /// the flag clear, both counters at zero and no effective tick limit.
    pub open spec fn initial() -> MachineState {
        MachineState {
            pc: 0,
            registers: Seq::new(18, |i: int| 0i8),
            instructions: seq![],
            output: seq![],
            jump: false,
            ticks: 0,
            tick_limit: usize::MAX as int,
        }
    }

    pub fn new() -> (r: Self)
        ensures
            r@ == Vm::initial(),
    {
        let r = Vm {
            pc: 0,
            registers: [0i8; 18],
            instructions: Vec::new(),
            output: String::new(),
            jump: false,
            ticks: 0,
            tick_limit: usize::MAX,
        };
        assert(r@.registers =~= Seq::new(18, |i: int| 0i8));
        assert(r@.instructions =~= seq![]);
        r
    }

    pub fn set_tick_limit(&mut self, limit: usize)
        ensures
            final(self)@ == (MachineState { tick_limit: limit as int, ..(old(self)@) }),
    {
        self.tick_limit = limit;
    }

    /// The program counter.
    pub fn pc(&self) -> (r: usize)
        ensures
            r as int == self@.pc,
    {
        self.pc
    }

    /// Appends the program held in `data`, four bytes per word, most
    /// significant first. A length that is not a multiple of four is refused
    /// and leaves the machine as it was.
    pub fn load_bytes(&mut self, data: &Vec<u8>) -> (r: Result<(), VmError>)
        ensures
            data@.len() % 4 != 0 ==> r == Err::<(), VmError>(VmError::MalformedProgram) && final(self)@ == old(self)@,
            data@.len() % 4 == 0 ==> r == Ok::<(), VmError>(()) && final(self)@ == (MachineState {
                instructions: old(self)@.instructions + words_of(data@),
                ..(old(self)@)
            }),
    {
        if data.len() % 4 != 0 {
            return Err(VmError::MalformedProgram);
        }
        let len = data.len();
        let n = len / 4;
        assert(4 * n == data@.len());
        let mut i: usize = 0;
        while i < n
            invariant
                n == data@.len() / 4,
                4 * n == data@.len(),
                len == data@.len(),
                data@.len() % 4 == 0,
                i <= n,
                self@ == (MachineState {
                    instructions: old(self)@.instructions + words_of(data@).take(i as int),
                    ..(old(self)@)
                }),
            decreases n - i,
        {
            let w = word_from_be(data[4 * i], data[4 * i + 1], data[4 * i + 2], data[4 * i + 3]);
            self.instructions.push(w);
            i = i + 1;
            assert(self@.instructions =~= old(self)@.instructions + words_of(data@).take(
                i as int,
            ));
        }
        assert(words_of(data@).take(n as int) =~= words_of(data@));
        Ok(())
    }

    /// Whether the next step runs a print instruction that records a line.
    pub fn prints_next(&self) -> (r: bool)
        ensures
            r == (can_step(self@) && prints(self@.instructions[self@.pc])),
    {
        if self.ticks == usize::MAX {
            return false;
        }
        match self.fetch() {
            Some(w) => get_opcode(w) == 0 && (get_type(w) == 0 || get_type(w) == 2),
            None => false,
        }
    }

    /// The pending instruction, if any.
    fn fetch(&self) -> (r: Option<u32>)
        ensures
            r == (if 0 <= self@.pc < self@.instructions.len() {
                Some(self@.instructions[self@.pc])
            } else {
                None::<u32>
            }),
    {
        if self.pc >= self.instructions.len() {
            return None;
        }
        Some(self.instructions[self.pc])
    }

    fn record_output(&mut self, v: i8)
        ensures
            final(self)@ == (MachineState { output: output_text(v as int), ..(old(self)@) }),
    {
        let mut text: Vec<char> = vec!['o', 'u', 't', 'p', 'u', 't', ':', ' '];
        if v < 0 {
            text.push('-');
            push_decimal(&mut text, (-(v as i16)) as u64);
            assert(text@ =~= output_text(v as int));
        } else {
            push_decimal(&mut text, v as u64);
            assert(text@ =~= output_text(v as int));
        }
        self.output = string_from_chars(&text);
    }

    fn prt(&mut self, instruction: u32)
        requires
            opcode_field(instruction) == 0,
        ensures
            dispatch(old(self)@, instruction) == Ok::<MachineState, VmError>(final(self)@),
    {
        let ins_type = get_type(instruction);
        if ins_type == 0 {
            let num = get_num(instruction);
            self.record_output(num);
        } else if ins_type == 2 {
            let index = get_var(instruction) as usize;
            self.record_output(self.registers[index]);
        }
    }

    /// The value of the second operand; see `source_value`.
    fn operand(&self, instruction: u32) -> (r: Result<i8, VmError>)
        ensures
            match source_value(self@, instruction) {
                Ok(x) => r == Ok::<i8, VmError>(x as i8) && fits_i8(x),
                Err(e) => r == Err::<i8, VmError>(e),
            },
    {
        let num = get_num(instruction);
        if get_type(instruction) == 1 {
            if num < 0 || num > 15 {
                return Err(VmError::RegisterOutOfRange);
            }
            return Ok(self.registers[num as usize]);
        }
        Ok(num)
    }

    fn set(&mut self, instruction: u32) -> (r: Result<(), VmError>)
        requires
            opcode_field(instruction) == 1,
        ensures
            match dispatch(old(self)@, instruction) {
                Ok(s) => r == Ok::<(), VmError>(()) && final(self)@ == s,
                Err(e) => r == Err::<(), VmError>(e) && final(self)@ == old(self)@,
            },
    {
        let index = get_var(instruction) as usize;
        let x = match self.operand(instruction) {
            Ok(x) => x,
            Err(e) => return Err(e),
        };
        self.registers[index] = x;
        assert(self@ == with_register(old(self)@, index as int, x as int));
        Ok(())
    }

    /// Stores the result of an arithmetic opcode, or fails.
    fn store(&mut self, index: usize, result: i32) -> (r: Result<(), VmError>)
        requires
            index < 16,
        ensures
            fits_i8(result as int) ==> r == Ok::<(), VmError>(()) && final(self)@ == with_register(
                old(self)@,
                index as int,
                result as int,
            ),
            !fits_i8(result as int) ==> r == Err::<(), VmError>(VmError::Overflow) && final(self)@
                == old(self)@,
    {
        if result < -128 || result > 127 {
            return Err(VmError::Overflow);
        }
        self.registers[index] = result as i8;
        Ok(())
    }

    fn add(&mut self, instruction: u32) -> (r: Result<(), VmError>)
        requires
            opcode_field(instruction) == 2,
        ensures
            match dispatch(old(self)@, instruction) {
                Ok(s) => r == Ok::<(), VmError>(()) && final(self)@ == s,
                Err(e) => r == Err::<(), VmError>(e) && final(self)@ == old(self)@,
            },
    {
        let index = get_var(instruction) as usize;
        let x = match self.operand(instruction) {
            Ok(x) => x,
            Err(e) => return Err(e),
        };
        self.store(index, self.registers[index] as i32 + x as i32)
    }

    fn sub(&mut self, instruction: u32) -> (r: Result<(), VmError>)
        requires
            opcode_field(instruction) == 3,
        ensures
            match dispatch(old(self)@, instruction) {
                Ok(s) => r == Ok::<(), VmError>(()) && final(self)@ == s,
                Err(e) => r == Err::<(), VmError>(e) && final(self)@ == old(self)@,
            },
    {
        let index = get_var(instruction) as usize;
        let x = match self.operand(instruction) {
            Ok(x) => x,
            Err(e) => return Err(e),
        };
        self.store(index, self.registers[index] as i32 - x as i32)
    }

    fn mul(&mut self, instruction: u32) -> (r: Result<(), VmError>)
        requires
            opcode_field(instruction) == 4,
        ensures
            match dispatch(old(self)@, instruction) {
                Ok(s) => r == Ok::<(), VmError>(()) && final(self)@ == s,
                Err(e) => r == Err::<(), VmError>(e) && final(self)@ == old(self)@,
            },
    {
        let index = get_var(instruction) as usize;
        let x = match self.operand(instruction) {
            Ok(x) => x,
            Err(e) => return Err(e),
        };
        let a = self.registers[index] as i32;
        let b = x as i32;
        assert(-16384 <= a * b <= 16384) by (nonlinear_arith)
            requires
                -128 <= a <= 127,
                -128 <= b <= 127,
        ;
        self.store(index, a * b)
    }

    fn div(&mut self, instruction: u32) -> (r: Result<(), VmError>)
        requires
            opcode_field(instruction) == 5,
        ensures
            match dispatch(old(self)@, instruction) {
                Ok(s) => r == Ok::<(), VmError>(()) && final(self)@ == s,
                Err(e) => r == Err::<(), VmError>(e) && final(self)@ == old(self)@,
            },
    {
        let index = get_var(instruction) as usize;
        let x = match self.operand(instruction) {
            Ok(x) => x,
            Err(e) => return Err(e),
        };
        if x == 0 {
            return Err(VmError::DivideByZero);
        }
        let a = self.registers[index] as i32;
        let b = x as i32;
        let ua: u32 = if a < 0 {
            (-a) as u32
        } else {
            a as u32
        };
        let ub: u32 = if b < 0 {
            (-b) as u32
        } else {
            b as u32
        };
        let uq = ua / ub;
        assert(uq <= ua) by (nonlinear_arith)
            requires
                uq == ua / ub,
                ub >= 1,
        ;
        let q: i32 = if (a < 0) == (b < 0) {
            uq as i32
        } else {
            -(uq as i32)
        };
        self.store(index, q)
    }

    /// JMP and JNP.
    fn branch(&mut self, instruction: u32)
        requires
            opcode_field(instruction) == 6 || opcode_field(instruction) == 7,
        ensures
            dispatch(old(self)@, instruction) == Ok::<MachineState, VmError>(final(self)@),
    {
        let taken = if get_opcode(instruction) == 6 {
            self.jump
        } else {
            !self.jump
        };
        if taken {
            let num = get_unum(instruction) as usize;
            if num < 2 {
                self.pc = 0;
            } else {
                self.pc = num - 2;
            }
        }
    }

    /// EQL, CBP and CLP.
    fn compare(&mut self, instruction: u32)
        requires
            8 <= opcode_field(instruction) <= 10,
        ensures
            dispatch(old(self)@, instruction) == Ok::<MachineState, VmError>(final(self)@),
    {
        let index = get_var(instruction) as usize;
        let num = get_num(instruction);
        let opcode = get_opcode(instruction);
        if opcode == 8 {
            self.jump = self.registers[index] == num;
        } else if opcode == 9 {
            self.jump = self.registers[index] > num;
        } else {
            self.jump = self.registers[index] < num;
        }
    }

    /// Runs the pending instruction and advances the counters. Returns
    /// `Ok(false)`, changing nothing, when no step can run.
    pub fn step(&mut self) -> (r: Result<bool, VmError>)
        ensures
            !can_step(old(self)@) ==> r == Ok::<bool, VmError>(false) && final(self)@ == old(self)@,
            can_step(old(self)@) ==> match execute(old(self)@) {
                Ok(s) => r == Ok::<bool, VmError>(true) && final(self)@ == s,
                Err(e) => r == Err::<bool, VmError>(e) && final(self)@ == old(self)@,
            },
    {
        let instruction = match self.fetch() {
            Some(ins) => ins,
            None => return Ok(false),
        };
        if self.ticks == usize::MAX {
            return Ok(false);
        }
        let opcode = get_opcode(instruction);
        let program_len = self.instructions.len();
        let res: Result<(), VmError> = if opcode == 0 {
            self.prt(instruction);
            Ok(())
        } else if opcode == 1 {
            self.set(instruction)
        } else if opcode == 2 {
            self.add(instruction)
        } else if opcode == 3 {
            self.sub(instruction)
        } else if opcode == 4 {
            self.mul(instruction)
        } else if opcode == 5 {
            self.div(instruction)
        } else if opcode == 6 || opcode == 7 {
            self.branch(instruction);
            Ok(())
        } else if 8 <= opcode && opcode <= 10 {
            self.compare(instruction);
            Ok(())
        } else {
            Ok(())
        };
        if let Err(e) = res {
            return Err(e);
        }
        assert(self@.pc < program_len || self@.pc <= 253);
        self.pc = self.pc + 1;
        self.ticks = self.ticks + 1;
        Ok(true)
    }

    /// Runs until no instruction is pending, the tick counter passes the
    /// tick limit, or an instruction fails.
    pub fn exec(&mut self) -> (r: Result<(), VmError>)
        ensures
            (final(self)@, r) == run_outcome(old(self)@),
    {
        loop
            invariant
                run_outcome(self@) == run_outcome(old(self)@),
            decreases usize::MAX - self.ticks,
        {
            match self.step() {
                Err(e) => return Err(e),
                Ok(false) => return Ok(()),
                Ok(true) => {
                    if self.ticks > self.tick_limit {
                        return Ok(());
                    }
                },
            }
        }
    }
}

/// A branch (JMP when the flag is set, JNP when it is clear) that is taken
/// leaves the next fetch at `jump_target(operand) + 1`; one that is not taken
/// goes on to the next instruction.
pub proof fn lemma_branch(s: MachineState)
    requires
        can_step(s),
        opcode_field(s.instructions[s.pc]) == 6 || opcode_field(s.instructions[s.pc]) == 7,
    ensures
        ({
            let w = s.instructions[s.pc];
            let taken = s.jump == (opcode_field(w) == 6);
            &&& execute(s) is Ok
            &&& execute(s)->Ok_0.pc == (if taken {
                jump_target(num_field(w)) + 1
            } else {
                s.pc + 1
            })
            &&& execute(s)->Ok_0.registers == s.registers
            &&& execute(s)->Ok_0.jump == s.jump
        }),
{
}

/// A taken branch whose operand is `k + 1`, as a label reference to the
/// instruction at index `k` assembles, fetches that instruction next. The
/// clamp of the jump target at zero leaves out `k == 0`: the operand 1 lands
/// on index 1.
pub proof fn lemma_jump_lands(s: MachineState, k: int)
    requires
        can_step(s),
        opcode_field(s.instructions[s.pc]) == 6 && s.jump || opcode_field(s.instructions[s.pc])
            == 7 && !s.jump,
        num_field(s.instructions[s.pc]) == k + 1,
        k >= 1,
    ensures
        execute(s) is Ok,
        execute(s)->Ok_0.pc == k,
{
    lemma_branch(s);
}

} // verus!
