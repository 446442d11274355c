//! A computer with three registers and a program of three-bit numbers,
//! which come in pairs of an instruction and its operand.
//!
//! The program is held as the characters that write its numbers. A run is
//! given up after `MAX_STEPS` instructions, and at an instruction or an
//! operand that the computer does not know.

use crate::text::{all_digits, copy_range, decimal_value, lines, lines_of, parse_decimal_wide, views};
use vstd::prelude::*;

verus! {

/// The number of the register A.
pub const A: usize = 0;

/// The number of the register B.
pub const B: usize = 1;

/// The number of the register C.
pub const C: usize = 2;

pub const ADV: char = '0';

pub const BXL: char = '1';

pub const BST: char = '2';

pub const JNZ: char = '3';

pub const BXC: char = '4';

pub const OUT: char = '5';

pub const BDV: char = '6';

pub const CDV: char = '7';

/// The most instructions of one run.
pub const MAX_STEPS: u32 = 10_000_000;

/// The computer: its program and its registers A, B and C.
pub struct Computer {
    pub program: Vec<char>,
    pub registers: [u128; 3],
}

/// The state of a run: the registers, the place of the next instruction
/// and what has been put out.
pub struct Run {
    pub registers: Seq<u128>,
    pub pointer: int,
    pub output: Seq<char>,
}

/// The number that a decimal digit writes, if `c` is one.
pub open spec fn digit_of_char(c: char) -> Option<u128> {
    if '0' <= c <= '9' {
        Some((c as u128 - '0' as u128) as u128)
    } else {
        None
    }
}

/// The value of a combo operand: 0 to 3 stand for themselves, 4 to 6 for
/// the registers A, B and C; others have no value.
pub open spec fn combo(registers: Seq<u128>, operand: char) -> Option<u128> {
    if operand == '0' {
        Some(0)
    } else if operand == '1' {
        Some(1)
    } else if operand == '2' {
        Some(2)
    } else if operand == '3' {
        Some(3)
    } else if operand == '4' {
        Some(registers[0])
    } else if operand == '5' {
        Some(registers[1])
    } else if operand == '6' {
        Some(registers[2])
    } else {
        None
    }
}

/// The number `a` halved `times` times, each time rounded down.
pub open spec fn halved(a: u128, times: nat) -> u128
    decreases times,
{
    if times == 0 {
        a
    } else {
        halved(a / 2, (times - 1) as nat)
    }
}

/// The number `a` divided by two to the power of `operand`, of which the
/// lowest 32 bits count.
pub open spec fn divided(a: u128, operand: u128) -> u128 {
    halved(a, (operand % 0x1_0000_0000) as nat)
}

/// The character that writes a number below 8.
pub open spec fn code_of(value: u128) -> char {
    (('0' as u128) + value % 8) as char
}

/// The state after the instruction `opcode` with `operand`, or nothing
/// where the computer does not know the one or the other.
pub open spec fn step(run: Run, opcode: char, operand: char) -> Option<Run> {
    let regs = run.registers;
    let next = run.pointer + 2;
    if opcode == ADV {
        match combo(regs, operand) {
            Some(value) => Some(
                Run { registers: regs.update(0, divided(regs[0], value)), pointer: next, ..run },
            ),
            None => None,
        }
    } else if opcode == BXL {
        match digit_of_char(operand) {
            Some(value) => Some(Run { registers: regs.update(1, regs[1] ^ value), pointer: next, ..run }),
            None => None,
        }
    } else if opcode == BST {
        match combo(regs, operand) {
            Some(value) => Some(Run { registers: regs.update(1, value % 8), pointer: next, ..run }),
            None => None,
        }
    } else if opcode == JNZ {
        if regs[0] == 0 {
            Some(Run { pointer: next, ..run })
        } else {
            match digit_of_char(operand) {
                Some(value) => Some(Run { pointer: value as int, ..run }),
                None => None,
            }
        }
    } else if opcode == BXC {
        Some(Run { registers: regs.update(1, regs[1] ^ regs[2]), pointer: next, ..run })
    } else if opcode == OUT {
        match combo(regs, operand) {
            Some(value) => Some(Run { output: run.output.push(code_of(value)), pointer: next, ..run }),
            None => None,
        }
    } else if opcode == BDV {
        match combo(regs, operand) {
            Some(value) => Some(
                Run { registers: regs.update(1, divided(regs[0], value)), pointer: next, ..run },
            ),
            None => None,
        }
    } else if opcode == CDV {
        match combo(regs, operand) {
            Some(value) => Some(
                Run { registers: regs.update(2, divided(regs[0], value)), pointer: next, ..run },
            ),
            None => None,
        }
    } else {
        None
    }
}

/// The end of a run of at most `steps` instructions: the state at which it
/// ends, and whether it ends because the program is at its end.
pub open spec fn run_of(program: Seq<char>, run: Run, steps: nat) -> (bool, Run)
    decreases steps,
{
    if run.pointer < 0 || run.pointer >= program.len() {
        (true, run)
    } else if steps == 0 || run.pointer + 1 >= program.len() {
        (false, run)
    } else {
        match step(run, program[run.pointer], program[run.pointer + 1]) {
            None => (false, run),
            Some(next) => run_of(program, next, (steps - 1) as nat),
        }
    }
}

/// The state in which a run starts.
pub open spec fn start_of(registers: Seq<u128>) -> Run {
    Run { registers, pointer: 0, output: Seq::empty() }
}

/// The state with these registers, this pointer and this output.
pub open spec fn run_at(registers: Seq<u128>, pointer: int, output: Seq<char>) -> Run {
    Run { registers, pointer, output }
}

/// The number that a decimal digit writes.
fn digit_value_of(c: char) -> (value: Option<u128>)
    ensures
        value == digit_of_char(c),
{
    if '0' <= c && c <= '9' {
        Some((c as u32 - '0' as u32) as u128)
    } else {
        None
    }
}

/// The number `a` divided by two to the power of `operand`.
fn divide(a: u128, operand: u128) -> (result: u128)
    ensures
        result == divided(a, operand),
{
    let mut times = operand % 0x1_0000_0000;
    let mut result = a;
    while times > 0 && result > 0
        invariant
            halved(result, times as nat) == divided(a, operand),
        decreases times,
    {
        result = result / 2;
        times -= 1;
    }
    proof {
        lemma_nothing_halved(times as nat);
    }
    result
}

proof fn lemma_nothing_halved(times: nat)
    ensures
        halved(0, times) == 0,
    decreases times,
{
    if times > 0 {
        lemma_nothing_halved((times - 1) as nat);
    }
}

impl Computer {
    /// The invariant of a computer: nothing; its registers and its program
    /// may hold anything.
    pub open spec fn state(&self) -> Run {
        start_of(self.registers@)
    }

    /// A computer with these registers and the program that `code` writes:
    /// every other character of it, the first included.
    pub fn new(register_a: u128, register_b: u128, register_c: u128, code: &Vec<char>) -> (computer:
        Computer)
        ensures
            computer.registers@ == seq![register_a, register_b, register_c],
            computer.program.len() == (code.len() + 1) / 2,
            forall|i: int| 0 <= i < computer.program.len() ==> #[trigger] computer.program[i] == code[2 * i],
    {
        let mut program: Vec<char> = Vec::new();
        let mut i: usize = 0;
        while i < code.len()
            invariant
                i <= code.len(),
                program.len() == (i + 1) / 2,
                forall|j: int| 0 <= j < program.len() ==> #[trigger] program[j] == code[2 * j],
            decreases code.len() - i,
        {
            if i % 2 == 0 {
                program.push(code[i]);
            }
            i += 1;
        }
        let registers = [register_a, register_b, register_c];
        assert(registers@ == seq![register_a, register_b, register_c]);
        Computer { program, registers }
    }

    /// The value of a combo operand.
    pub fn read_operand(&self, operand: char) -> (value: Option<u128>)
        ensures
            value == combo(self.registers@, operand),
    {
        match operand {
            '0' => Some(0),
            '1' => Some(1),
            '2' => Some(2),
            '3' => Some(3),
            '4' => Some(self.registers[A]),
            '5' => Some(self.registers[B]),
            '6' => Some(self.registers[C]),
            _ => None,
        }
    }

    /// Divides A by two to the power of the combo operand, into A.
    pub fn division_on_a_with_pow2_on(&mut self, operand: char) -> (known: bool)
        ensures
            known == combo(old(self).registers@, operand) is Some,
            final(self).program == old(self).program,
            known ==> final(self).registers@ == old(self).registers@.update(
                0,
                divided(old(self).registers@[0], combo(old(self).registers@, operand)->0),
            ),
            !known ==> final(self).registers == old(self).registers,
    {
        match self.read_operand(operand) {
            None => false,
            Some(value) => {
                let numerator = self.registers[A];
                self.registers[A] = divide(numerator, value);
                true
            },
        }
    }

    /// Divides A by two to the power of the combo operand, into B.
    pub fn set_b_to_division_on_a_with_pow2_on(&mut self, operand: char) -> (known: bool)
        ensures
            known == combo(old(self).registers@, operand) is Some,
            final(self).program == old(self).program,
            known ==> final(self).registers@ == old(self).registers@.update(
                1,
                divided(old(self).registers@[0], combo(old(self).registers@, operand)->0),
            ),
            !known ==> final(self).registers == old(self).registers,
    {
        match self.read_operand(operand) {
            None => false,
            Some(value) => {
                let numerator = self.registers[A];
                self.registers[B] = divide(numerator, value);
                true
            },
        }
    }

    /// Divides A by two to the power of the combo operand, into C.
    pub fn set_c_to_division_on_a_with_pow2_on(&mut self, operand: char) -> (known: bool)
        ensures
            known == combo(old(self).registers@, operand) is Some,
            final(self).program == old(self).program,
            known ==> final(self).registers@ == old(self).registers@.update(
                2,
                divided(old(self).registers@[0], combo(old(self).registers@, operand)->0),
            ),
            !known ==> final(self).registers == old(self).registers,
    {
        match self.read_operand(operand) {
            None => false,
            Some(value) => {
                let numerator = self.registers[A];
                self.registers[C] = divide(numerator, value);
                true
            },
        }
    }

    /// Mixes the operand itself into B by exclusive or.
    pub fn bitwise_xor_on_b_with(&mut self, operand: char) -> (known: bool)
        ensures
            known == digit_of_char(operand) is Some,
            final(self).program == old(self).program,
            known ==> final(self).registers@ == old(self).registers@.update(
                1,
                old(self).registers@[1] ^ digit_of_char(operand)->0,
            ),
            !known ==> final(self).registers == old(self).registers,
    {
        match digit_value_of(operand) {
            None => false,
            Some(value) => {
                let mixed = self.registers[B] ^ value;
                self.registers[B] = mixed;
                true
            },
        }
    }

    /// Puts the lowest three bits of the combo operand into B.
    pub fn set_b_to_modulo_8_of(&mut self, operand: char) -> (known: bool)
        ensures
            known == combo(old(self).registers@, operand) is Some,
            final(self).program == old(self).program,
            known ==> final(self).registers@ == old(self).registers@.update(
                1,
                (combo(old(self).registers@, operand)->0 % 8) as u128,
            ),
            !known ==> final(self).registers == old(self).registers,
    {
        match self.read_operand(operand) {
            None => false,
            Some(value) => {
                self.registers[B] = value % 8;
                true
            },
        }
    }

    /// Where A is not 0, sets the pointer to the operand itself. Tells
    /// whether it did, or nothing where the operand is no digit.
    pub fn jump_when_a_non_zero_to(&self, operand: char, instruction_pointer: &mut usize) -> (jumped:
        Option<bool>)
        ensures
            self.registers@[0] == 0 ==> jumped == Some(false) && *final(instruction_pointer) == *old(
                instruction_pointer,
            ),
            self.registers@[0] != 0 ==> match digit_of_char(operand) {
                Some(value) => jumped == Some(true) && *final(instruction_pointer) == value,
                None => jumped is None && *final(instruction_pointer) == *old(instruction_pointer),
            },
    {
        if self.registers[A] == 0 {
            Some(false)
        } else {
            match digit_value_of(operand) {
                None => None,
                Some(value) => {
                    *instruction_pointer = value as usize;
                    Some(true)
                },
            }
        }
    }

    /// Mixes C into B by exclusive or. The operand is read and passed over.
    pub fn set_b_to_bitwise_xor_on_b_with_c(&mut self, _operand: char)
        ensures
            final(self).program == old(self).program,
            final(self).registers@ == old(self).registers@.update(
                1,
                old(self).registers@[1] ^ old(self).registers@[2],
            ),
    {
        let mixed = self.registers[B] ^ self.registers[C];
        self.registers[B] = mixed;
    }

    /// The character that writes the lowest three bits of the combo
    /// operand.
    pub fn output_modulo_8_of(&self, operand: char) -> (written: Option<char>)
        ensures
            written is Some <==> combo(self.registers@, operand) is Some,
            written matches Some(c) ==> c == code_of(combo(self.registers@, operand)->0),
    {
        match self.read_operand(operand) {
            None => None,
            Some(value) => {
                let mod8 = (value % 8) as u8;
                Some((('0' as u8) + mod8) as char)
            },
        }
    }

    /// Carries out one instruction. Tells whether the computer knew it and
    /// its operand; where it did not, nothing is changed.
    pub fn do_instruction(
        &mut self,
        opcode: char,
        operand: char,
        output: &mut Vec<char>,
        instruction_pointer: &mut usize,
    ) -> (known: bool)
        requires
            *old(instruction_pointer) + 2 <= usize::MAX,
        ensures
            final(self).program == old(self).program,
            known == step(
                run_at(old(self).registers@, *old(instruction_pointer) as int, old(output)@),
                opcode,
                operand,
            ) is Some,
            known ==> run_at(
                final(self).registers@,
                *final(instruction_pointer) as int,
                final(output)@,
            ) == step(
                run_at(old(self).registers@, *old(instruction_pointer) as int, old(output)@),
                opcode,
                operand,
            )->0,
            !known ==> final(self).registers == old(self).registers && *final(instruction_pointer)
                == *old(instruction_pointer) && final(output)@ == old(output)@,
    {
        let mut jumped = false;
        let known = match opcode {
            '0' => self.division_on_a_with_pow2_on(operand),
            '1' => self.bitwise_xor_on_b_with(operand),
            '2' => self.set_b_to_modulo_8_of(operand),
            '3' => match self.jump_when_a_non_zero_to(operand, instruction_pointer) {
                None => false,
                Some(did) => {
                    jumped = did;
                    true
                },
            },
            '4' => {
                self.set_b_to_bitwise_xor_on_b_with_c(operand);
                true
            },
            '5' => match self.output_modulo_8_of(operand) {
                None => false,
                Some(written) => {
                    output.push(written);
                    true
                },
            },
            '6' => self.set_b_to_division_on_a_with_pow2_on(operand),
            '7' => self.set_c_to_division_on_a_with_pow2_on(operand),
            _ => false,
        };
        if known && !jumped {
            *instruction_pointer += 2;
        }
        known
    }

    /// Runs the program from its start. What it puts out is handed back
    /// where the program comes to its end; nothing where the run is given
    /// up.
    pub fn execute_program(&mut self) -> (output: Option<Vec<char>>)
        ensures
            final(self).program == old(self).program,
            final(self).registers@ == run_of(
                old(self).program@,
                start_of(old(self).registers@),
                MAX_STEPS as nat,
            ).1.registers,
            output is Some <==> run_of(
                old(self).program@,
                start_of(old(self).registers@),
                MAX_STEPS as nat,
            ).0,
            output matches Some(put) ==> put@ == run_of(
                old(self).program@,
                start_of(old(self).registers@),
                MAX_STEPS as nat,
            ).1.output,
    {
        let mut output: Vec<char> = Vec::new();
        let mut instruction_pointer: usize = 0;
        let mut steps_left: u32 = MAX_STEPS;
        let ghost whole = run_of(self.program@, start_of(self.registers@), MAX_STEPS as nat);
        while instruction_pointer < self.program.len()
            invariant
                self.program == old(self).program,
                whole == run_of(
                    old(self).program@,
                    start_of(old(self).registers@),
                    MAX_STEPS as nat,
                ),
                whole == run_of(
                    self.program@,
                    run_at(self.registers@, instruction_pointer as int, output@),
                    steps_left as nat,
                ),
            decreases steps_left,
        {
            if steps_left == 0 || instruction_pointer + 1 >= self.program.len() {
                return None;
            }
            let opcode = self.program[instruction_pointer];
            let operand = self.program[instruction_pointer + 1];
            if !self.do_instruction(opcode, operand, &mut output, &mut instruction_pointer) {
                return None;
            }
            steps_left -= 1;
        }
        Some(output)
    }

    /// Whether the program, run with `a` in A and 0 in B and C, puts out
    /// itself.
    pub open spec fn copies_itself(&self, a: u128) -> bool {
        copies(self.program@, a)
    }

    /// Looks for a value of A with which the program puts out itself: three
    /// bits at a time, from the last number of the program to the first, it
    /// keeps the values that put out the end of the program, and tries each
    /// of them with three bits more. The first value that it tries and that
    /// puts out the program is the result; the registers are then as the run
    /// with that value left them.
    pub fn find_reg_a_for_copy(&mut self) -> (found: Option<u128>)
        ensures
            final(self).program == old(self).program,
            found == search(old(self).program@, seq![0u128], 0),
            found matches Some(a) ==> old(self).copies_itself(a) && final(self).registers@ == run_of(
                old(self).program@,
                start_of(seq![a, 0u128, 0u128]),
                MAX_STEPS as nat,
            ).1.registers,
    {
        let ghost program = self.program@;
        let mut bases: Vec<u128> = Vec::new();
        bases.push(0);
        assert(bases@ =~= seq![0u128]);
        let mut i: usize = 0;
        while i < self.program.len()
            invariant
                self.program == old(self).program,
                program == self.program@,
                i <= program.len(),
                search(program, seq![0u128], 0) == search(program, bases@, i as nat),
            decreases self.program.len() - i,
        {
            let ghost all = candidates(bases@);
            let mut found: Vec<u128> = Vec::new();
            let mut b: usize = 0;
            proof {
                assert(bases@.take(0) =~= Seq::<u128>::empty());
                assert(candidates(bases@.take(0)) =~= Seq::<u128>::empty());
            }
            while b < bases.len()
                invariant
                    self.program == old(self).program,
                    program == self.program@,
                    i < program.len(),
                    b <= bases.len(),
                    all == candidates(bases@),
                    search(program, seq![0u128], 0) == search(program, bases@, i as nat),
                    hit(program, candidates(bases@.take(b as int))) is None,
                    found@ == kept(program, candidates(bases@.take(b as int)), i as nat),
                decreases bases.len() - b,
            {
                let base = bases[b];
                let ghost before = candidates(bases@.take(b as int));
                let mut last_3_bits: u128 = 0;
                proof {
                    assert(bases@.take(b + 1).drop_last() =~= bases@.take(b as int));
                    assert(bases@.take(b + 1).last() == base);
                    assert(eight(base).take(0) =~= Seq::<u128>::empty());
                    assert(before + eight(base).take(0) =~= before);
                }
                while last_3_bits < 8
                    invariant
                        self.program == old(self).program,
                        program == self.program@,
                        i < program.len(),
                        b < bases.len(),
                        base == bases[b as int],
                        last_3_bits <= 8,
                        all == candidates(bases@),
                        before == candidates(bases@.take(b as int)),
                        candidates(bases@.take(b + 1)) == before + eight(base),
                        search(program, seq![0u128], 0) == search(program, bases@, i as nat),
                        hit(program, before + tried_of(base, last_3_bits as int)) is None,
                        found@ == kept(program, before + tried_of(base, last_3_bits as int), i as nat),
                    decreases 8 - last_3_bits,
                {
                    if base <= (u128::MAX - 7) / 8 {
                        let reg_a = base * 8 + last_3_bits;
                        let ghost so_far = before + tried_of(base, last_3_bits as int);
                        let ghost longer = before + tried_of(base, last_3_bits + 1);
                        proof {
                            assert(eight(base)[last_3_bits as int] == reg_a);
                            assert(longer =~= so_far.push(reg_a));
                            assert(longer.drop_last() =~= so_far);
                            assert(longer.last() == reg_a);
                        }
                        self.registers = [reg_a, 0, 0];
                        assert(self.registers@ == seq![reg_a, 0u128, 0u128]);
                        let mut keep = false;
                        if let Some(output) = self.execute_program() {
                            if output.len() > i && output.len() <= self.program.len() {
                                if ends_with(&self.program, &output) {
                                    keep = true;
                                    found.push(reg_a);
                                    if output.len() == self.program.len() {
                                        assert(output@ == self.program@);
                                        proof {
                                            assert(copies(program, reg_a));
                                            assert(hit(program, longer) == Some(reg_a));
                                            lemma_candidates_of_first(bases@, b + 1);
                                            let tried = candidates(bases@.take(b + 1));
                                            assert(longer =~= tried.take(longer.len() as int));
                                            lemma_hit_stays(program, tried, longer.len() as int);
                                            assert(tried =~= all.take(tried.len() as int));
                                            lemma_hit_stays(program, all, tried.len() as int);
                                            assert(search(program, bases@, i as nat) == Some(reg_a));
                                        }
                                        return Some(reg_a);
                                    }
                                }
                            }
                        }
                        proof {
                            assert(keep == keeps(program, reg_a, i as nat));
                            assert(!copies(program, reg_a)) by {
                                if copies(program, reg_a) {
                                    assert(program.skip(0) =~= program);
                                }
                            }
                        }
                    } else {
                        assert(tried_of(base, last_3_bits + 1) =~= tried_of(base, last_3_bits as int));
                    }
                    last_3_bits += 1;
                }
                proof {
                    assert(tried_of(base, 8) =~= eight(base));
                }
                b += 1;
            }
            proof {
                assert(bases@.take(b as int) == bases@);
            }
            bases = found;
            i += 1;
        }
        None
    }

    /// Reads a computer: the registers A, B and C stand on the first three
    /// lines and the program on the fifth, after their titles of 12 and of 9
    /// characters.
    pub fn parse(input: &str) -> (computer: Option<Computer>)
        ensures
            computer is Some <==> is_listing(lines_of(input@)),
            computer matches Some(found) ==> {
                let all = lines_of(input@);
                &&& found.registers@ == seq![register_of(all[0]), register_of(all[1]), register_of(
                    all[2],
                )]
                &&& found.program.len() == (all[4].len() - 9 + 1) / 2
                &&& forall|i: int|
                    0 <= i < found.program.len() ==> #[trigger] found.program[i] == all[4][9 + 2 * i]
            },
    {
        let rows = lines(input);
        let ghost all = views(rows@);
        if rows.len() < 5 {
            return None;
        }
        assert(all[0] == rows[0]@ && all[1] == rows[1]@ && all[2] == rows[2]@ && all[4] == rows[4]@);
        let reg_a = match read_register(&rows[0]) {
            None => {
                return None;
            },
            Some(value) => value,
        };
        let reg_b = match read_register(&rows[1]) {
            None => {
                return None;
            },
            Some(value) => value,
        };
        let reg_c = match read_register(&rows[2]) {
            None => {
                return None;
            },
            Some(value) => value,
        };
        if rows[4].len() < 9 {
            return None;
        }
        let code = copy_range(&rows[4], 9, rows[4].len());
        let computer = Computer::new(reg_a, reg_b, reg_c, &code);
        Some(computer)
    }
}

/// Whether a line holds a register: a title of 12 characters, and a number
/// of up to 128 bits.
pub open spec fn holds_register(line: Seq<char>) -> bool {
    &&& line.len() > 12
    &&& all_digits(line.skip(12))
    &&& decimal_value(line.skip(12)) <= u128::MAX
}

/// The number that the line of a register holds.
pub open spec fn register_of(line: Seq<char>) -> u128 {
    decimal_value(line.skip(12)) as u128
}

/// Whether the lines list a computer: three registers, a line that does
/// not count, and a program after a title of 9 characters.
pub open spec fn is_listing(all: Seq<Seq<char>>) -> bool {
    &&& all.len() >= 5
    &&& holds_register(all[0])
    &&& holds_register(all[1])
    &&& holds_register(all[2])
    &&& all[4].len() >= 9
}

/// The number that the line of a register holds.
fn read_register(line: &Vec<char>) -> (value: Option<u128>)
    ensures
        value is Some <==> holds_register(line@),
        value matches Some(v) ==> v == register_of(line@),
{
    if line.len() <= 12 {
        return None;
    }
    let digits = copy_range(line, 12, line.len());
    assert(digits@ == line@.skip(12));
    parse_decimal_wide(&digits)
}

/// The most that a value may be for three bits more to fit in 128 bits.
pub open spec fn base_limit() -> int {
    (u128::MAX - 7) / 8
}

/// The eight values with three bits more than `base`, where they fit.
pub open spec fn eight(base: u128) -> Seq<u128> {
    if base <= base_limit() {
        Seq::new(8, |bits: int| (base * 8 + bits) as u128)
    } else {
        Seq::empty()
    }
}

/// The first `n` of the values with three bits more than `base`.
pub open spec fn tried_of(base: u128, n: int) -> Seq<u128> {
    eight(base).take(if base <= base_limit() {
        n
    } else {
        0
    })
}

/// The values that are tried for the bases, in their order: eight for
/// each.
pub open spec fn candidates(bases: Seq<u128>) -> Seq<u128>
    decreases bases.len(),
{
    if bases.len() == 0 {
        Seq::empty()
    } else {
        candidates(bases.drop_last()) + eight(bases.last())
    }
}

/// Whether the program, run with `a` in A and 0 in B and C, puts out
/// itself.
pub open spec fn copies(program: Seq<char>, a: u128) -> bool {
    let end = run_of(program, start_of(seq![a, 0u128, 0u128]), MAX_STEPS as nat);
    end.0 && end.1.output == program
}

/// Whether the program, run with `a` in A and 0 in B and C, puts out more
/// than `i` numbers, no more than it has itself, and those with which it
/// ends.
pub open spec fn keeps(program: Seq<char>, a: u128, i: nat) -> bool {
    let end = run_of(program, start_of(seq![a, 0u128, 0u128]), MAX_STEPS as nat);
    end.0 && i < end.1.output.len() <= program.len() && program.skip(
        program.len() - end.1.output.len(),
    ) == end.1.output
}

/// The first of the values with which the program puts out itself; nothing
/// where there is none.
pub open spec fn hit(program: Seq<char>, tried: Seq<u128>) -> Option<u128>
    decreases tried.len(),
{
    if tried.len() == 0 {
        None
    } else {
        match hit(program, tried.drop_last()) {
            Some(a) => Some(a),
            None => if copies(program, tried.last()) {
                Some(tried.last())
            } else {
                None
            },
        }
    }
}

/// Those of the values that are kept in round `i`, in their order.
pub open spec fn kept(program: Seq<char>, tried: Seq<u128>, i: nat) -> Seq<u128>
    decreases tried.len(),
{
    if tried.len() == 0 {
        Seq::empty()
    } else if keeps(program, tried.last(), i) {
        kept(program, tried.drop_last(), i).push(tried.last())
    } else {
        kept(program, tried.drop_last(), i)
    }
}

/// What the search finds from round `i` on, with these bases: the first of
/// the values tried in a round with which the program puts out itself; the
/// values that are kept are the bases of the next round. Nothing when
/// there have been as many rounds as the program has numbers.
pub open spec fn search(program: Seq<char>, bases: Seq<u128>, i: nat) -> Option<u128>
    decreases program.len() - i,
{
    if i >= program.len() {
        None
    } else {
        match hit(program, candidates(bases)) {
            Some(a) => Some(a),
            None => search(program, kept(program, candidates(bases), i), i + 1),
        }
    }
}

/// What is found among the first values is found among all.
pub proof fn lemma_hit_stays(program: Seq<char>, tried: Seq<u128>, n: int)
    requires
        0 <= n <= tried.len(),
        hit(program, tried.take(n)) is Some,
    ensures
        hit(program, tried) == hit(program, tried.take(n)),
    decreases tried.len(),
{
    if n == tried.len() {
        assert(tried.take(n) =~= tried);
    } else {
        assert(tried.drop_last().take(n) =~= tried.take(n));
        lemma_hit_stays(program, tried.drop_last(), n);
    }
}

/// The values that are tried for the first bases are the first of those
/// that are tried for all.
pub proof fn lemma_candidates_of_first(bases: Seq<u128>, n: int)
    requires
        0 <= n <= bases.len(),
    ensures
        candidates(bases.take(n)).len() <= candidates(bases).len(),
        candidates(bases).take(candidates(bases.take(n)).len() as int) == candidates(bases.take(n)),
    decreases bases.len(),
{
    if n == bases.len() {
        assert(bases.take(n) =~= bases);
    } else {
        assert(bases.drop_last().take(n) =~= bases.take(n));
        lemma_candidates_of_first(bases.drop_last(), n);
    }
}

/// Whether `whole` ends with `end`.
pub fn ends_with(whole: &Vec<char>, end: &Vec<char>) -> (ends: bool)
    requires
        end.len() <= whole.len(),
    ensures
        ends == (whole@.skip(whole.len() - end.len()) == end@),
{
    let offset = whole.len() - end.len();
    let mut i: usize = 0;
    while i < end.len()
        invariant
            i <= end.len(),
            offset + end.len() == whole.len(),
            forall|j: int| 0 <= j < i ==> whole[offset + j] == end[j],
        decreases end.len() - i,
    {
        if whole[offset + i] != end[i] {
            assert(whole@.skip(offset as int)[i as int] != end@[i as int]);
            return false;
        }
        i += 1;
    }
    assert(whole@.skip(offset as int) == end@);
    true
}

/// The characters with a comma between each two.
pub open spec fn joined(chars: Seq<char>) -> Seq<char>
    decreases chars.len(),
{
    if chars.len() == 0 {
        Seq::empty()
    } else if chars.len() == 1 {
        chars
    } else {
        joined(chars.drop_last()).push(',').push(chars.last())
    }
}

/// The characters with a comma between each two.
pub fn join(chars: Vec<char>) -> (result: Vec<char>)
    ensures
        result@ == joined(chars@),
{
    let mut result: Vec<char> = Vec::new();
    let mut i: usize = 0;
    assert(chars@.take(0) == Seq::<char>::empty());
    while i < chars.len()
        invariant
            i <= chars.len(),
            result@ == joined(chars@.take(i as int)),
        decreases chars.len() - i,
    {
        proof {
            assert(chars@.take(i + 1).drop_last() == chars@.take(i as int));
            assert(chars@.take(i + 1).last() == chars@[i as int]);
            if i == 0 {
                assert(chars@.take(1) == seq![chars@[0]]);
            }
        }
        if i > 0 {
            result.push(',');
        }
        result.push(chars[i]);
        i += 1;
    }
    assert(chars@.take(i as int) == chars@);
    result
}

/// The program that the fifth line of a listing writes: every other
/// character after its first nine.
pub open spec fn program_of(all: Seq<Seq<char>>) -> Seq<char> {
    Seq::new(((all[4].len() - 9 + 1) / 2) as nat, |i: int| all[4][9 + 2 * i])
}

/// The registers that the first three lines of a listing write.
pub open spec fn registers_of(all: Seq<Seq<char>>) -> Seq<u128> {
    seq![register_of(all[0]), register_of(all[1]), register_of(all[2])]
}

/// What the program of the listing that the text writes puts out, with
/// commas, and a value for the register A with which it puts out itself;
/// nothing where the text writes no listing, where the program does not
/// halt in time, or where no such value was found.
pub fn solve(input: &str) -> (result: Option<(Vec<char>, u128)>)
    ensures
        result is Some <==> is_listing(lines_of(input@)) && run_of(
            program_of(lines_of(input@)),
            start_of(registers_of(lines_of(input@))),
            MAX_STEPS as nat,
        ).0 && search(program_of(lines_of(input@)), seq![0u128], 0) is Some,
        result matches Some(found) ==> {
            let all = lines_of(input@);
            let run = run_of(program_of(all), start_of(registers_of(all)), MAX_STEPS as nat);
            &&& found.0@ == joined(run.1.output)
            &&& Some(found.1) == search(program_of(all), seq![0u128], 0)
            &&& copies(program_of(all), found.1)
        },
{
    let mut computer = match Computer::parse(input) {
        None => {
            return None;
        },
        Some(computer) => computer,
    };
    let ghost all = lines_of(input@);
    let ghost program = computer.program@;
    assert(program =~= program_of(all));
    let part1 = match computer.execute_program() {
        None => {
            return None;
        },
        Some(output) => output,
    };
    let ghost put = part1@;
    match computer.find_reg_a_for_copy() {
        None => None,
        Some(part2) => {
            let result = Some((join(part1), part2));
            proof {
                assert(result->Some_0.0@ == joined(put));
                assert(copies(program_of(all), result->Some_0.1));
            }
            result
        },
    }
}

} // verus!
