//! An interpreter for brainfuck programs.
//!
//! The machine runs one instruction at a time and does no input or output
//! itself: a step says what it needs or gives, and the caller supplies it.
//! [`interpret`] is such a caller for input and output held in memory.

use vstd::prelude::*;

verus! {

/// Why a program cannot go on.
#[derive(Copy, Clone, Eq, PartialEq, Structural, Debug)]
pub enum Fault {
    /// `<` at the first cell, or `>` at the last cell that can be addressed.
    BadPointer,
    /// `[` at a zero cell without a `]` that closes it.
    MissingCloseBrackets,
    /// `]` at a non-zero cell without a `[` that opens it.
    MissingOpenBrackets,
    /// `,` when the input is used up.
    InputExhausted,
    /// The number of steps that the caller allowed is used up.
    StepLimit,
}

/// What one step of the machine did.
#[derive(Copy, Clone, Eq, PartialEq, Structural, Debug)]
pub enum Step {
    /// An instruction was carried out that needs nothing of the caller.
    Continue,
    /// `.` was carried out: the caller has to write the byte.
    Output(u8),
    /// The next instruction is `,` and no byte was supplied; nothing was
    /// done.
    NeedsInput,
    /// The end of the program is reached; nothing was done.
    Halted,
}

/// A machine with its tape.
pub struct Interpreter {
    pc: usize,
    ptr: usize,
    data: Vec<u8>,
}

/// The position of the `]` that closes a `[`, looked for behind `pc` with
/// `depth` brackets open; none if the program ends before.
pub open spec fn seek_close(program: Seq<u8>, pc: int, depth: nat) -> Option<int>
    decreases program.len() - pc,
{
    if pc + 1 >= program.len() || pc < -1 {
        None
    } else {
        let c = program[pc + 1];
        if c == 0x5Bu8 {
            seek_close(program, pc + 1, depth + 1)
        } else if c == 0x5Du8 {
            if depth <= 1 {
                Some(pc + 1)
            } else {
                seek_close(program, pc + 1, (depth - 1) as nat)
            }
        } else {
            seek_close(program, pc + 1, depth)
        }
    }
}

/// The position of the `[` that opens a `]`, looked for before `pc` with
/// `depth` brackets to open; none if the program begins before.
pub open spec fn seek_open(program: Seq<u8>, pc: int, depth: nat) -> Option<int>
    decreases pc,
{
    if pc <= 0 || pc > program.len() {
        None
    } else {
        let c = program[pc - 1];
        if c == 0x5Du8 {
            seek_open(program, pc - 1, depth + 1)
        } else if c == 0x5Bu8 {
            if depth <= 1 {
                Some(pc - 1)
            } else {
                seek_open(program, pc - 1, (depth - 1) as nat)
            }
        } else {
            seek_open(program, pc - 1, depth)
        }
    }
}

/// The state of a machine: the place in the program, the place on the tape
/// and the tape, which gives the byte of every cell.
pub struct Machine {
    pub pc: nat,
    pub ptr: nat,
    pub tape: Map<nat, u8>,
}

/// The tape on which every cell holds 0.
pub open spec fn blank() -> Map<nat, u8> {
    Map::total(|i: nat| 0u8)
}

impl Machine {
    /// The byte in cell `i`.
    pub open spec fn cell(self, i: nat) -> u8 {
        self.tape[i]
    }

    /// The machine with `value` in the cell it points at, one instruction
    /// further.
    pub open spec fn store(self, value: u8) -> Machine {
        Machine { pc: self.pc + 1, ptr: self.ptr, tape: self.tape.insert(self.ptr, value) }
    }

    /// The machine at place `pc` of the program.
    pub open spec fn at(self, pc: nat) -> Machine {
        Machine { pc, ptr: self.ptr, tape: self.tape }
    }

    /// The machine pointing at cell `ptr`, one instruction further.
    pub open spec fn moved(self, ptr: nat) -> Machine {
        Machine { pc: self.pc + 1, ptr, tape: self.tape }
    }
}

/// What a step makes of a machine: the machine after it and what it did.
/// After a fault the machine is not meant to be used again.
pub open spec fn step(program: Seq<u8>, m: Machine, input: Option<u8>) -> (Machine, Result<Step, Fault>) {
    if m.pc >= program.len() {
        (m, Ok(Step::Halted))
    } else {
        let c = program[m.pc as int];
        let here = m.cell(m.ptr);
        if c == 0x3Eu8 {
            if m.ptr >= usize::MAX {
                (m, Err(Fault::BadPointer))
            } else {
                (m.moved(m.ptr + 1), Ok(Step::Continue))
            }
        } else if c == 0x3Cu8 {
            if m.ptr == 0 {
                (m, Err(Fault::BadPointer))
            } else {
                (m.moved((m.ptr - 1) as nat), Ok(Step::Continue))
            }
        } else if c == 0x2Bu8 {
            (m.store(if here == 255 { 0u8 } else { (here + 1) as u8 }), Ok(Step::Continue))
        } else if c == 0x2Du8 {
            (m.store(if here == 0 { 255u8 } else { (here - 1) as u8 }), Ok(Step::Continue))
        } else if c == 0x2Eu8 {
            (m.at(m.pc + 1), Ok(Step::Output(here)))
        } else if c == 0x2Cu8 {
            match input {
                Some(byte) => (m.store(byte), Ok(Step::Continue)),
                None => (m, Ok(Step::NeedsInput)),
            }
        } else if c == 0x5Bu8 && here == 0 {
            match seek_close(program, m.pc as int, 1) {
                Some(close) => (m.at((close + 1) as nat), Ok(Step::Continue)),
                None => (m, Err(Fault::MissingCloseBrackets)),
            }
        } else if c == 0x5Du8 && here != 0 {
            match seek_open(program, m.pc as int, 1) {
                Some(open) => (m.at((open + 1) as nat), Ok(Step::Continue)),
                None => (m, Err(Fault::MissingOpenBrackets)),
            }
        } else {
            (m.at(m.pc + 1), Ok(Step::Continue))
        }
    }
}

/// What running a program for at most `steps` steps gives: how it ended
/// and all that it wrote. The program takes its input from the head of
/// `input` and runs until its end, a fault or the last step allowed.
pub open spec fn run(program: Seq<u8>, m: Machine, input: Seq<u8>, output: Seq<u8>, steps: nat) -> (
    Result<(), Fault>,
    Seq<u8>,
)
    decreases steps,
{
    if m.pc >= program.len() {
        (Ok(()), output)
    } else if steps == 0 {
        (Err(Fault::StepLimit), output)
    } else if program[m.pc as int] == 0x2Cu8 {
        if input.len() == 0 {
            (Err(Fault::InputExhausted), output)
        } else {
            run(
                program,
                step(program, m, Some(input[0])).0,
                input.drop_first(),
                output,
                (steps - 1) as nat,
            )
        }
    } else {
        match step(program, m, None).1 {
            Ok(Step::Output(byte)) => run(
                program,
                step(program, m, None).0,
                input,
                output.push(byte),
                (steps - 1) as nat,
            ),
            Ok(_) => run(program, step(program, m, None).0, input, output, (steps - 1) as nat),
            Err(fault) => (Err(fault), output),
        }
    }
}

/// The text that tells of a fault.
pub open spec fn message_of(fault: Fault) -> Seq<char> {
    match fault {
        Fault::BadPointer => "bad pointer"@,
        Fault::MissingCloseBrackets => "missing close brackets"@,
        Fault::MissingOpenBrackets => "missing open brackets"@,
        Fault::InputExhausted => "failed to fill whole buffer"@,
        Fault::StepLimit => "step limit reached"@,
    }
}

impl Fault {
    /// The text that tells of the fault.
    pub fn message(&self) -> (text: String)
        ensures
            text@ == message_of(*self),
    {
        match self {
            Fault::BadPointer => "bad pointer".to_string(),
            Fault::MissingCloseBrackets => "missing close brackets".to_string(),
            Fault::MissingOpenBrackets => "missing open brackets".to_string(),
            Fault::InputExhausted => "failed to fill whole buffer".to_string(),
            Fault::StepLimit => "step limit reached".to_string(),
        }
    }
}

impl View for Interpreter {
    type V = Machine;

    closed spec fn view(&self) -> Machine {
        Machine {
            pc: self.pc as nat,
            ptr: self.ptr as nat,
            tape: Map::total(
                |i: nat|
                    if i < self.data@.len() {
                        self.data@[i as int]
                    } else {
                        0u8
                    },
            ),
        }
    }
}

impl Interpreter {
    /// A machine at the start of a program, with a tape of zeros.
    pub fn new() -> (interpreter: Interpreter)
        ensures
            interpreter@ == (Machine { pc: 0, ptr: 0, tape: blank() }),
    {
        let interpreter = Interpreter { pc: 0, ptr: 0, data: Vec::with_capacity(30000) };
        assert(interpreter@.tape =~= blank());
        interpreter
    }

    /// The byte in the cell that the machine points at.
    fn current(&self) -> (byte: u8)
        ensures
            byte == self@.cell(self@.ptr),
    {
        if self.ptr < self.data.len() {
            self.data[self.ptr]
        } else {
            0
        }
    }

    /// Puts `value` into the cell that the machine points at and goes on to
    /// the next instruction.
    fn store(&mut self, value: u8)
        requires
            old(self).pc < usize::MAX,
        ensures
            final(self)@ == old(self)@.store(value),
    {
        while self.data.len() <= self.ptr
            invariant
                self.pc == old(self).pc,
                self.ptr == old(self).ptr,
                old(self).data@.len() <= self.data@.len(),
                forall|i: int| 0 <= i < old(self).data@.len() ==> self.data@[i] == old(self).data@[i],
                forall|i: int| old(self).data@.len() <= i < self.data@.len() ==> self.data@[i] == 0,
            decreases self.ptr + 1 - self.data@.len(),
        {
            self.data.push(0);
        }
        let mut data: Vec<u8> = Vec::new();
        core::mem::swap(&mut self.data, &mut data);
        data.set(self.ptr, value);
        core::mem::swap(&mut self.data, &mut data);
        self.pc += 1;
        assert(self@.tape =~= old(self)@.store(value).tape);
    }

    /// Carries out the instruction at hand. `input` is the byte for a `,`.
    pub fn step(&mut self, program: &[u8], input: Option<u8>) -> (result: Result<Step, Fault>)
        ensures
            result == step(program@, old(self)@, input).1,
            final(self)@ == step(program@, old(self)@, input).0,
    {
        if self.pc >= program.len() {
            return Ok(Step::Halted);
        }
        let c = program[self.pc];
        if c == 0x3E {
            if self.ptr == usize::MAX {
                return Err(Fault::BadPointer);
            }
            self.ptr += 1;
            self.pc += 1;
            Ok(Step::Continue)
        } else if c == 0x3C {
            if self.ptr == 0 {
                return Err(Fault::BadPointer);
            }
            self.ptr -= 1;
            self.pc += 1;
            Ok(Step::Continue)
        } else if c == 0x2B {
            let value = self.current().wrapping_add(1);
            self.store(value);
            Ok(Step::Continue)
        } else if c == 0x2D {
            let value = self.current().wrapping_sub(1);
            self.store(value);
            Ok(Step::Continue)
        } else if c == 0x2E {
            let byte = self.current();
            self.pc += 1;
            Ok(Step::Output(byte))
        } else if c == 0x2C {
            match input {
                Some(byte) => {
                    self.store(byte);
                    Ok(Step::Continue)
                },
                None => Ok(Step::NeedsInput),
            }
        } else if c == 0x5B && self.current() == 0 {
            let mut n: usize = 1;
            let mut pc = self.pc;
            while n > 0
                invariant
                    *self == *old(self),
                    program@[self.pc as int] == 0x5Bu8,
                    self@.cell(self@.ptr) == 0,
                    self.pc < program@.len(),
                    self.pc <= pc < program@.len(),
                    program@.len() <= usize::MAX,
                    n <= pc - self.pc + 1,
                    n > 0 ==> seek_close(program@, pc as int, n as nat) == seek_close(
                        program@,
                        self.pc as int,
                        1,
                    ),
                    n == 0 ==> seek_close(program@, self.pc as int, 1) == Some(pc as int),
                decreases program@.len() - pc, n,
            {
                pc += 1;
                if pc == program.len() {
                    return Err(Fault::MissingCloseBrackets);
                }
                if program[pc] == 0x5B {
                    n += 1;
                } else if program[pc] == 0x5D {
                    n -= 1;
                }
            }
            self.pc = pc + 1;
            Ok(Step::Continue)
        } else if c == 0x5D && self.current() != 0 {
            let mut n: usize = 1;
            let mut pc = self.pc;
            while n > 0
                invariant
                    *self == *old(self),
                    program@[self.pc as int] == 0x5Du8,
                    self@.cell(self@.ptr) != 0,
                    self.pc < program@.len(),
                    pc <= self.pc,
                    n <= self.pc - pc + 1,
                    n > 0 ==> seek_open(program@, pc as int, n as nat) == seek_open(
                        program@,
                        self.pc as int,
                        1,
                    ),
                    n == 0 ==> seek_open(program@, self.pc as int, 1) == Some(pc as int),
                decreases pc, n,
            {
                if pc == 0 {
                    return Err(Fault::MissingOpenBrackets);
                }
                pc -= 1;
                if program[pc] == 0x5D {
                    n += 1;
                } else if program[pc] == 0x5B {
                    n -= 1;
                }
            }
            self.pc = pc + 1;
            Ok(Step::Continue)
        } else {
            self.pc += 1;
            Ok(Step::Continue)
        }
    }

    /// Whether the end of the program is reached.
    pub fn halted(&self, program: &[u8]) -> (halted: bool)
        ensures
            halted == (self@.pc >= program@.len()),
    {
        self.pc >= program.len()
    }

    /// Runs `program` from the state that the machine is in, for at most
    /// `max_steps` steps. It takes its input from the head of `input` and
    /// appends what it writes to `output`.
    pub fn interpret(
        &mut self,
        program: &[u8],
        input: &[u8],
        output: &mut Vec<u8>,
        max_steps: u64,
    ) -> (result: Result<(), String>)
        ensures
            final(output)@ == run(
                program@,
                old(self)@,
                input@,
                old(output)@,
                max_steps as nat,
            ).1,
            match run(program@, old(self)@, input@, old(output)@, max_steps as nat).0 {
                Ok(()) => result is Ok,
                Err(fault) => result matches Err(text) && text@ == message_of(fault),
            },
    {
        let mut used: usize = 0;
        let mut steps = max_steps;
        let ghost whole = run(program@, old(self)@, input@, old(output)@, max_steps as nat);
        assert(input@.skip(0) =~= input@);
        loop
            invariant
                used <= input@.len(),
                whole == run(program@, old(self)@, input@, old(output)@, max_steps as nat),
                run(program@, self@, input@.skip(used as int), output@, steps as nat) == whole,
            decreases steps,
        {
            if self.halted(program) {
                return Ok(());
            }
            if steps == 0 {
                return Err(Fault::StepLimit.message());
            }
            match self.step(program, None) {
                Ok(Step::NeedsInput) => {
                    if used == input.len() {
                        return Err(Fault::InputExhausted.message());
                    }
                    let byte = input[used];
                    proof {
                        assert(input@.skip(used as int)[0] == byte);
                        assert(input@.skip(used as int).drop_first() =~= input@.skip(used + 1));
                    }
                    used += 1;
                    match self.step(program, Some(byte)) {
                        Ok(_) => {},
                        Err(fault) => {
                            return Err(fault.message());
                        },
                    }
                },
                Ok(Step::Output(byte)) => {
                    output.push(byte);
                },
                Ok(_) => {},
                Err(fault) => {
                    return Err(fault.message());
                },
            };
            steps -= 1;
        }
    }
}

/// Runs `program` from its start on a tape of zeros, for at most
/// `max_steps` steps. It takes its input from the head of `input` and
/// appends what it writes to `output`.
pub fn interpret(program: &[u8], input: &[u8], output: &mut Vec<u8>, max_steps: u64) -> (result:
    Result<(), String>)
    ensures
        final(output)@ == run(
            program@,
            Machine { pc: 0, ptr: 0, tape: blank() },
            input@,
            old(output)@,
            max_steps as nat,
        ).1,
        match run(
            program@,
            Machine { pc: 0, ptr: 0, tape: blank() },
            input@,
            old(output)@,
            max_steps as nat,
        ).0 {
            Ok(()) => result is Ok,
            Err(fault) => result matches Err(text) && text@ == message_of(fault),
        },
{
    let mut machine = Interpreter::new();
    machine.interpret(program, input, output, max_steps)
}

} // verus!
