use vstd::prelude::*;

verus! {

/// One instruction of a program.
///
/// The target of a branch is an absolute index into the program that holds it.
#[derive(Clone, Copy, Debug, PartialEq, Eq, Structural)]
pub enum Instruction {
    /// Move the tape pointer one cell to the right.
    MoveRight,
    /// Move the tape pointer one cell to the left.
    MoveLeft,
    /// Add one to the current cell, wrapping from 255 to 0.
    Increment,
    /// Subtract one from the current cell, wrapping from 0 to 255.
    Decrement,
    /// Emit the current cell as one byte of output.
    Write,
    /// Store one byte of input in the current cell.
    Read,
    /// Continue after the target if the current cell is zero.
    JumpIfZero(usize),
    /// Continue after the target if the current cell is not zero.
    JumpUnlessZero(usize),
}

/// Number of cells on the tape of a fresh interpreter.
pub const INITIAL_TAPE_LEN: usize = 30_000;

/// Every branch of `program` has a target below `bound`.
pub open spec fn targets_below(program: Seq<Instruction>, bound: int) -> bool {
    forall|i: int|
        0 <= i < program.len() ==> match #[trigger] program[i] {
            Instruction::JumpIfZero(target) => target < bound,
            Instruction::JumpUnlessZero(target) => target < bound,
            _ => true,
        }
}

/// The state of a run: a program, a tape, and a position in each.
pub struct Machine {
    pub program: Seq<Instruction>,
    pub pc: nat,
    pub tape: Seq<u8>,
    pub pointer: nat,
}

impl Machine {
    /// The state in which every run of `program` starts: at its first
    /// instruction, on the leftmost cell of a tape of zeros.
    pub open spec fn start(program: Seq<Instruction>) -> Machine {
        Machine {
            program,
            pc: 0,
            tape: Seq::new(INITIAL_TAPE_LEN as nat, |i: int| 0u8),
            pointer: 0,
        }
    }

    /// The tape pointer addresses a cell of the tape, which is therefore not
    /// empty.
    pub open spec fn wf(self) -> bool {
        self.pointer < self.tape.len()
    }

    /// The run is over: the program counter has left the program.
    pub open spec fn halted(self) -> bool {
        self.pc >= self.program.len()
    }

    /// The instruction that is dispatched next.
    pub open spec fn current(self) -> Instruction
        recommends
            !self.halted(),
    {
        self.program[self.pc as int]
    }

    /// The cell under the tape pointer.
    pub open spec fn cell(self) -> u8
        recommends
            self.wf(),
    {
        self.tape[self.pointer as int]
    }

    /// The cell at distance `offset` from the tape pointer. A place beyond
    /// either end of the tape counts as zero: that is what a cell holds when
    /// the tape grows to it.
    pub open spec fn cell_at(self, offset: int) -> u8 {
        let index = self.pointer + offset;
        if 0 <= index < self.tape.len() {
            self.tape[index]
        } else {
            0
        }
    }

    /// This state with `value` stored in the cell under the tape pointer.
    pub open spec fn with_cell(self, value: u8) -> Machine {
        Machine { tape: self.tape.update(self.pointer as int, value), ..self }
    }

    /// The effect of the current instruction alone, before the program
    /// counter is incremented. `input` is what the input source yielded and
    /// matters to `Read` only; `None` stands for a failed or exhausted source
    /// and stores zero.
    pub open spec fn dispatch(self, input: Option<u8>) -> Machine
        recommends
            self.wf(),
            !self.halted(),
    {
        match self.current() {
            Instruction::MoveRight => if self.pointer + 1 >= self.tape.len() {
                Machine { pointer: self.pointer + 1, tape: self.tape.push(0u8), ..self }
            } else {
                Machine { pointer: self.pointer + 1, ..self }
            },
            Instruction::MoveLeft => if self.pointer > 0 {
                Machine { pointer: (self.pointer - 1) as nat, ..self }
            } else {
                Machine { tape: self.tape.insert(0, 0u8), ..self }
            },
            Instruction::Increment => self.with_cell(((self.cell() + 1) % 256) as u8),
            Instruction::Decrement => self.with_cell(((self.cell() - 1) % 256) as u8),
            Instruction::Write => self,
            Instruction::Read => self.with_cell(
                match input {
                    Some(byte) => byte,
                    None => 0u8,
                },
            ),
            Instruction::JumpIfZero(target) => if self.cell() == 0 {
                Machine { pc: target as nat, ..self }
            } else {
                self
            },
            Instruction::JumpUnlessZero(target) => if self.cell() != 0 {
                Machine { pc: target as nat, ..self }
            } else {
                self
            },
        }
    }

    /// One turn of the dispatch loop: the current instruction takes effect,
    /// then the program counter goes up by one, after a branch too.
    pub open spec fn step(self, input: Option<u8>) -> Machine
        recommends
            self.wf(),
            !self.halted(),
    {
        let after = self.dispatch(input);
        Machine { pc: after.pc + 1, ..after }
    }

    /// The byte that the next step emits, if it emits one.
    pub open spec fn output(self) -> Option<u8>
        recommends
            self.wf(),
            !self.halted(),
    {
        if self.current() is Write {
            Some(self.cell())
        } else {
            None
        }
    }

    /// The next step consumes a byte of input.
    pub open spec fn awaits_input(self) -> bool {
        !self.halted() && self.current() is Read
    }
}

/// A run against a given input: the machine, the number of bytes of the
/// input that it has consumed, and the bytes that it has emitted, in order.
pub struct Run {
    pub machine: Machine,
    pub consumed: nat,
    pub emitted: Seq<u8>,
}

impl Run {
    /// The run of `machine` before its first step.
    pub open spec fn start(machine: Machine) -> Run {
        Run { machine, consumed: 0, emitted: Seq::empty() }
    }

    /// What the input yields next: its first byte that is not consumed yet,
    /// or `None` once all of it is consumed.
    pub open spec fn next_input(self, input: Seq<u8>) -> Option<u8> {
        if self.consumed < input.len() {
            Some(input[self.consumed as int])
        } else {
            None
        }
    }

    /// One step of the run. A `Read` consumes the byte that the input
    /// yields, if it yields one; a `Write` adds the byte that it emits to
    /// those emitted before.
    pub open spec fn step(self, input: Seq<u8>) -> Run
        recommends
            self.machine.wf(),
            !self.machine.halted(),
    {
        Run {
            machine: self.machine.step(self.next_input(input)),
            consumed: if self.machine.awaits_input() && self.consumed < input.len() {
                self.consumed + 1
            } else {
                self.consumed
            },
            emitted: match self.machine.output() {
                Some(byte) => self.emitted.push(byte),
                None => self.emitted,
            },
        }
    }

    /// The run `n` steps later.
    pub open spec fn after(self, input: Seq<u8>, n: nat) -> Run
        decreases n,
    {
        if n == 0 {
            self
        } else {
            self.after(input, (n - 1) as nat).step(input)
        }
    }
}

/// A step keeps the tape pointer on the tape.
pub proof fn lemma_step_keeps_pointer_on_tape(machine: Machine, input: Option<u8>)
    requires
        machine.wf(),
        !machine.halted(),
    ensures
        machine.step(input).wf(),
        machine.step(input).program == machine.program,
        machine.step(input).tape.len() >= machine.tape.len(),
{
}

/// Throughout a run the tape pointer stays on the tape and the program stays
/// what it was. No more of the input is consumed than there is, and what was
/// emitted once stays emitted.
pub proof fn lemma_run_keeps_pointer_on_tape(run: Run, input: Seq<u8>, n: nat)
    requires
        run.machine.wf(),
        run.consumed <= input.len(),
        forall|k: nat| k < n ==> !(#[trigger] run.after(input, k)).machine.halted(),
    ensures
        run.after(input, n).machine.wf(),
        run.after(input, n).machine.program == run.machine.program,
        run.consumed <= run.after(input, n).consumed <= input.len(),
        run.emitted.is_prefix_of(run.after(input, n).emitted),
    decreases n,
{
    if n > 0 {
        let before = run.after(input, (n - 1) as nat);
        lemma_run_keeps_pointer_on_tape(run, input, (n - 1) as nat);
        assert(!before.machine.halted());
    }
}

/// Moving left from the leftmost cell grows the tape by one zero cell at its
/// left end. The pointer stays 0 and so addresses the new cell; every old
/// cell is found one place further right.
pub proof fn lemma_move_left_at_left_end(machine: Machine, input: Option<u8>)
    requires
        machine.wf(),
        !machine.halted(),
        machine.current() == Instruction::MoveLeft,
        machine.pointer == 0,
    ensures
        machine.step(input).pointer == 0,
        machine.step(input).cell() == 0,
        machine.step(input).tape == seq![0u8] + machine.tape,
        machine.step(input).tape.len() == machine.tape.len() + 1,
        machine.step(input).pc == machine.pc + 1,
{
    assert(machine.tape.insert(0, 0u8) =~= seq![0u8] + machine.tape);
}

/// Whether every branch target of `instructions` is small enough for the
/// program counter to be incremented after the branch is taken.
pub fn targets_fit(instructions: &Vec<Instruction>) -> (fit: bool)
    ensures
        fit == targets_below(instructions@, usize::MAX as int),
{
    let mut i: usize = 0;
    while i < instructions.len()
        invariant
            i <= instructions.len(),
            targets_below(instructions@.take(i as int), usize::MAX as int),
        decreases instructions.len() - i,
    {
        let fits: bool = match instructions[i] {
            Instruction::JumpIfZero(target) => target < usize::MAX,
            Instruction::JumpUnlessZero(target) => target < usize::MAX,
            _ => true,
        };
        if !fits {
            return false;
        }
        assert forall|k: int| 0 <= k < i + 1 implies match #[trigger] instructions@.take(i + 1)[k] {
            Instruction::JumpIfZero(target) => target < usize::MAX,
            Instruction::JumpUnlessZero(target) => target < usize::MAX,
            _ => true,
        } by {
            if k < i {
                assert(instructions@.take(i as int)[k] == instructions@[k]);
            }
        }
        i = i + 1;
    }
    assert(instructions@.take(i as int) =~= instructions@);
    true
}

/// What a call of [`Interpreter::run`] did.
pub struct Outcome {
    /// The number of instructions that were dispatched.
    pub steps: usize,
    /// The number of bytes that were taken from the front of the input.
    pub consumed: usize,
    /// The bytes that were emitted, in order.
    pub emitted: Vec<u8>,
}

/// An executor for one program. It owns the program and the tape.
///
/// The interpreter never reads or writes a stream. [`Interpreter::run`]
/// works on input and output in memory. Whoever holds streams drives the
/// interpreter step by step: asks [`Interpreter::awaits_input`] before a
/// step, hands the byte that was read to [`Interpreter::step`], and emits the
/// byte that the step returns.
pub struct Interpreter {
    pc: usize,
    pointer: usize,
    tape: Vec<u8>,
    instructions: Vec<Instruction>,
}

impl View for Interpreter {
    type V = Machine;

    closed spec fn view(&self) -> Machine {
        Machine {
            program: self.instructions@,
            pc: self.pc as nat,
            tape: self.tape@,
            pointer: self.pointer as nat,
        }
    }
}

impl Interpreter {
    /// The invariant of an interpreter: its pointer is on its tape, and no
    /// branch target is `usize::MAX`.
    pub open spec fn wf(&self) -> bool {
        &&& self@.wf()
        &&& targets_below(self@.program, usize::MAX as int)
    }

    /// An interpreter at the start of `instructions`, with a tape of
    /// `INITIAL_TAPE_LEN` zero cells.
    pub fn new(instructions: Vec<Instruction>) -> (interpreter: Self)
        requires
            targets_below(instructions@, usize::MAX as int),
        ensures
            interpreter.wf(),
            interpreter@ == Machine::start(instructions@),
    {
        let tape: Vec<u8> = vec![0u8; INITIAL_TAPE_LEN];
        assert(tape@ =~= Seq::new(INITIAL_TAPE_LEN as nat, |i: int| 0u8));
        Interpreter { pc: 0, pointer: 0, tape, instructions }
    }

    /// Dispatches one instruction and increments the program counter.
    ///
    /// `input` is the byte that the input source yielded, or `None` if it
    /// failed or is exhausted; only `Read` looks at it. The result is the byte
    /// to emit, which only `Write` produces.
    pub fn step(&mut self, input: Option<u8>) -> (output: Option<u8>)
        requires
            old(self).wf(),
            !old(self)@.halted(),
        ensures
            final(self).wf(),
            final(self)@ == old(self)@.step(input),
            output == old(self)@.output(),
    {
        proof {
            // Both lengths are those of vectors, so a position in either can
            // be incremented.
            assert(self.tape.len() == self.tape@.len());
            assert(self.instructions.len() == self.instructions@.len());
        }
        let mut output: Option<u8> = None;
        let instruction: Instruction = self.instructions[self.pc];
        match instruction {
            Instruction::MoveRight => {
                self.pointer = self.pointer + 1;
                if self.pointer >= self.tape.len() {
                    self.tape.push(0);
                }
            },
            Instruction::MoveLeft => {
                if self.pointer > 0 {
                    self.pointer = self.pointer - 1;
                } else {
                    self.tape.insert(0, 0);
                }
            },
            Instruction::Increment => {
                let cell: u8 = self.tape[self.pointer];
                self.tape.set(self.pointer, cell.wrapping_add(1));
            },
            Instruction::Decrement => {
                let cell: u8 = self.tape[self.pointer];
                self.tape.set(self.pointer, cell.wrapping_sub(1));
            },
            Instruction::Write => {
                output = Some(self.tape[self.pointer]);
            },
            Instruction::Read => {
                let byte: u8 = match input {
                    Some(byte) => byte,
                    None => 0,
                };
                self.tape.set(self.pointer, byte);
            },
            Instruction::JumpIfZero(target) => {
                if self.tape[self.pointer] == 0 {
                    self.pc = target;
                }
            },
            Instruction::JumpUnlessZero(target) => {
                if self.tape[self.pointer] != 0 {
                    self.pc = target;
                }
            },
        }
        self.pc = self.pc + 1;
        output
    }

    /// Runs the program against `input` until it halts or `fuel` steps were
    /// made.
    ///
    /// Each `Read` takes the next byte of `input`, or stores zero once
    /// `input` is used up. Each `Write` adds one byte to what is emitted.
    pub fn run(&mut self, input: &[u8], fuel: usize) -> (outcome: Outcome)
        requires
            old(self).wf(),
        ensures
            final(self).wf(),
            outcome.steps <= fuel,
            outcome.steps < fuel ==> final(self)@.halted(),
            forall|k: nat|
                k < outcome.steps ==> !(#[trigger] Run::start(old(self)@).after(
                    input@,
                    k,
                )).machine.halted(),
            ({
                let run = Run::start(old(self)@).after(input@, outcome.steps as nat);
                &&& final(self)@ == run.machine
                &&& outcome.consumed == run.consumed
                &&& outcome.emitted@ == run.emitted
            }),
    {
        let mut steps: usize = 0;
        let mut consumed: usize = 0;
        let mut emitted: Vec<u8> = Vec::new();
        while steps < fuel && !self.is_halted()
            invariant
                self.wf(),
                steps <= fuel,
                consumed <= input@.len(),
                forall|k: nat|
                    k < steps ==> !(#[trigger] Run::start(old(self)@).after(
                        input@,
                        k,
                    )).machine.halted(),
                self@ == Run::start(old(self)@).after(input@, steps as nat).machine,
                consumed == Run::start(old(self)@).after(input@, steps as nat).consumed,
                emitted@ == Run::start(old(self)@).after(input@, steps as nat).emitted,
            decreases fuel - steps,
        {
            let available: bool = consumed < input.len();
            let reads: bool = self.awaits_input();
            let byte: Option<u8> = if available {
                Some(input[consumed])
            } else {
                None
            };
            match self.step(byte) {
                Some(byte) => emitted.push(byte),
                None => {},
            }
            if reads && available {
                consumed = consumed + 1;
            }
            steps = steps + 1;
        }
        Outcome { steps, consumed, emitted }
    }

    /// The index of the instruction that is dispatched next.
    pub fn pc(&self) -> (pc: usize)
        ensures
            pc == self@.pc,
    {
        self.pc
    }

    /// The index of the cell under the tape pointer.
    pub fn pointer(&self) -> (pointer: usize)
        ensures
            pointer == self@.pointer,
    {
        self.pointer
    }

    /// The cells of the tape, from its left end to its right end.
    pub fn tape(&self) -> (tape: &Vec<u8>)
        ensures
            tape@ == self@.tape,
    {
        &self.tape
    }

    /// Whether the run is over.
    pub fn is_halted(&self) -> (halted: bool)
        ensures
            halted == self@.halted(),
    {
        self.pc >= self.instructions.len()
    }

    /// Whether the next step is a `Read`, so that a byte of input is due.
    pub fn awaits_input(&self) -> (awaits: bool)
        ensures
            awaits == self@.awaits_input(),
    {
        self.pc < self.instructions.len() && match self.instructions[self.pc] {
            Instruction::Read => true,
            _ => false,
        }
    }
}

} // verus!
