//! Execution engine: walks a resolved instruction stream against a byte tape.
//!
//! The machine is specified as a deterministic small-step transition function
//! over a ghost machine state; the engine is proved to follow it step by
//! step. Input is consumed from an internal line buffer and output collects
//! in a byte buffer, so the engine itself performs no I/O: the caller refills
//! the one and drains the other.

use crate::parser::Token;
use vstd::prelude::*;

verus! {

/// A fault of the execution engine. The overflow and underflow variants carry
/// the program-counter position of the instruction at fault and arise only
/// when wrap-around arithmetic is disabled.
#[derive(Debug, Clone, Copy, PartialEq, Eq, Structural)]
pub enum InterpreterError {
    IntegerOverflow(usize),
    IntegerUnderflow(usize),
    OutOfBounds,
}

/// Why a bounded run stopped: the program ran to its end, the engine needs
/// another line of input, or the step budget ran out first.
#[derive(Debug, Clone, Copy, PartialEq, Eq, Structural)]
pub enum RunStatus {
    Running,
    NeedsInput,
    Halted,
}

/// Ghost view of the engine: tape contents, tape pointer, program counter,
/// pending input (consumed from the back), and output so far.
#[verifier::ext_equal]
pub struct MachineState {
    pub tape: Seq<u8>,
    pub index: int,
    pub pc: int,
    pub input: Seq<u8>,
    pub output: Seq<u8>,
}

/// Outcome of one specification step.
pub enum Step {
    Next(MachineState),
    NeedInput,
    Fault(InterpreterError),
    Halted,
}

/// Every loop marker's target is an index of the stream. Streams built by the
/// front end always satisfy this; it is what keeps jumps in bounds.
pub open spec fn targets_resolved(p: Seq<Token>) -> bool {
    forall|i: int|
        0 <= i < p.len() ==> match #[trigger] p[i] {
            Token::Loop(j) => j < p.len(),
            Token::Break(j) => j < p.len(),
            _ => true,
        }
}

/// The single transition of the execution engine: what one instruction does
/// to the machine state, or how it fails.
pub open spec fn spec_step(prog: Seq<Token>, wrapping: bool, s: MachineState) -> Step {
    if !(0 <= s.pc < prog.len()) {
        Step::Halted
    } else {
        match prog[s.pc] {
            Token::Right(n) => if s.index + n < s.tape.len() {
                Step::Next(MachineState { index: s.index + n, pc: s.pc + 1, ..s })
            } else {
                Step::Fault(InterpreterError::OutOfBounds)
            },
            Token::Left(n) => if s.index - n >= 0 {
                Step::Next(MachineState { index: s.index - n, pc: s.pc + 1, ..s })
            } else {
                Step::Fault(InterpreterError::OutOfBounds)
            },
            Token::Add(n) => if wrapping {
                Step::Next(
                    MachineState {
                        tape: s.tape.update(s.index, ((s.tape[s.index] + n) % 256) as u8),
                        pc: s.pc + 1,
                        ..s
                    },
                )
            } else if s.tape[s.index] + n <= 255 {
                Step::Next(
                    MachineState {
                        tape: s.tape.update(s.index, (s.tape[s.index] + n) as u8),
                        pc: s.pc + 1,
                        ..s
                    },
                )
            } else {
                Step::Fault(InterpreterError::IntegerOverflow(s.pc as usize))
            },
            Token::Sub(n) => if wrapping {
                Step::Next(
                    MachineState {
                        tape: s.tape.update(s.index, ((s.tape[s.index] - n + 256) % 256) as u8),
                        pc: s.pc + 1,
                        ..s
                    },
                )
            } else if s.tape[s.index] - n >= 0 {
                Step::Next(
                    MachineState {
                        tape: s.tape.update(s.index, (s.tape[s.index] - n) as u8),
                        pc: s.pc + 1,
                        ..s
                    },
                )
            } else {
                Step::Fault(InterpreterError::IntegerUnderflow(s.pc as usize))
            },
            Token::Read => if s.input.len() > 0 {
                Step::Next(
                    MachineState {
                        tape: s.tape.update(s.index, s.input.last()),
                        input: s.input.drop_last(),
                        pc: s.pc + 1,
                        ..s
                    },
                )
            } else {
                Step::NeedInput
            },
            Token::Write => Step::Next(
                MachineState { output: s.output.push(s.tape[s.index]), pc: s.pc + 1, ..s },
            ),
            Token::Loop(j) => Step::Next(
                MachineState {
                    pc: if s.tape[s.index] != 0 {
                        j + 1
                    } else {
                        s.pc + 1
                    },
                    ..s
                },
            ),
            Token::Break(j) => Step::Next(
                MachineState {
                    pc: if s.tape[s.index] == 0 {
                        j + 1
                    } else {
                        s.pc + 1
                    },
                    ..s
                },
            ),
            Token::Comment => Step::Next(MachineState { pc: s.pc + 1, ..s }),
        }
    }
}

/// `s2` is reached from `s1` by exactly `n` ordinary transitions.
pub open spec fn steps_to(
    prog: Seq<Token>,
    wrapping: bool,
    s1: MachineState,
    s2: MachineState,
    n: nat,
) -> bool
    decreases n,
{
    if n == 0 {
        s1 == s2
    } else {
        spec_step(prog, wrapping, s1) matches Step::Next(mid) && steps_to(
            prog,
            wrapping,
            mid,
            s2,
            (n - 1) as nat,
        )
    }
}

proof fn lemma_steps_to_extend(
    prog: Seq<Token>,
    wrapping: bool,
    s0: MachineState,
    s1: MachineState,
    s2: MachineState,
    n: nat,
)
    requires
        steps_to(prog, wrapping, s0, s1, n),
        spec_step(prog, wrapping, s1) == Step::Next(s2),
    ensures
        steps_to(prog, wrapping, s0, s2, n + 1),
    decreases n,
{
    if n == 0 {
        assert(steps_to(prog, wrapping, s2, s2, 0));
    } else {
        let mid = choose|mid: MachineState|
            spec_step(prog, wrapping, s0) == Step::Next(mid) && steps_to(
                prog,
                wrapping,
                mid,
                s1,
                (n - 1) as nat,
            );
        lemma_steps_to_extend(prog, wrapping, mid, s1, s2, (n - 1) as nat);
    }
}

/// A stream that came out of jump resolution keeps every target in bounds.
pub proof fn lemma_resolved_stream_targets(s: Seq<Token>, r: Seq<Token>)
    requires
        crate::parser::resolved_view(s, r),
    ensures
        targets_resolved(r),
{
    crate::parser::lemma_resolved_targets_consistent(s, r);
}

/// Runtime check that every loop marker's target is an index of the stream,
/// for callers that hold a stream of unknown provenance.
pub fn check_targets(p: &Vec<Token>) -> (b: bool)
    ensures
        b == targets_resolved(p@),
{
    let n = p.len();
    let mut i: usize = 0;
    while i < n
        invariant
            i <= n,
            n == p@.len(),
            forall|k: int|
                0 <= k < i ==> match #[trigger] p@[k] {
                    Token::Loop(j) => j < p@.len(),
                    Token::Break(j) => j < p@.len(),
                    _ => true,
                },
        decreases n - i,
    {
        match p[i] {
            Token::Loop(j) => {
                if j >= n {
                    return false;
                }
            }
            Token::Break(j) => {
                if j >= n {
                    return false;
                }
            }
            _ => {}
        }
        i = i + 1;
    }
    true
}

/// Marks a builder that has not been given a program yet.
#[derive(Clone)]
pub struct NoProgram;

/// A program handed to the builder.
#[derive(Clone)]
pub struct Program(Vec<Token>);

/// Step-by-step configuration of an execution engine: the program, the tape
/// length (defaults to 30000 cells) and the arithmetic wrap mode (defaults to
/// wrap-around enabled).
#[derive(Clone)]
pub struct InterpreterBuilder<P> {
    program: P,
    wrapping: Option<bool>,
    memory: Option<usize>,
}

impl<P> InterpreterBuilder<P> {
    /// The configured wrap mode, if one was set.
    pub closed spec fn spec_wrapping(&self) -> Option<bool> {
        self.wrapping
    }

    /// The configured tape length, if one was set.
    pub closed spec fn spec_memory(&self) -> Option<usize> {
        self.memory
    }

    /// The program slot as handed along by the builder steps.
    pub closed spec fn prog_slot(&self) -> P {
        self.program
    }

    /// Hands the builder a program, keeping the other settings.
    pub fn program(self, program: Vec<Token>) -> (r: InterpreterBuilder<Program>)
        ensures
            r.spec_program() == program@,
            r.spec_wrapping() == self.spec_wrapping(),
            r.spec_memory() == self.spec_memory(),
    {
        InterpreterBuilder { program: Program(program), wrapping: self.wrapping, memory: self.memory }
    }

    /// Chooses the arithmetic mode: wrap-around when `true`, checked when
    /// `false`.
    pub fn wrapping(self, wrapping: bool) -> (r: Self)
        ensures
            r.spec_wrapping() == Some(wrapping),
            r.spec_memory() == self.spec_memory(),
            r.prog_slot() == self.prog_slot(),
    {
        let mut s = self;
        s.wrapping = Some(wrapping);
        s
    }

    /// Chooses the tape length, which must be positive.
    pub fn memory(self, memory: usize) -> (r: Self)
        requires
            memory >= 1,
        ensures
            r.spec_memory() == Some(memory),
            r.spec_wrapping() == self.spec_wrapping(),
            r.prog_slot() == self.prog_slot(),
    {
        let mut s = self;
        s.memory = Some(memory);
        s
    }
}

impl InterpreterBuilder<NoProgram> {
    /// A builder with nothing configured yet.
    pub fn new() -> (r: Self)
        ensures
            r.spec_wrapping() is None,
            r.spec_memory() is None,
    {
        InterpreterBuilder { program: NoProgram, wrapping: None, memory: None }
    }
}

/// The token stream a `Program` slot holds.
pub closed spec fn program_view(p: Program) -> Seq<Token> {
    p.0@
}

impl InterpreterBuilder<Program> {
    /// The program this builder holds.
    pub open spec fn spec_program(&self) -> Seq<Token> {
        program_view(self.prog_slot())
    }

    /// The tape length the built engine will have.
    pub open spec fn chosen_memory(&self) -> usize {
        match self.spec_memory() {
            Some(m) => m,
            None => 30000,
        }
    }

    /// The wrap mode the built engine will have.
    pub open spec fn chosen_wrapping(&self) -> bool {
        match self.spec_wrapping() {
            Some(w) => w,
            None => true,
        }
    }

    /// Builds the engine: a zeroed tape of the chosen length, the pointer and
    /// the program counter at zero, and empty input and output buffers.
    pub fn build(self) -> (it: Interpreter)
        requires
            targets_resolved(self.spec_program()),
            self.spec_memory() matches Some(m) ==> m >= 1,
        ensures
            it.wf(),
            it.prog() == self.spec_program(),
            it.wrap() == self.chosen_wrapping(),
            it.st() == (MachineState {
                tape: Seq::new(self.chosen_memory() as nat, |i: int| 0u8),
                index: 0,
                pc: 0,
                input: Seq::empty(),
                output: Seq::empty(),
            }),
    {
        let memory = self.memory.unwrap_or(30000);
        let wrapping = self.wrapping.unwrap_or(true);
        let it = Interpreter {
            program: self.program.0,
            tape: vec![0u8; memory],
            input_buffer: Vec::new(),
            output: Vec::new(),
            pc: 0,
            index: 0,
            wrapping,
        };
        proof {
            assert(it.st() =~= (MachineState {
                tape: Seq::new(self.chosen_memory() as nat, |i: int| 0u8),
                index: 0,
                pc: 0,
                input: Seq::empty(),
                output: Seq::empty(),
            }));
        }
        it
    }
}

/// The execution engine: a resolved program, a byte tape with its pointer, a
/// program counter, a line-buffered input queue and an output buffer.
#[derive(Debug)]
pub struct Interpreter {
    program: Vec<Token>,
    tape: Vec<u8>,
    index: usize,
    pc: usize,
    input_buffer: Vec<u8>,
    output: Vec<u8>,
    wrapping: bool,
}

impl Interpreter {
    /// The program the engine walks; never mutated.
    pub closed spec fn prog(&self) -> Seq<Token> {
        self.program@
    }

    /// Whether cell arithmetic wraps around instead of faulting.
    pub closed spec fn wrap(&self) -> bool {
        self.wrapping
    }

    /// The engine's machine state.
    pub closed spec fn st(&self) -> MachineState {
        MachineState {
            tape: self.tape@,
            index: self.index as int,
            pc: self.pc as int,
            input: self.input_buffer@,
            output: self.output@,
        }
    }

    /// Well-formedness: the tape pointer is on the tape and every jump target
    /// is an index of the program.
    pub closed spec fn wf(&self) -> bool {
        self.index < self.tape@.len() && targets_resolved(self.program@)
    }

    /// The output emitted so far.
    pub fn output(&self) -> (out: &Vec<u8>)
        ensures
            out@ == self.st().output,
    {
        &self.output
    }

    /// Queues one line of input behind whatever is still unconsumed.
    pub fn provide_input(&mut self, line: &Vec<u8>)
        requires
            old(self).wf(),
        ensures
            final(self).wf(),
            final(self).prog() == old(self).prog(),
            final(self).wrap() == old(self).wrap(),
            final(self).st() == (MachineState { input: line@.reverse() + old(self).st().input, ..old(self).st() }),
    {
        let n = line.len();
        let mut nb: Vec<u8> = Vec::new();
        let mut k: usize = 0;
        while k < n
            invariant
                k <= n,
                n == line@.len(),
                nb@.len() == k,
                forall|m: int| 0 <= m < k ==> nb@[m] == line@[n - 1 - m],
            decreases n - k,
        {
            nb.push(line[n - 1 - k]);
            k = k + 1;
        }
        proof {
            assert(nb@ =~= line@.reverse());
        }
        nb.append(&mut self.input_buffer);
        self.input_buffer = nb;
        proof {
            assert(self.st() =~= (MachineState {
                input: line@.reverse() + old(self).st().input,
                ..old(self).st()
            }));
        }
    }

    /// Performs one transition of the machine, exactly as the specification
    /// step describes it; a fault or a need for input leaves the state as it
    /// was.
    pub fn step(&mut self) -> (r: Result<RunStatus, InterpreterError>)
        requires
            old(self).wf(),
        ensures
            final(self).wf(),
            final(self).prog() == old(self).prog(),
            final(self).wrap() == old(self).wrap(),
            match spec_step(old(self).prog(), old(self).wrap(), old(self).st()) {
                Step::Halted => r == Ok::<RunStatus, InterpreterError>(RunStatus::Halted)
                    && final(self).st() == old(self).st(),
                Step::NeedInput => r == Ok::<RunStatus, InterpreterError>(RunStatus::NeedsInput)
                    && final(self).st() == old(self).st(),
                Step::Fault(e) => r == Err::<RunStatus, InterpreterError>(e) && final(self).st()
                    == old(self).st(),
                Step::Next(s2) => r == Ok::<RunStatus, InterpreterError>(RunStatus::Running)
                    && final(self).st() == s2,
            },
    {
        if self.pc >= self.program.len() {
            return Ok(RunStatus::Halted);
        }
        let t = self.program[self.pc];
        let ghost pre = self.st();
        let ghost prog = self.prog();
        match t {
            Token::Right(count) => {
                if count < self.tape.len() && self.index < self.tape.len() - count {
                    self.index = self.index + count;
                } else {
                    return Err(InterpreterError::OutOfBounds);
                }
            }
            Token::Left(count) => {
                if count <= self.index {
                    self.index = self.index - count;
                } else {
                    return Err(InterpreterError::OutOfBounds);
                }
            }
            Token::Add(count) => {
                let cell = self.tape[self.index];
                if self.wrapping {
                    self.tape[self.index] = (((cell as u16) + (count as u16)) % 256) as u8;
                } else {
                    if (cell as u16) + (count as u16) <= 255 {
                        self.tape[self.index] = cell + count;
                    } else {
                        return Err(InterpreterError::IntegerOverflow(self.pc));
                    }
                }
            }
            Token::Sub(count) => {
                let cell = self.tape[self.index];
                if self.wrapping {
                    self.tape[self.index] = (((cell as u16) + 256 - (count as u16)) % 256) as u8;
                } else {
                    if count <= cell {
                        self.tape[self.index] = cell - count;
                    } else {
                        return Err(InterpreterError::IntegerUnderflow(self.pc));
                    }
                }
            }
            Token::Read => {
                match self.input_buffer.pop() {
                    Some(value) => {
                        self.tape[self.index] = value;
                    }
                    None => {
                        return Ok(RunStatus::NeedsInput);
                    }
                }
            }
            Token::Write => {
                let cell = self.tape[self.index];
                self.output.push(cell);
            }
            Token::Loop(jump) => {
                if self.tape[self.index] != 0 {
                    self.pc = jump;
                }
            }
            Token::Break(jump) => {
                if self.tape[self.index] == 0 {
                    self.pc = jump;
                }
            }
            Token::Comment => {}
        }
        self.pc = self.pc + 1;
        proof {
            match spec_step(prog, self.wrapping, pre) {
                Step::Next(s2) => {
                    assert(self.st() =~= s2);
                }
                _ => {}
            }
        }
        Ok(RunStatus::Running)
    }

    /// Runs the machine for up to `max_steps` transitions: to the end of the
    /// program, to the first fault, to the first read with an empty input
    /// buffer, or until the budget runs out, whichever comes first.
    pub fn run(&mut self, max_steps: usize) -> (r: Result<RunStatus, InterpreterError>)
        requires
            old(self).wf(),
        ensures
            final(self).wf(),
            final(self).prog() == old(self).prog(),
            final(self).wrap() == old(self).wrap(),
            exists|n: nat|
                n <= max_steps && #[trigger] steps_to(
                    old(self).prog(),
                    old(self).wrap(),
                    old(self).st(),
                    final(self).st(),
                    n,
                ) && (r == Ok::<RunStatus, InterpreterError>(RunStatus::Running) ==> n
                    == max_steps),
            r == Ok::<RunStatus, InterpreterError>(RunStatus::Halted) ==> spec_step(
                final(self).prog(),
                final(self).wrap(),
                final(self).st(),
            ) is Halted,
            r == Ok::<RunStatus, InterpreterError>(RunStatus::NeedsInput) ==> spec_step(
                final(self).prog(),
                final(self).wrap(),
                final(self).st(),
            ) is NeedInput,
            r matches Err(e) ==> spec_step(final(self).prog(), final(self).wrap(), final(self).st())
                == Step::Fault(e),
    {
        let mut i: usize = 0;
        while i < max_steps
            invariant
                i <= max_steps,
                self.wf(),
                self.prog() == old(self).prog(),
                self.wrap() == old(self).wrap(),
                steps_to(old(self).prog(), old(self).wrap(), old(self).st(), self.st(), i as nat),
            decreases max_steps - i,
        {
            let ghost before = self.st();
            let res = self.step();
            match res {
                Ok(RunStatus::Running) => {
                    proof {
                        let s2 = self.st();
                        lemma_steps_to_extend(
                            old(self).prog(),
                            old(self).wrap(),
                            old(self).st(),
                            before,
                            s2,
                            i as nat,
                        );
                    }
                }
                Ok(RunStatus::Halted) => {
                    return Ok(RunStatus::Halted);
                }
                Ok(RunStatus::NeedsInput) => {
                    return Ok(RunStatus::NeedsInput);
                }
                Err(e) => {
                    return Err(e);
                }
            }
            i = i + 1;
        }
        Ok(RunStatus::Running)
    }
}

} // verus!
