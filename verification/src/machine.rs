//! The execution engine: a program counter, a data pointer and a byte memory.
//!
//! The machine decides; the caller performs the byte I/O. `Machine::request`
//! says what the instruction at the program counter needs, `Machine::step`
//! takes the caller's reply and executes that instruction. `run_program`
//! drives the same steps over an input held in memory.

use vstd::prelude::*;
use crate::instruction::{BFInstruction, targets_in_range};

verus! {

/// How a run ends.
#[derive(Clone, Copy, Debug, PartialEq, Eq, Structural)]
pub enum ExecutionResult {
    /// The program counter reached the end of the stream.
    Success,
    /// A cell was accessed with the data pointer outside the memory.
    MemoryAccessError,
    /// A read, a write or a flush failed.
    IOError,
}

/// What the machine needs before it can execute its next instruction.
#[derive(Clone, Copy, Debug, PartialEq, Eq, Structural)]
pub enum Request {
    /// Nothing: the run is over, with this result.
    Halt(ExecutionResult),
    /// Nothing from outside: the instruction only computes.
    Compute,
    /// This byte written to the output and flushed.
    Write(u8),
    /// One byte read from the input.
    Read,
}

/// What the caller reports back for a request.
#[derive(Clone, Copy, Debug, PartialEq, Eq, Structural)]
pub enum Reply {
    /// Nothing was asked for, or the byte was written and flushed.
    Ready,
    /// The byte that was read.
    Byte(u8),
    /// The input has ended.
    EndOfInput,
    /// The read, the write or the flush failed.
    Failed,
}

/// The mathematical state of a machine.
pub struct MachineState {
    /// Index of the next instruction.
    pub pc: usize,
    /// Index of the current cell; it may lie outside the memory.
    pub dp: usize,
    /// The memory cells.
    pub cells: Seq<u8>,
}

/// The state in which every run starts: both indices zero, `size` zero cells.
pub open spec fn initial_state(size: nat) -> MachineState {
    MachineState { pc: 0, dp: 0, cells: Seq::new(size, |i: int| 0u8) }
}

/// Whether an instruction reads or writes the current cell.
pub open spec fn accesses_cell(ins: BFInstruction) -> bool {
    !(ins is AdvancePointer || ins is RetreatPointer)
}

/// What the machine needs next.
pub open spec fn request_of(program: Seq<BFInstruction>, s: MachineState) -> Request {
    if s.pc >= program.len() {
        Request::Halt(ExecutionResult::Success)
    } else if accesses_cell(program[s.pc as int]) && s.dp >= s.cells.len() {
        Request::Halt(ExecutionResult::MemoryAccessError)
    } else {
        match program[s.pc as int] {
            BFInstruction::Output => Request::Write(s.cells[s.dp as int]),
            BFInstruction::Input => Request::Read,
            _ => Request::Compute,
        }
    }
}

/// The result with which a step ends the run, if it does.
pub open spec fn outcome_of(program: Seq<BFInstruction>, s: MachineState, reply: Reply) -> Option<
    ExecutionResult,
> {
    match request_of(program, s) {
        Request::Halt(result) => Some(result),
        Request::Compute => None,
        _ => if reply is Failed {
            Some(ExecutionResult::IOError)
        } else {
            None
        },
    }
}

/// The state after the instruction at the program counter has been executed.
///
/// Meant for a state whose request is not `Halt`. An `Input` stores the byte
/// of the reply, and zero for any other reply. After a jump, as after every
/// other instruction, the program counter moves on by one.
pub open spec fn executed(program: Seq<BFInstruction>, s: MachineState, reply: Reply) -> MachineState {
    let cell = s.cells[s.dp as int];
    let onward = (s.pc + 1) as usize;
    match program[s.pc as int] {
        BFInstruction::Add(k) => MachineState {
            pc: onward,
            dp: s.dp,
            cells: s.cells.update(s.dp as int, ((cell + k) % 256) as u8),
        },
        BFInstruction::Subtract(k) => MachineState {
            pc: onward,
            dp: s.dp,
            cells: s.cells.update(s.dp as int, ((cell - k) % 256) as u8),
        },
        BFInstruction::AdvancePointer(k) => MachineState {
            pc: onward,
            dp: s.dp.wrapping_add(k),
            cells: s.cells,
        },
        BFInstruction::RetreatPointer(k) => MachineState {
            pc: onward,
            dp: s.dp.wrapping_sub(k),
            cells: s.cells,
        },
        BFInstruction::Output => MachineState { pc: onward, dp: s.dp, cells: s.cells },
        BFInstruction::Input => MachineState {
            pc: onward,
            dp: s.dp,
            cells: s.cells.update(
                s.dp as int,
                match reply {
                    Reply::Byte(byte) => byte,
                    _ => 0u8,
                },
            ),
        },
        BFInstruction::LoopStart(target) => MachineState {
            pc: if cell == 0 {
                (target + 1) as usize
            } else {
                onward
            },
            dp: s.dp,
            cells: s.cells,
        },
        BFInstruction::LoopEnd(target) => MachineState {
            pc: if cell != 0 {
                (target + 1) as usize
            } else {
                onward
            },
            dp: s.dp,
            cells: s.cells,
        },
    }
}

/// The state after a step: unchanged where the step ends the run.
pub open spec fn next_state(program: Seq<BFInstruction>, s: MachineState, reply: Reply) -> MachineState {
    if outcome_of(program, s, reply) is Some {
        s
    } else {
        executed(program, s, reply)
    }
}

/// A machine in the middle of a run.
pub struct Machine {
    /// Index of the next instruction.
    pub program_counter: usize,
    /// Index of the current cell.
    pub data_pointer: usize,
    /// The memory cells.
    pub memory: Vec<u8>,
}

impl View for Machine {
    type V = MachineState;

    open spec fn view(&self) -> MachineState {
        MachineState { pc: self.program_counter, dp: self.data_pointer, cells: self.memory@ }
    }
}

impl Machine {
    /// A machine at the start of a run, with `memory_size` cells, all zero.
    pub fn new(memory_size: usize) -> (machine: Machine)
        ensures
            machine@ == initial_state(memory_size as nat),
    {
        let memory = vec![0u8; memory_size];
        assert(memory@ =~= Seq::new(memory_size as nat, |i: int| 0u8));
        Machine { program_counter: 0, data_pointer: 0, memory }
    }

    /// What the instruction at the program counter needs.
    pub fn request(&self, program: &[BFInstruction]) -> (request: Request)
        ensures
            request == request_of(program@, self@),
    {
        if self.program_counter >= program.len() {
            return Request::Halt(ExecutionResult::Success);
        }
        let ins = program[self.program_counter];
        match ins {
            BFInstruction::AdvancePointer(_) | BFInstruction::RetreatPointer(_) => Request::Compute,
            _ => {
                if self.data_pointer >= self.memory.len() {
                    Request::Halt(ExecutionResult::MemoryAccessError)
                } else {
                    match ins {
                        BFInstruction::Output => Request::Write(self.memory[self.data_pointer]),
                        BFInstruction::Input => Request::Read,
                        _ => Request::Compute,
                    }
                }
            },
        }
    }

    /// Executes the instruction at the program counter, given the caller's
    /// reply to the machine's request.
    ///
    /// Returns the result where the run ends here: the stream is exhausted,
    /// the instruction accesses a cell outside the memory, or the I/O it
    /// asked for failed. The machine is then left as it was. Otherwise the
    /// instruction is executed and `None` is returned.
    pub fn step(&mut self, program: &[BFInstruction], reply: Reply) -> (outcome: Option<
        ExecutionResult,
    >)
        requires
            targets_in_range(program@),
        ensures
            outcome == outcome_of(program@, old(self)@, reply),
            final(self)@ == next_state(program@, old(self)@, reply),
    {
        match self.request(program) {
            Request::Halt(result) => {
                return Some(result);
            },
            Request::Compute => {},
            _ => {
                if let Reply::Failed = reply {
                    return Some(ExecutionResult::IOError);
                }
            },
        }
        let pc = self.program_counter;
        let dp = self.data_pointer;
        assert(pc < program.len());
        let mut next_pc = pc + 1;
        match program[pc] {
            BFInstruction::Add(k) => {
                let cell = self.memory[dp];
                self.memory.set(dp, cell.wrapping_add(k));
            },
            BFInstruction::Subtract(k) => {
                let cell = self.memory[dp];
                self.memory.set(dp, cell.wrapping_sub(k));
            },
            BFInstruction::AdvancePointer(k) => {
                self.data_pointer = dp.wrapping_add(k);
            },
            BFInstruction::RetreatPointer(k) => {
                self.data_pointer = dp.wrapping_sub(k);
            },
            BFInstruction::Output => {},
            BFInstruction::Input => {
                let byte = match reply {
                    Reply::Byte(byte) => byte,
                    _ => 0u8,
                };
                self.memory.set(dp, byte);
            },
            BFInstruction::LoopStart(target) => {
                if self.memory[dp] == 0 {
                    next_pc = target + 1;
                }
            },
            BFInstruction::LoopEnd(target) => {
                if self.memory[dp] != 0 {
                    next_pc = target + 1;
                }
            },
        }
        self.program_counter = next_pc;
        assert(self@.cells =~= next_state(program@, old(self)@, reply).cells);
        None
    }
}

/// What a bounded run produced.
pub struct RunReport {
    /// How the run ended, or `None` if it was stopped at the step limit.
    pub result: Option<ExecutionResult>,
    /// The bytes written, in order.
    pub output: Vec<u8>,
}

/// The result and the output of running from state `s` for at most `fuel`
/// instructions, reading from `input` and appending to `output`.
///
/// A read takes the first byte left of the input, or reports the end of the
/// input when none is left. The result is `None` when the instructions run
/// out before the machine halts.
pub open spec fn run_from(
    program: Seq<BFInstruction>,
    s: MachineState,
    input: Seq<u8>,
    output: Seq<u8>,
    fuel: nat,
) -> (Option<ExecutionResult>, Seq<u8>)
    decreases fuel,
{
    match request_of(program, s) {
        Request::Halt(result) => (Some(result), output),
        request => if fuel == 0 {
            (None, output)
        } else {
            match request {
                Request::Write(byte) => run_from(
                    program,
                    executed(program, s, Reply::Ready),
                    input,
                    output.push(byte),
                    (fuel - 1) as nat,
                ),
                Request::Read => if input.len() > 0 {
                    run_from(
                        program,
                        executed(program, s, Reply::Byte(input[0])),
                        input.drop_first(),
                        output,
                        (fuel - 1) as nat,
                    )
                } else {
                    run_from(
                        program,
                        executed(program, s, Reply::EndOfInput),
                        input,
                        output,
                        (fuel - 1) as nat,
                    )
                },
                _ => run_from(
                    program,
                    executed(program, s, Reply::Ready),
                    input,
                    output,
                    (fuel - 1) as nat,
                ),
            }
        },
    }
}

/// Runs a program on `memory_size` zero cells for at most `max_steps`
/// instructions, with `input` as the whole input, and collects the output.
pub fn run_program(program: &[BFInstruction], memory_size: usize, input: &[u8], max_steps: usize) -> (report:
    RunReport)
    requires
        targets_in_range(program@),
    ensures
        (report.result, report.output@) == run_from(
            program@,
            initial_state(memory_size as nat),
            input@,
            Seq::empty(),
            max_steps as nat,
        ),
{
    let mut machine = Machine::new(memory_size);
    let mut output: Vec<u8> = Vec::new();
    let mut consumed: usize = 0;
    let mut remaining: usize = max_steps;
    let ghost whole = run_from(
        program@,
        initial_state(memory_size as nat),
        input@,
        Seq::empty(),
        max_steps as nat,
    );
    assert(input@.skip(0) =~= input@);
    loop
        invariant
            targets_in_range(program@),
            consumed <= input.len(),
            whole == run_from(
                program@,
                initial_state(memory_size as nat),
                input@,
                Seq::empty(),
                max_steps as nat,
            ),
            whole == run_from(
                program@,
                machine@,
                input@.skip(consumed as int),
                output@,
                remaining as nat,
            ),
        decreases remaining,
    {
        let request = machine.request(program);
        let reply = match request {
            Request::Halt(result) => {
                return RunReport { result: Some(result), output };
            },
            _ => {
                if remaining == 0 {
                    return RunReport { result: None, output };
                }
                match request {
                    Request::Write(byte) => {
                        output.push(byte);
                        Reply::Ready
                    },
                    Request::Read => {
                        if consumed < input.len() {
                            let byte = input[consumed];
                            proof {
                                assert(input@.skip(consumed as int).drop_first() =~= input@.skip(
                                    consumed + 1,
                                ));
                            }
                            consumed += 1;
                            Reply::Byte(byte)
                        } else {
                            Reply::EndOfInput
                        }
                    },
                    _ => Reply::Ready,
                }
            },
        };
        machine.step(program, reply);
        remaining -= 1;
    }
}

} // verus!
