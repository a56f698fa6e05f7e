use bf_interpreter::instruction::BFInstruction;
use bf_interpreter::machine::{run_program, ExecutionResult, Machine, Reply, Request};
use bf_interpreter::parser::parse_data;

const STEPS: usize = 1_000_000;

fn run(source: &[u8], memory_size: usize, input: &[u8]) -> (Option<ExecutionResult>, Vec<u8>) {
    let program = parse_data(source).unwrap();
    let report = run_program(&program, memory_size, input, STEPS);
    (report.result, report.output)
}

#[test]
fn invalid_memory_access() {
    assert_eq!(
        run_program(&parse_data(b">+").unwrap(), 1, &[], STEPS).result,
        Some(ExecutionResult::MemoryAccessError)
    );
    assert_eq!(
        run_program(&parse_data(b"<+").unwrap(), 1, &[], STEPS).result,
        Some(ExecutionResult::MemoryAccessError)
    );
    assert_eq!(
        run_program(&parse_data(b"<>+").unwrap(), 1, &[], STEPS).result,
        Some(ExecutionResult::Success)
    );
    assert_eq!(
        run_program(&parse_data(b">[]").unwrap(), 1, &[], STEPS).result,
        Some(ExecutionResult::MemoryAccessError)
    );
}

#[test]
fn hello_world() {
    let source = b"++++++++[>++++[>++>+++>+++>+<<<<-]>+>+>->>+[<]<-]>>.>---.+++++++..+++.>>.<-.<.+++.------.--------.>>+.>++.";
    let (result, output) = run(source, 30000, &[]);
    assert_eq!(result, Some(ExecutionResult::Success));
    assert_eq!(output, b"Hello World!\n");
}

#[test]
fn hello_world_with_comma() {
    let source = b"++++++++++[>+++++++>++++++++++>+++>+<<<<-]>++.>+.+++++++..+++.>++++++++++++++.------------.<<+++++++++++++++.>.+++.------.--------.>+.>.";
    let (result, output) = run(source, 30000, &[]);
    assert_eq!(result, Some(ExecutionResult::Success));
    assert_eq!(output, b"Hello, World!\n");
}

#[test]
fn echo_one_byte() {
    let (result, output) = run(b",.", 30000, &[0x41]);
    assert_eq!(result, Some(ExecutionResult::Success));
    assert_eq!(output, b"A");
}

#[test]
fn echo_until_end_of_input() {
    let (result, output) = run(b",[.,]", 30000, b"abc");
    assert_eq!(result, Some(ExecutionResult::Success));
    assert_eq!(output, b"abc");
}

#[test]
fn cell_wraps_below_zero() {
    let (result, output) = run(b"-.", 1, &[]);
    assert_eq!(result, Some(ExecutionResult::Success));
    assert_eq!(output, [0xFF]);
}

#[test]
fn cell_wraps_above_255() {
    let mut source = vec![b'-'];
    source.push(b'+');
    source.push(b'+');
    source.push(b'.');
    let (result, output) = run(&source, 1, &[]);
    assert_eq!(result, Some(ExecutionResult::Success));
    assert_eq!(output, [1]);
    let (result, output) = run(&[vec![b'+'; 256], vec![b'.']].concat(), 1, &[]);
    assert_eq!(result, Some(ExecutionResult::Success));
    assert_eq!(output, [0]);
}

#[test]
fn pointer_underflow_fails_at_the_access() {
    let (result, output) = run(b"<.", 1, &[]);
    assert_eq!(result, Some(ExecutionResult::MemoryAccessError));
    assert!(output.is_empty());
}

#[test]
fn moves_alone_never_fail() {
    let (result, _) = run(b"<<<<>>>>>>>><<<<", 0, &[]);
    assert_eq!(result, Some(ExecutionResult::Success));
    let (result, _) = run(b"+", 0, &[]);
    assert_eq!(result, Some(ExecutionResult::MemoryAccessError));
}

#[test]
fn output_before_a_failure_is_kept() {
    let (result, output) = run(b"+.>.", 1, &[]);
    assert_eq!(result, Some(ExecutionResult::MemoryAccessError));
    assert_eq!(output, [1]);
}

#[test]
fn end_of_input_stores_zero() {
    let (result, output) = run(b"+++,.", 1, &[]);
    assert_eq!(result, Some(ExecutionResult::Success));
    assert_eq!(output, [0]);
}

#[test]
fn step_limit_stops_an_endless_loop() {
    let program = parse_data(b"+[]").unwrap();
    let report = run_program(&program, 1, &[], 1000);
    assert_eq!(report.result, None);
    let report = run_program(&parse_data(b"+++").unwrap(), 1, &[], 0);
    assert_eq!(report.result, None);
    let report = run_program(&parse_data(b"+++").unwrap(), 1, &[], 1);
    assert_eq!(report.result, Some(ExecutionResult::Success));
}

#[test]
fn comments_do_not_change_a_run() {
    let plain = run(b",[.,]", 16, b"xyz");
    let noisy = run(b"read , while [ print . read , ] done", 16, b"xyz");
    assert_eq!(plain.0, noisy.0);
    assert_eq!(plain.1, noisy.1);
}

#[test]
fn machine_asks_for_io_and_takes_the_reply() {
    let program = parse_data(b",.+.").unwrap();
    let mut machine = Machine::new(2);
    assert_eq!(machine.request(&program), Request::Read);
    assert_eq!(machine.step(&program, Reply::Byte(7)), None);
    assert_eq!(machine.memory, [7, 0]);
    assert_eq!(machine.request(&program), Request::Write(7));
    assert_eq!(machine.step(&program, Reply::Ready), None);
    assert_eq!(machine.request(&program), Request::Compute);
    assert_eq!(machine.step(&program, Reply::Ready), None);
    assert_eq!(machine.request(&program), Request::Write(8));
    assert_eq!(machine.step(&program, Reply::Ready), None);
    assert_eq!(machine.program_counter, 4);
    assert_eq!(machine.request(&program), Request::Halt(ExecutionResult::Success));
    assert_eq!(machine.step(&program, Reply::Ready), Some(ExecutionResult::Success));
    assert_eq!(machine.program_counter, 4);
}

#[test]
fn failed_io_ends_the_run() {
    let program = parse_data(b",.").unwrap();
    let mut machine = Machine::new(1);
    assert_eq!(machine.step(&program, Reply::Failed), Some(ExecutionResult::IOError));
    assert_eq!(machine.program_counter, 0);
    assert_eq!(machine.step(&program, Reply::EndOfInput), None);
    assert_eq!(machine.step(&program, Reply::Failed), Some(ExecutionResult::IOError));
    assert_eq!(machine.program_counter, 1);
}

#[test]
fn loops_jump_to_the_partner_and_move_on() {
    let program = [
        BFInstruction::LoopStart(2),
        BFInstruction::Add(1),
        BFInstruction::LoopEnd(0),
        BFInstruction::Add(5),
    ];
    let mut machine = Machine::new(1);
    assert_eq!(machine.step(&program, Reply::Ready), None);
    assert_eq!(machine.program_counter, 3);
    assert_eq!(machine.step(&program, Reply::Ready), None);
    assert_eq!(machine.memory, [5]);
    machine.program_counter = 2;
    assert_eq!(machine.step(&program, Reply::Ready), None);
    assert_eq!(machine.program_counter, 1);
}

#[test]
fn more_steps_do_not_change_a_finished_run() {
    let program = parse_data(b"++++[>++<-]>.").unwrap();
    let short = run_program(&program, 4, &[], 100);
    let long = run_program(&program, 4, &[], 100_000);
    assert_eq!(short.result, Some(ExecutionResult::Success));
    assert_eq!(short.result, long.result);
    assert_eq!(short.output, [8]);
    assert_eq!(long.output, [8]);
}

#[test]
fn zero_count_is_a_no_op() {
    let program = [BFInstruction::Add(3), BFInstruction::Add(0), BFInstruction::Subtract(0)];
    let mut machine = Machine::new(1);
    assert_eq!(machine.step(&program, Reply::Ready), None);
    assert_eq!(machine.step(&program, Reply::Ready), None);
    assert_eq!(machine.memory, [3]);
    assert_eq!(machine.step(&program, Reply::Ready), None);
    assert_eq!(machine.memory, [3]);
    assert_eq!(machine.program_counter, 3);
    assert_eq!(machine.data_pointer, 0);
}

#[test]
fn pointer_moves_wrap_at_the_word_width() {
    let program = [
        BFInstruction::RetreatPointer(1),
        BFInstruction::AdvancePointer(2),
        BFInstruction::Add(1),
    ];
    let mut machine = Machine::new(2);
    assert_eq!(machine.step(&program, Reply::Ready), None);
    assert_eq!(machine.data_pointer, usize::MAX);
    assert_eq!(
        machine.request(&program),
        Request::Compute
    );
    assert_eq!(machine.step(&program, Reply::Ready), None);
    assert_eq!(machine.data_pointer, 1);
    assert_eq!(machine.step(&program, Reply::Ready), None);
    assert_eq!(machine.memory, [0, 1]);
}
