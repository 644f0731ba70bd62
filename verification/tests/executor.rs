use membrain::interpreter::{targets_fit, Instruction, Interpreter, INITIAL_TAPE_LEN};
use membrain::language::parse_bf_file;
use membrain::optimizer::optimize_instructions;

fn interpreter_for(source: &str) -> Interpreter {
    let program = parse_bf_file(source).unwrap();
    assert!(targets_fit(&program));
    Interpreter::new(program)
}

/// What the program of `source` emits when it runs to its end on `input`.
fn output_of(source: &str, input: &[u8]) -> Vec<u8> {
    let mut interpreter = interpreter_for(source);
    let outcome = interpreter.run(input, 10_000_000);
    assert!(interpreter.is_halted());
    outcome.emitted
}

/// Drives `interpreter` to its end as a caller with streams would: one step
/// at a time, with a byte fetched only when a `Read` is due.
fn drive(interpreter: &mut Interpreter, input: &[u8]) -> Vec<u8> {
    let mut supplied = input.iter();
    let mut emitted = Vec::new();
    while !interpreter.is_halted() {
        let byte = if interpreter.awaits_input() {
            supplied.next().copied()
        } else {
            None
        };
        if let Some(out) = interpreter.step(byte) {
            emitted.push(out);
        }
    }
    emitted
}

#[test]
fn fresh_interpreter_stands_at_the_start_of_a_zero_tape() {
    let interpreter = Interpreter::new(vec![Instruction::Increment]);
    assert_eq!(interpreter.pc(), 0);
    assert_eq!(interpreter.pointer(), 0);
    assert_eq!(INITIAL_TAPE_LEN, 30_000);
    assert_eq!(interpreter.tape().len(), 30_000);
    assert!(interpreter.tape().iter().all(|cell| *cell == 0));
    assert!(!interpreter.is_halted());
}

#[test]
fn empty_program_is_halted_at_once() {
    let mut interpreter = Interpreter::new(vec![]);
    assert!(interpreter.is_halted());
    assert!(!interpreter.awaits_input());
    let outcome = interpreter.run(&[1, 2], 10);
    assert_eq!(outcome.steps, 0);
    assert_eq!(outcome.consumed, 0);
    assert_eq!(outcome.emitted, vec![]);
}

#[test]
fn eight_times_eight_is_emitted_as_one_byte() {
    assert_eq!(output_of("++++++++[>++++++++<-]>.", &[]), vec![64]);
}

#[test]
fn byte_read_is_the_byte_written() {
    assert_eq!(output_of(",.", &[65]), vec![65]);
}

#[test]
fn exhausted_input_reads_as_zero() {
    assert_eq!(output_of(",.", &[]), vec![0]);
    assert_eq!(output_of(",.,.", &[7]), vec![7, 0]);
    assert_eq!(output_of("+,.", &[]), vec![0]);
}

#[test]
fn input_is_consumed_in_order() {
    assert_eq!(output_of(",>,>,.<.<.", &[1, 2, 3]), vec![3, 2, 1]);
}

#[test]
fn run_counts_steps_and_consumed_bytes() {
    let mut interpreter = interpreter_for(",>,.");
    let outcome = interpreter.run(&[1, 2, 3], 100);
    assert_eq!(outcome.steps, 4);
    assert_eq!(outcome.consumed, 2);
    assert_eq!(outcome.emitted, vec![2]);
    assert!(interpreter.is_halted());
}

#[test]
fn only_a_read_consumes_input() {
    let mut interpreter = interpreter_for("+.>-.");
    let outcome = interpreter.run(&[9, 9], 100);
    assert_eq!(outcome.consumed, 0);
    assert_eq!(outcome.emitted, vec![1, 255]);
}

#[test]
fn read_past_the_end_of_input_consumes_nothing() {
    let mut interpreter = interpreter_for(",,,.");
    let outcome = interpreter.run(&[5], 100);
    assert_eq!(outcome.consumed, 1);
    assert_eq!(outcome.emitted, vec![0]);
}

#[test]
fn run_stops_when_the_fuel_is_used_up() {
    let mut interpreter = interpreter_for("+[]");
    let outcome = interpreter.run(&[], 1_000);
    assert_eq!(outcome.steps, 1_000);
    assert!(!interpreter.is_halted());
    assert_eq!(interpreter.run(&[], 0).steps, 0);
}

#[test]
fn run_goes_on_where_the_last_one_stopped() {
    let mut interpreter = interpreter_for(",.,.+.");
    let input = [4, 5];
    let first = interpreter.run(&input, 2);
    assert_eq!(first.steps, 2);
    assert_eq!(first.consumed, 1);
    assert_eq!(first.emitted, vec![4]);
    assert!(!interpreter.is_halted());
    let second = interpreter.run(&input[first.consumed..], 100);
    assert_eq!(second.steps, 4);
    assert_eq!(second.consumed, 1);
    assert_eq!(second.emitted, vec![5, 6]);
    assert!(interpreter.is_halted());
}

#[test]
fn driving_step_by_step_emits_what_run_emits() {
    let source = ",[.-]>,.<+.";
    let input = [3, 200];
    let mut driven = interpreter_for(source);
    assert_eq!(drive(&mut driven, &input), vec![3, 2, 1, 200, 1]);
    assert_eq!(output_of(source, &input), vec![3, 2, 1, 200, 1]);
}

#[test]
fn step_reports_when_input_is_due() {
    let mut interpreter = interpreter_for("+,.");
    assert!(!interpreter.awaits_input());
    assert_eq!(interpreter.step(None), None);
    assert!(interpreter.awaits_input());
    assert_eq!(interpreter.step(Some(9)), None);
    assert!(!interpreter.awaits_input());
    assert_eq!(interpreter.step(None), Some(9));
    assert!(interpreter.is_halted());
    assert!(!interpreter.awaits_input());
}

#[test]
fn failed_read_stores_zero() {
    let mut interpreter = interpreter_for("+++,");
    interpreter.run(&[], 3);
    assert_eq!(interpreter.tape()[0], 3);
    assert_eq!(interpreter.step(None), None);
    assert_eq!(interpreter.tape()[0], 0);
}

#[test]
fn input_is_ignored_by_other_instructions_than_read() {
    let mut interpreter = interpreter_for("+.");
    assert_eq!(interpreter.step(Some(9)), None);
    assert_eq!(interpreter.step(Some(9)), Some(1));
    assert_eq!(interpreter.tape()[0], 1);
}

#[test]
fn moving_left_at_the_left_end_grows_the_tape_there() {
    let mut interpreter = Interpreter::new(vec![
        Instruction::Increment,
        Instruction::MoveLeft,
    ]);
    assert_eq!(interpreter.step(None), None);
    assert_eq!(interpreter.step(None), None);
    assert_eq!(interpreter.pointer(), 0);
    assert_eq!(interpreter.tape().len(), 30_001);
    assert_eq!(interpreter.tape()[0], 0);
    assert_eq!(interpreter.tape()[1], 1);
    assert_eq!(interpreter.pc(), 2);
    assert!(interpreter.is_halted());
}

#[test]
fn moving_left_inside_the_tape_only_moves() {
    let mut interpreter = interpreter_for(">><");
    interpreter.run(&[], 100);
    assert_eq!(interpreter.pointer(), 1);
    assert_eq!(interpreter.tape().len(), 30_000);
}

#[test]
fn moving_right_at_the_right_end_grows_the_tape_there() {
    let mut interpreter = Interpreter::new(vec![Instruction::MoveRight; 30_000]);
    interpreter.run(&[], 1_000_000);
    assert!(interpreter.is_halted());
    assert_eq!(interpreter.pointer(), 30_000);
    assert_eq!(interpreter.tape().len(), 30_001);
    assert_eq!(interpreter.tape()[30_000], 0);
}

#[test]
fn moving_right_to_the_last_cell_grows_nothing() {
    let mut interpreter = Interpreter::new(vec![Instruction::MoveRight; 29_999]);
    interpreter.run(&[], 1_000_000);
    assert_eq!(interpreter.pointer(), 29_999);
    assert_eq!(interpreter.tape().len(), 30_000);
}

#[test]
fn cells_wrap_around() {
    assert_eq!(output_of("-.", &[]), vec![255]);
    assert_eq!(output_of("-+.", &[]), vec![0]);
    let mut source = "+".repeat(256);
    source.push('.');
    assert_eq!(output_of(&source, &[]), vec![0]);
    assert_eq!(output_of(",+.", &[255]), vec![0]);
    assert_eq!(output_of(",-.", &[0]), vec![255]);
}

#[test]
fn write_leaves_the_cell_as_it_is() {
    assert_eq!(output_of("+..", &[]), vec![1, 1]);
}

#[test]
fn branch_if_zero_skips_the_loop_on_a_zero_cell() {
    assert_eq!(output_of("[+.]+.", &[]), vec![1]);
}

#[test]
fn branch_if_zero_enters_the_loop_on_another_cell() {
    assert_eq!(output_of("+[.-]", &[]), vec![1]);
}

#[test]
fn branch_unless_zero_repeats_the_loop_until_zero() {
    assert_eq!(output_of("+++[.-]", &[]), vec![3, 2, 1]);
}

#[test]
fn taken_branch_lands_behind_its_target() {
    let mut interpreter = interpreter_for("[+]-");
    assert_eq!(interpreter.step(None), None);
    assert_eq!(interpreter.pc(), 3);
    let mut interpreter = interpreter_for("+[-+]");
    assert_eq!(interpreter.run(&[], 5).steps, 5);
    assert_eq!(interpreter.pc(), 2);
    assert_eq!(interpreter.tape()[0], 1);
}

#[test]
fn branch_not_taken_goes_to_the_next_instruction() {
    let mut interpreter = interpreter_for("+[-]");
    assert_eq!(interpreter.run(&[], 2).steps, 2);
    assert_eq!(interpreter.pc(), 2);
}

#[test]
fn unclosed_bracket_branches_to_the_start() {
    let mut interpreter = interpreter_for("+-[");
    assert_eq!(interpreter.run(&[], 3).steps, 3);
    assert_eq!(interpreter.pc(), 1);
}

#[test]
fn target_behind_the_end_halts_the_run() {
    let program = optimize_instructions(parse_bf_file("+-[.]").unwrap());
    assert_eq!(program[0], Instruction::JumpIfZero(4));
    assert!(targets_fit(&program));
    let mut interpreter = Interpreter::new(program);
    let outcome = interpreter.run(&[], 100);
    assert_eq!(outcome.steps, 1);
    assert!(interpreter.is_halted());
    assert_eq!(interpreter.pc(), 5);
    assert_eq!(outcome.emitted, vec![]);
}

#[test]
fn targets_fit_unless_one_is_the_largest_index() {
    assert!(targets_fit(&vec![]));
    assert!(targets_fit(&vec![
        Instruction::JumpIfZero(usize::MAX - 1),
        Instruction::JumpUnlessZero(0),
    ]));
    assert!(!targets_fit(&vec![
        Instruction::Increment,
        Instruction::JumpIfZero(usize::MAX),
    ]));
    assert!(!targets_fit(&vec![Instruction::JumpUnlessZero(usize::MAX)]));
}

#[test]
fn rewritten_program_without_branches_emits_the_same() {
    let source = "+++-->><<+.>+-+.<-+,.";
    let program = parse_bf_file(source).unwrap();
    let plain = Interpreter::new(program.clone()).run(&[5], 1_000).emitted;
    let rewritten = Interpreter::new(optimize_instructions(program)).run(&[5], 1_000).emitted;
    assert_eq!(plain, vec![2, 1, 5]);
    assert_eq!(rewritten, plain);
}
