use membrain::interpreter::Instruction;
use membrain::language::parse_bf_file;
use membrain::optimizer::optimize_instructions;

fn rewritten(source: &str) -> Vec<Instruction> {
    optimize_instructions(parse_bf_file(source).unwrap())
}

#[test]
fn opposite_moves_cancel() {
    assert_eq!(rewritten("><"), vec![]);
    assert_eq!(rewritten("<>"), vec![]);
}

#[test]
fn increment_and_decrement_cancel() {
    assert_eq!(rewritten("+-"), vec![]);
    assert_eq!(rewritten("-+"), vec![]);
}

#[test]
fn third_instruction_after_a_pair_is_kept() {
    assert_eq!(rewritten("+-+"), vec![Instruction::Increment]);
}

#[test]
fn instructions_around_a_dropped_pair_are_not_paired_again() {
    assert_eq!(
        rewritten("+><-"),
        vec![Instruction::Increment, Instruction::Decrement]
    );
}

#[test]
fn the_pass_pairs_from_the_left() {
    assert_eq!(rewritten("+-+-+"), vec![Instruction::Increment]);
    assert_eq!(rewritten("-+-"), vec![Instruction::Decrement]);
}

#[test]
fn equal_or_unrelated_neighbours_are_kept() {
    let kept = vec![
        Instruction::Increment,
        Instruction::Increment,
        Instruction::MoveRight,
        Instruction::Decrement,
        Instruction::MoveRight,
    ];
    assert_eq!(optimize_instructions(kept.clone()), kept);
}

#[test]
fn empty_program_stays_empty() {
    assert_eq!(optimize_instructions(vec![]), vec![]);
}

#[test]
fn single_instruction_is_kept() {
    assert_eq!(
        optimize_instructions(vec![Instruction::MoveLeft]),
        vec![Instruction::MoveLeft]
    );
}

#[test]
fn branches_and_io_pass_through() {
    assert_eq!(
        rewritten(",[.,]"),
        vec![
            Instruction::Read,
            Instruction::JumpIfZero(4),
            Instruction::Write,
            Instruction::Read,
            Instruction::JumpUnlessZero(1),
        ]
    );
}

#[test]
fn io_between_opposite_instructions_keeps_them() {
    assert_eq!(
        rewritten("+.-"),
        vec![
            Instruction::Increment,
            Instruction::Write,
            Instruction::Decrement
        ]
    );
}

#[test]
fn branch_targets_are_not_renumbered() {
    assert_eq!(
        rewritten("+-[.]"),
        vec![
            Instruction::JumpIfZero(4),
            Instruction::Write,
            Instruction::JumpUnlessZero(2),
        ]
    );
}

#[test]
fn the_pass_never_lengthens_a_program() {
    for source in ["", "+", "+-", "+><-", "[-+]", "><><><", "+[>+<-]."] {
        let program = parse_bf_file(source).unwrap();
        let before = program.len();
        assert!(optimize_instructions(program).len() <= before);
    }
}
