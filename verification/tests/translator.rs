use membrain::interpreter::Instruction;
use membrain::language::{parse_bf_file, ParseError};

fn unmatched(line: usize, column: usize) -> Result<Vec<Instruction>, ParseError> {
    Err(ParseError::UnmatchedCloseBracket { line, column })
}

#[test]
fn plus_is_a_single_increment() {
    assert_eq!(parse_bf_file("+"), Ok(vec![Instruction::Increment]));
}

#[test]
fn each_command_has_its_instruction() {
    assert_eq!(
        parse_bf_file("><+-.,"),
        Ok(vec![
            Instruction::MoveRight,
            Instruction::MoveLeft,
            Instruction::Increment,
            Instruction::Decrement,
            Instruction::Write,
            Instruction::Read,
        ])
    );
}

#[test]
fn empty_text_is_the_empty_program() {
    assert_eq!(parse_bf_file(""), Ok(vec![]));
}

#[test]
fn text_without_commands_is_the_empty_program() {
    assert_eq!(parse_bf_file("no commands here\n"), Ok(vec![]));
}

#[test]
fn brackets_of_a_pair_name_each_other() {
    assert_eq!(
        parse_bf_file("[]"),
        Ok(vec![Instruction::JumpIfZero(1), Instruction::JumpUnlessZero(0)])
    );
}

#[test]
fn nested_brackets_are_paired_inside_out() {
    assert_eq!(
        parse_bf_file("+[>[-]<]"),
        Ok(vec![
            Instruction::Increment,
            Instruction::JumpIfZero(7),
            Instruction::MoveRight,
            Instruction::JumpIfZero(5),
            Instruction::Decrement,
            Instruction::JumpUnlessZero(3),
            Instruction::MoveLeft,
            Instruction::JumpUnlessZero(1),
        ])
    );
}

#[test]
fn neighbouring_loops_are_paired_one_by_one() {
    assert_eq!(
        parse_bf_file("[][]"),
        Ok(vec![
            Instruction::JumpIfZero(1),
            Instruction::JumpUnlessZero(0),
            Instruction::JumpIfZero(3),
            Instruction::JumpUnlessZero(2),
        ])
    );
}

#[test]
fn targets_count_instructions_not_characters() {
    assert_eq!(
        parse_bf_file("a [ b\n ] c"),
        Ok(vec![Instruction::JumpIfZero(1), Instruction::JumpUnlessZero(0)])
    );
}

#[test]
fn every_target_is_inside_the_program() {
    let program = parse_bf_file("++[>+[>+<-]<-]>>[.-]").unwrap();
    for instruction in &program {
        match instruction {
            Instruction::JumpIfZero(target) | Instruction::JumpUnlessZero(target) => {
                assert!(*target < program.len())
            }
            _ => {}
        }
    }
}

#[test]
fn close_bracket_alone_is_unmatched_at_the_origin() {
    assert_eq!(parse_bf_file("]"), unmatched(0, 0));
}

#[test]
fn unmatched_close_bracket_is_placed_by_line_and_column() {
    assert_eq!(parse_bf_file("+-\n  ]"), unmatched(1, 2));
    assert_eq!(parse_bf_file("[]\n\n+]+"), unmatched(2, 1));
}

#[test]
fn the_first_unmatched_close_bracket_is_reported() {
    assert_eq!(parse_bf_file("[]] ]\n]"), unmatched(0, 2));
}

#[test]
fn close_bracket_after_a_closed_loop_is_unmatched() {
    assert_eq!(parse_bf_file("[[]]]"), unmatched(0, 4));
}

#[test]
fn columns_count_characters_not_bytes() {
    assert_eq!(parse_bf_file("\u{e9}\u{4e16}]"), unmatched(0, 2));
}

#[test]
fn carriage_return_before_a_line_break_moves_no_later_column() {
    assert_eq!(parse_bf_file("+\r\n]"), unmatched(1, 0));
}

#[test]
fn open_bracket_that_is_never_closed_keeps_target_zero() {
    assert_eq!(parse_bf_file("["), Ok(vec![Instruction::JumpIfZero(0)]));
    assert_eq!(
        parse_bf_file("+[[-]"),
        Ok(vec![
            Instruction::Increment,
            Instruction::JumpIfZero(0),
            Instruction::JumpIfZero(4),
            Instruction::Decrement,
            Instruction::JumpUnlessZero(2),
        ])
    );
}

#[test]
fn other_characters_are_transparent() {
    assert_eq!(parse_bf_file("a+b"), parse_bf_file("+"));
    assert_eq!(
        parse_bf_file("loop: [ body - ] done\n"),
        parse_bf_file("[-]")
    );
}
