use crate::interpreter::{targets_below, Instruction, Machine};
use vstd::prelude::*;

verus! {

/// Two instructions that undo each other when one follows the other: a move
/// and the opposite move, or an increment and a decrement, in either order.
pub open spec fn cancels(first: Instruction, second: Instruction) -> bool {
    ||| first == Instruction::MoveRight && second == Instruction::MoveLeft
    ||| first == Instruction::MoveLeft && second == Instruction::MoveRight
    ||| first == Instruction::Increment && second == Instruction::Decrement
    ||| first == Instruction::Decrement && second == Instruction::Increment
}

/// One pass over `program` from its start. Where an instruction and the one
/// after it cancel, both are dropped and the pass goes on behind them; any
/// other instruction is kept. Instructions that a dropped pair stood
/// between are not looked at again.
pub open spec fn rewrite(program: Seq<Instruction>) -> Seq<Instruction>
    decreases program.len(),
{
    if program.len() == 0 {
        program
    } else if program.len() >= 2 && cancels(program[0], program[1]) {
        rewrite(program.skip(2))
    } else {
        seq![program[0]] + rewrite(program.skip(1))
    }
}

/// An instruction that is neither a move nor an increment or decrement: a
/// branch, a `Read` or a `Write`.
pub open spec fn is_branch_or_io(instruction: Instruction) -> bool {
    match instruction {
        Instruction::MoveRight => false,
        Instruction::MoveLeft => false,
        Instruction::Increment => false,
        Instruction::Decrement => false,
        _ => true,
    }
}

/// The branches and the I/O instructions of `program`, in order.
pub open spec fn branches_and_io(program: Seq<Instruction>) -> Seq<Instruction>
    decreases program.len(),
{
    if program.len() == 0 {
        program
    } else if is_branch_or_io(program[0]) {
        seq![program[0]] + branches_and_io(program.skip(1))
    } else {
        branches_and_io(program.skip(1))
    }
}

/// The pass never makes a program longer.
pub proof fn lemma_rewrite_shortens(program: Seq<Instruction>)
    ensures
        rewrite(program).len() <= program.len(),
    decreases program.len(),
{
    if program.len() >= 2 && cancels(program[0], program[1]) {
        lemma_rewrite_shortens(program.skip(2));
    } else if program.len() > 0 {
        lemma_rewrite_shortens(program.skip(1));
    }
}

/// The pass leaves every branch target as it was, so a bound on the targets
/// of a program still holds of what the pass makes of it. The bound is not
/// lowered with the length: a target may point behind the end of the
/// shorter program.
pub proof fn lemma_rewrite_keeps_targets(program: Seq<Instruction>, bound: int)
    requires
        targets_below(program, bound),
    ensures
        targets_below(rewrite(program), bound),
    decreases program.len(),
{
    if program.len() >= 2 && cancels(program[0], program[1]) {
        let rest = program.skip(2);
        assert forall|i: int| 0 <= i < rest.len() implies match #[trigger] rest[i] {
            Instruction::JumpIfZero(target) => target < bound,
            Instruction::JumpUnlessZero(target) => target < bound,
            _ => true,
        } by {
            assert(rest[i] == program[i + 2]);
        }
        lemma_rewrite_keeps_targets(rest, bound);
    } else if program.len() > 0 {
        let rest = program.skip(1);
        assert forall|i: int| 0 <= i < rest.len() implies match #[trigger] rest[i] {
            Instruction::JumpIfZero(target) => target < bound,
            Instruction::JumpUnlessZero(target) => target < bound,
            _ => true,
        } by {
            assert(rest[i] == program[i + 1]);
        }
        lemma_rewrite_keeps_targets(rest, bound);
        let kept = rewrite(rest);
        let whole = seq![program[0]] + kept;
        assert forall|i: int| 0 <= i < whole.len() implies match #[trigger] whole[i] {
            Instruction::JumpIfZero(target) => target < bound,
            Instruction::JumpUnlessZero(target) => target < bound,
            _ => true,
        } by {
            if i == 0 {
                assert(whole[0] == program[0]);
            } else {
                assert(whole[i] == kept[i - 1]);
            }
        }
    }
}

/// Branches and I/O instructions are never part of a dropped pair: the pass
/// keeps every one of them, in order.
pub proof fn lemma_rewrite_keeps_branches_and_io(program: Seq<Instruction>)
    ensures
        branches_and_io(rewrite(program)) == branches_and_io(program),
    decreases program.len(),
{
    if program.len() >= 2 && cancels(program[0], program[1]) {
        lemma_rewrite_keeps_branches_and_io(program.skip(2));
        let tail = program.skip(1);
        assert(tail.skip(1) =~= program.skip(2));
        assert(tail[0] == program[1]);
        assert(branches_and_io(tail) == branches_and_io(tail.skip(1)));
        assert(branches_and_io(program) == branches_and_io(tail));
    } else if program.len() > 0 {
        lemma_rewrite_keeps_branches_and_io(program.skip(1));
        let whole = seq![program[0]] + rewrite(program.skip(1));
        assert(whole.skip(1) =~= rewrite(program.skip(1)));
        assert(whole[0] == program[0]);
    }
}

/// A pair that cancels does nothing that a program can observe. After both
/// instructions were dispatched the machine stands behind the pair, has
/// emitted nothing, and finds every cell where it was, seen from the tape
/// pointer. At most the tape has grown by one zero cell at one end.
pub proof fn lemma_cancelling_pair_changes_no_cell(
    machine: Machine,
    first_input: Option<u8>,
    second_input: Option<u8>,
)
    requires
        machine.wf(),
        machine.pc + 1 < machine.program.len(),
        cancels(machine.program[machine.pc as int], machine.program[machine.pc + 1int]),
    ensures
        ({
            let between = machine.step(first_input);
            let after = between.step(second_input);
            &&& machine.output() is None
            &&& between.output() is None
            &&& after.wf()
            &&& after.program == machine.program
            &&& after.pc == machine.pc + 2
            &&& after.tape.len() <= machine.tape.len() + 1
            &&& forall|offset: int| after.cell_at(offset) == machine.cell_at(offset)
        }),
{
    let between = machine.step(first_input);
    let after = between.step(second_input);
    assert(between.current() == machine.program[machine.pc + 1int]);
    assert forall|offset: int| after.cell_at(offset) == machine.cell_at(offset) by {
        let index = machine.pointer + offset;
        match machine.current() {
            Instruction::MoveRight => {
                // Back on the cell it left; the tape may hold one more
                // zero cell at its right end.
                if 0 <= index < machine.tape.len() {
                    assert(after.tape[index] == machine.tape[index]);
                }
            },
            Instruction::MoveLeft => {
                // From the left end the tape grew there, and every old
                // cell moved one place right, as the pointer did.
                if machine.pointer == 0 {
                    assert(after.tape == machine.tape.insert(0, 0u8));
                    if 0 <= index < machine.tape.len() {
                        assert(after.tape[index + 1] == machine.tape[index]);
                    }
                }
            },
            _ => {
                // One added and one taken away, wrapping both ways.
                assert(after.tape =~= machine.tape);
            },
        }
    }
}

/// Whether `second` right after `first` undoes it.
fn is_cancelling_pair(first: Instruction, second: Instruction) -> (cancelling: bool)
    ensures
        cancelling == cancels(first, second),
{
    match first {
        Instruction::MoveRight => second == Instruction::MoveLeft,
        Instruction::MoveLeft => second == Instruction::MoveRight,
        Instruction::Increment => second == Instruction::Decrement,
        Instruction::Decrement => second == Instruction::Increment,
        _ => false,
    }
}

/// Drops pairs of neighbouring instructions that cancel, in one pass.
///
/// Branch targets are left as they are, also where instructions before the
/// target were dropped.
pub fn optimize_instructions(instructions: Vec<Instruction>) -> (optimized: Vec<Instruction>)
    ensures
        optimized@ == rewrite(instructions@),
        optimized@.len() <= instructions@.len(),
        forall|bound: int|
            targets_below(instructions@, bound) ==> #[trigger] targets_below(optimized@, bound),
{
    let mut optimized: Vec<Instruction> = Vec::with_capacity(instructions.len());
    let mut i: usize = 0;
    assert(instructions@.skip(0) =~= instructions@);
    assert(optimized@ + rewrite(instructions@) =~= rewrite(instructions@));
    while i < instructions.len()
        invariant
            i <= instructions.len(),
            optimized@ + rewrite(instructions@.skip(i as int)) == rewrite(instructions@),
        decreases instructions.len() - i,
    {
        let ghost rest = instructions@.skip(i as int);
        let instruction: Instruction = instructions[i];
        if i + 1 < instructions.len() && is_cancelling_pair(instruction, instructions[i + 1]) {
            assert(rest.skip(2) =~= instructions@.skip(i + 2));
            i = i + 2;
        } else {
            assert(rest.skip(1) =~= instructions@.skip(i + 1));
            assert(optimized@.push(instruction) + rewrite(rest.skip(1)) =~= optimized@ + (
                seq![instruction] + rewrite(rest.skip(1))));
            optimized.push(instruction);
            i = i + 1;
        }
    }
    proof {
        assert(optimized@ + Seq::<Instruction>::empty() =~= optimized@);
        lemma_rewrite_shortens(instructions@);
        assert forall|bound: int| targets_below(instructions@, bound) implies #[trigger] targets_below(
            optimized@,
            bound,
        ) by {
            lemma_rewrite_keeps_targets(instructions@, bound);
        }
    }
    optimized
}

} // verus!
