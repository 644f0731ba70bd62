use crate::interpreter::{targets_below, Instruction, Machine};
use vstd::prelude::*;

verus! {

/// Why a source text has no program.
#[derive(Clone, Copy, Debug, PartialEq, Eq, Structural)]
pub enum ParseError {
    /// A `]` was met while no `[` was pending. `line` is the number of line
    /// breaks before it, `column` the number of characters between it and
    /// the last line break before it (or the start of the text).
    UnmatchedCloseBracket { line: usize, column: usize },
}

/// The eight characters that stand for an instruction. Every other
/// character is a comment.
pub open spec fn is_command(c: char) -> bool {
    c == '>' || c == '<' || c == '+' || c == '-' || c == '.' || c == ',' || c == '[' || c == ']'
}

/// The commands of `source`, in order, with everything else left out.
pub open spec fn commands(source: Seq<char>) -> Seq<char>
    decreases source.len(),
{
    if source.len() == 0 {
        Seq::empty()
    } else if is_command(source.last()) {
        commands(source.drop_last()).push(source.last())
    } else {
        commands(source.drop_last())
    }
}

/// By how much a character changes the nesting depth.
pub open spec fn nesting_change(c: char) -> int {
    if c == '[' {
        1
    } else if c == ']' {
        -1
    } else {
        0
    }
}

/// The nesting depth after the first `k` characters of `text`: the number of
/// `[` among them minus the number of `]`.
pub open spec fn depth(text: Seq<char>, k: int) -> int
    decreases k,
{
    if k <= 0 {
        0
    } else {
        depth(text, k - 1) + nesting_change(text[k - 1])
    }
}

/// The first index at or after `from` whose character leaves the nesting
/// depth at `level`.
pub open spec fn first_reaching(text: Seq<char>, level: int, from: int) -> Option<int>
    decreases text.len() - from,
{
    if from < 0 || from >= text.len() {
        None
    } else if depth(text, from + 1) == level {
        Some(from)
    } else {
        first_reaching(text, level, from + 1)
    }
}

/// The last index below `before` whose character is met at nesting depth
/// `level`; 0 if there is none.
pub open spec fn last_at_level(text: Seq<char>, level: int, before: int) -> int
    decreases before,
{
    if before <= 0 {
        0
    } else if depth(text, before - 1) == level {
        before - 1
    } else {
        last_at_level(text, level, before - 1)
    }
}

/// The `]` that closes the `[` at index `open`: the first character after it
/// that brings the nesting depth back to what it was before the `[`.
pub open spec fn matching_close(cmds: Seq<char>, open: int) -> Option<int> {
    first_reaching(cmds, depth(cmds, open), open + 1)
}

/// The `[` that the `]` at index `close` closes: the last character before it
/// that was met at the nesting depth which the `]` leaves.
pub open spec fn matching_open(cmds: Seq<char>, close: int) -> int {
    last_at_level(cmds, depth(cmds, close + 1), close)
}

/// The instruction for the command at index `i` of `cmds`. A `[` branches to
/// the `]` that closes it, or to 0 if nothing closes it; a `]` branches to
/// the `[` that it closes.
pub open spec fn instruction_at(cmds: Seq<char>, i: int) -> Instruction {
    let c = cmds[i];
    if c == '>' {
        Instruction::MoveRight
    } else if c == '<' {
        Instruction::MoveLeft
    } else if c == '+' {
        Instruction::Increment
    } else if c == '-' {
        Instruction::Decrement
    } else if c == '.' {
        Instruction::Write
    } else if c == ',' {
        Instruction::Read
    } else if c == '[' {
        Instruction::JumpIfZero(
            match matching_close(cmds, i) {
                Some(close) => close as usize,
                None => 0,
            },
        )
    } else {
        Instruction::JumpUnlessZero(matching_open(cmds, i) as usize)
    }
}

/// The program for a sequence of commands: one instruction for each.
pub open spec fn assemble(cmds: Seq<char>) -> Seq<Instruction> {
    Seq::new(cmds.len(), |i: int| instruction_at(cmds, i))
}

/// The number of line breaks among the first `at` characters of `text`.
pub open spec fn line_of(text: Seq<char>, at: int) -> nat
    decreases at,
{
    if at <= 0 {
        0
    } else if text[at - 1] == '\n' {
        line_of(text, at - 1) + 1
    } else {
        line_of(text, at - 1)
    }
}

/// The number of characters between index `at` of `text` and the last line
/// break before it, or the start of `text` if there is none.
pub open spec fn column_of(text: Seq<char>, at: int) -> nat
    decreases at,
{
    if at <= 0 || text[at - 1] == '\n' {
        0
    } else {
        column_of(text, at - 1) + 1
    }
}

/// What a source text translates to.
///
/// A text in which some `]` has no `[` pending has no program: the error
/// gives the place of the first such `]`. Any other text translates to the
/// program of its commands. A `[` that is never closed is no error.
pub open spec fn translate(source: Seq<char>) -> Result<Seq<Instruction>, ParseError> {
    match first_reaching(source, -1, 0) {
        Some(at) => Err(
            ParseError::UnmatchedCloseBracket {
                line: line_of(source, at) as usize,
                column: column_of(source, at) as usize,
            },
        ),
        None => Ok(assemble(commands(source))),
    }
}

/// The `[` at `open` and the `]` at `close` belong together: the depth comes
/// back to its value before `open` right after `close`, and not earlier.
pub open spec fn is_pair(cmds: Seq<char>, open: int, close: int) -> bool {
    &&& 0 <= open < close < cmds.len()
    &&& cmds[open] == '['
    &&& cmds[close] == ']'
    &&& depth(cmds, close + 1) == depth(cmds, open)
    &&& forall|k: int| open < k <= close ==> #[trigger] depth(cmds, k) > depth(cmds, open)
}

/// The search for a character that leaves the depth at `level` may start
/// later, behind characters that leave it elsewhere.
proof fn lemma_first_reaching_skip(text: Seq<char>, level: int, from: int, to: int)
    requires
        0 <= from <= to,
        forall|k: int| from < k <= to ==> #[trigger] depth(text, k) != level,
    ensures
        first_reaching(text, level, from) == first_reaching(text, level, to),
    decreases to - from,
{
    if from < to {
        if from < text.len() {
            lemma_first_reaching_skip(text, level, from + 1, to);
        } else {
            assert(first_reaching(text, level, to) is None);
        }
    }
}

/// Where no later character leaves the depth at `level`, the search finds
/// none.
proof fn lemma_first_reaching_none(text: Seq<char>, level: int, from: int)
    requires
        0 <= from,
        forall|k: int| from < k <= text.len() ==> #[trigger] depth(text, k) != level,
    ensures
        first_reaching(text, level, from) is None,
    decreases text.len() - from,
{
    if from < text.len() {
        lemma_first_reaching_none(text, level, from + 1);
    }
}

/// The search for the last character met at `level` may start earlier,
/// before characters that are met elsewhere.
proof fn lemma_last_at_level_skip(text: Seq<char>, level: int, from: int, before: int)
    requires
        0 <= from <= before,
        forall|k: int| from <= k < before ==> #[trigger] depth(text, k) != level,
    ensures
        last_at_level(text, level, before) == last_at_level(text, level, from),
    decreases before - from,
{
    if from < before {
        lemma_last_at_level_skip(text, level, from, before - 1);
    }
}

/// In a pair, each bracket is what the other one matches.
pub proof fn lemma_pair_matches(cmds: Seq<char>, open: int, close: int)
    requires
        is_pair(cmds, open, close),
    ensures
        matching_close(cmds, open) == Some(close),
        matching_open(cmds, close) == open,
{
    let level = depth(cmds, open);
    lemma_first_reaching_skip(cmds, level, open + 1, close);
    lemma_last_at_level_skip(cmds, level, open + 1, close);
}

/// The instruction for a command that is no bracket.
spec fn plain_instruction(c: char) -> Instruction {
    if c == '>' {
        Instruction::MoveRight
    } else if c == '<' {
        Instruction::MoveLeft
    } else if c == '+' {
        Instruction::Increment
    } else if c == '-' {
        Instruction::Decrement
    } else if c == '.' {
        Instruction::Write
    } else {
        Instruction::Read
    }
}

/// Entry `level` of the stack is a `[` among the first `done` commands that
/// was met at depth `level` and is still open after them.
spec fn pending(cmds: Seq<char>, stack: Seq<usize>, done: int, level: int) -> bool {
    let open = stack[level] as int;
    &&& 0 <= open < done
    &&& cmds[open] == '['
    &&& depth(cmds, open) == level
    &&& forall|k: int| open < k <= done ==> #[trigger] depth(cmds, k) > level
}

/// Instruction `t` is right for the first `done` commands: a bracket whose
/// partner is among them branches to it, and a `[` that is still open is on
/// the stack and branches to 0.
spec fn settled(
    cmds: Seq<char>,
    instructions: Seq<Instruction>,
    stack: Seq<usize>,
    done: int,
    t: int,
) -> bool {
    let c = cmds[t];
    if c == '[' {
        instructions[t] matches Instruction::JumpIfZero(target) && ({
            ||| (target == 0 && 0 <= depth(cmds, t) < stack.len() && stack[depth(cmds, t)] == t)
            ||| (target < done && is_pair(cmds, t, target as int))
        })
    } else if c == ']' {
        instructions[t] matches Instruction::JumpUnlessZero(target) && is_pair(
            cmds,
            target as int,
            t,
        )
    } else {
        is_command(c) && instructions[t] == plain_instruction(c)
    }
}

/// What holds of the instructions and of the stack of open brackets after as
/// many commands of `cmds` as there are instructions.
spec fn scanned(cmds: Seq<char>, instructions: Seq<Instruction>, stack: Seq<usize>) -> bool {
    let done = instructions.len() as int;
    &&& done <= cmds.len()
    &&& depth(cmds, done) == stack.len()
    &&& forall|level: int| 0 <= level < stack.len() ==> #[trigger] pending(cmds, stack, done, level)
    &&& forall|t: int| 0 <= t < done ==> #[trigger] settled(cmds, instructions, stack, done, t)
}

/// The scan goes on over a command that is no bracket.
proof fn lemma_scan_plain(cmds: Seq<char>, instructions: Seq<Instruction>, stack: Seq<usize>)
    requires
        scanned(cmds, instructions, stack),
        instructions.len() < cmds.len(),
        is_command(cmds[instructions.len() as int]),
        cmds[instructions.len() as int] != '[',
        cmds[instructions.len() as int] != ']',
    ensures
        scanned(cmds, instructions.push(plain_instruction(cmds[instructions.len() as int])), stack),
{
    let done = instructions.len() as int;
    let next = instructions.push(plain_instruction(cmds[done]));
    assert forall|level: int| 0 <= level < stack.len() implies #[trigger] pending(
        cmds,
        stack,
        done + 1,
        level,
    ) by {
        assert(pending(cmds, stack, done, level));
    }
    assert forall|t: int| 0 <= t < done + 1 implies #[trigger] settled(
        cmds,
        next,
        stack,
        done + 1,
        t,
    ) by {
        if t < done {
            assert(settled(cmds, instructions, stack, done, t));
        }
    }
}

/// The scan goes on over a `[`, which is pushed on the stack.
proof fn lemma_scan_open(cmds: Seq<char>, instructions: Seq<Instruction>, stack: Seq<usize>)
    requires
        scanned(cmds, instructions, stack),
        instructions.len() < cmds.len(),
        instructions.len() <= usize::MAX,
        cmds[instructions.len() as int] == '[',
    ensures
        scanned(
            cmds,
            instructions.push(Instruction::JumpIfZero(0)),
            stack.push(instructions.len() as usize),
        ),
{
    let done = instructions.len() as int;
    let next = instructions.push(Instruction::JumpIfZero(0));
    let opened = stack.push(done as usize);
    assert forall|level: int| 0 <= level < opened.len() implies #[trigger] pending(
        cmds,
        opened,
        done + 1,
        level,
    ) by {
        if level < stack.len() {
            assert(pending(cmds, stack, done, level));
        }
    }
    assert forall|t: int| 0 <= t < done + 1 implies #[trigger] settled(
        cmds,
        next,
        opened,
        done + 1,
        t,
    ) by {
        if t < done {
            assert(settled(cmds, instructions, stack, done, t));
        }
    }
}

/// The scan goes on over a `]` that closes the `[` on top of the stack.
proof fn lemma_scan_close(cmds: Seq<char>, instructions: Seq<Instruction>, stack: Seq<usize>)
    requires
        scanned(cmds, instructions, stack),
        instructions.len() < cmds.len(),
        instructions.len() <= usize::MAX,
        cmds[instructions.len() as int] == ']',
        stack.len() > 0,
    ensures
        stack.last() < instructions.len(),
        scanned(
            cmds,
            instructions.push(Instruction::JumpUnlessZero(stack.last())).update(
                stack.last() as int,
                Instruction::JumpIfZero(instructions.len() as usize),
            ),
            stack.drop_last(),
        ),
{
    let done = instructions.len() as int;
    let top = stack.len() - 1;
    let open = stack.last() as int;
    let next = instructions.push(Instruction::JumpUnlessZero(stack.last())).update(
        open,
        Instruction::JumpIfZero(done as usize),
    );
    let rest = stack.drop_last();
    assert(pending(cmds, stack, done, top));
    assert(is_pair(cmds, open, done));
    assert forall|level: int| 0 <= level < rest.len() implies #[trigger] pending(
        cmds,
        rest,
        done + 1,
        level,
    ) by {
        assert(pending(cmds, stack, done, level));
    }
    assert forall|t: int| 0 <= t < done + 1 implies #[trigger] settled(
        cmds,
        next,
        rest,
        done + 1,
        t,
    ) by {
        if t < done && t != open {
            assert(settled(cmds, instructions, stack, done, t));
        }
    }
}

/// Once every command is scanned, the instructions are the program of the
/// commands. What is left on the stack was never closed.
proof fn lemma_scan_complete(cmds: Seq<char>, instructions: Seq<Instruction>, stack: Seq<usize>)
    requires
        scanned(cmds, instructions, stack),
        instructions.len() == cmds.len(),
    ensures
        instructions == assemble(cmds),
{
    let done = cmds.len() as int;
    assert forall|t: int| 0 <= t < done implies instructions[t] == instruction_at(cmds, t) by {
        assert(settled(cmds, instructions, stack, done, t));
        let c = cmds[t];
        if c == '[' {
            let target = instructions[t]->JumpIfZero_0;
            if target < done && is_pair(cmds, t, target as int) {
                lemma_pair_matches(cmds, t, target as int);
            } else {
                assert(pending(cmds, stack, done, depth(cmds, t)));
                lemma_first_reaching_none(cmds, depth(cmds, t), t + 1);
            }
        } else if c == ']' {
            let target = instructions[t]->JumpUnlessZero_0;
            lemma_pair_matches(cmds, target as int, t);
        }
    }
    assert(instructions =~= assemble(cmds));
}

/// The commands of a prefix of `source` are a prefix of its commands.
proof fn lemma_commands_prefix(source: Seq<char>, i: int)
    requires
        0 <= i <= source.len(),
    ensures
        commands(source.take(i)).len() <= commands(source).len(),
        commands(source.take(i)) == commands(source).take(commands(source.take(i)).len() as int),
    decreases source.len(),
{
    if i == source.len() {
        assert(source.take(i) =~= source);
        assert(commands(source).take(commands(source).len() as int) =~= commands(source));
    } else {
        let shorter = source.drop_last();
        assert(source.take(i) =~= shorter.take(i));
        lemma_commands_prefix(shorter, i);
        let count = commands(shorter.take(i)).len() as int;
        assert(commands(shorter).take(count) =~= commands(source).take(count));
    }
}

/// How the commands of a prefix grow with the prefix.
proof fn lemma_commands_step(source: Seq<char>, i: int)
    requires
        0 <= i < source.len(),
    ensures
        commands(source.take(i)).len() <= commands(source).len(),
        is_command(source[i]) ==> {
            &&& commands(source.take(i)).len() < commands(source).len()
            &&& commands(source)[commands(source.take(i)).len() as int] == source[i]
            &&& commands(source.take(i + 1)).len() == commands(source.take(i)).len() + 1
        },
        !is_command(source[i]) ==> commands(source.take(i + 1)).len() == commands(
            source.take(i),
        ).len(),
{
    let longer = source.take(i + 1);
    assert(longer.drop_last() =~= source.take(i));
    assert(longer.last() == source[i]);
    lemma_commands_prefix(source, i);
    lemma_commands_prefix(source, i + 1);
    if is_command(source[i]) {
        let count = commands(source.take(i)).len() as int;
        assert(commands(longer)[count] == source[i]);
        assert(commands(source).take(count + 1)[count] == commands(source)[count]);
    }
}

/// What the search for a character that leaves the depth at `level` finds
/// is the first such character.
proof fn lemma_first_reaching_found(text: Seq<char>, level: int, from: int)
    requires
        0 <= from,
        first_reaching(text, level, from) is Some,
    ensures
        from <= first_reaching(text, level, from)->0 < text.len(),
        depth(text, first_reaching(text, level, from)->0 + 1) == level,
        forall|k: int|
            from < k <= first_reaching(text, level, from)->0 ==> #[trigger] depth(text, k) != level,
    decreases text.len() - from,
{
    if depth(text, from + 1) != level {
        lemma_first_reaching_found(text, level, from + 1);
    }
}

/// The search for the last character met at `level` stays below where it
/// started.
proof fn lemma_last_at_level_below(text: Seq<char>, level: int, before: int)
    ensures
        0 <= last_at_level(text, level, before),
        before > 0 ==> last_at_level(text, level, before) < before,
    decreases before,
{
    if before > 0 && depth(text, before - 1) != level {
        lemma_last_at_level_below(text, level, before - 1);
    }
}

/// Below a depth that is above `level`, the last index met at `level` exists,
/// and the depth stays above `level` from there on.
proof fn lemma_last_at_level_found(text: Seq<char>, level: int, before: int)
    requires
        0 <= level < depth(text, before),
    ensures
        0 <= last_at_level(text, level, before) < before,
        depth(text, last_at_level(text, level, before)) == level,
        forall|k: int|
            last_at_level(text, level, before) < k <= before ==> #[trigger] depth(text, k) > level,
    decreases before,
{
    if depth(text, before - 1) != level {
        lemma_last_at_level_found(text, level, before - 1);
    }
}

/// A depth that starts above `level` and never equals it stays above it.
proof fn lemma_stays_above(text: Seq<char>, level: int, from: int, to: int)
    requires
        0 <= from <= to,
        depth(text, from) > level,
        forall|k: int| from < k <= to ==> #[trigger] depth(text, k) != level,
    ensures
        forall|k: int| from <= k <= to ==> #[trigger] depth(text, k) > level,
    decreases to - from,
{
    if from < to {
        lemma_stays_above(text, level, from, to - 1);
        assert(depth(text, to - 1) > level);
    }
}

/// The nesting depth after `k` characters depends on those characters only.
proof fn lemma_depth_of_prefix(a: Seq<char>, b: Seq<char>, k: int)
    requires
        0 <= k <= a.len(),
        k <= b.len(),
        forall|j: int| 0 <= j < k ==> a[j] == b[j],
    ensures
        depth(a, k) == depth(b, k),
    decreases k,
{
    if k > 0 {
        lemma_depth_of_prefix(a, b, k - 1);
    }
}

/// Comments do not change the nesting depth.
proof fn lemma_depth_of_commands(source: Seq<char>, i: int)
    requires
        0 <= i <= source.len(),
    ensures
        commands(source.take(i)).len() <= commands(source).len(),
        depth(source, i) == depth(commands(source), commands(source.take(i)).len() as int),
    decreases i,
{
    if i == 0 {
        assert(source.take(0) =~= Seq::<char>::empty());
    } else {
        lemma_depth_of_commands(source, i - 1);
        lemma_commands_step(source, i - 1);
    }
}

/// Where no character leaves the depth at -1, the depth is never negative.
proof fn lemma_never_negative(text: Seq<char>, k: int)
    requires
        first_reaching(text, -1, 0) is None,
        0 <= k <= text.len(),
    ensures
        depth(text, k) >= 0,
        first_reaching(text, -1, k) is None,
    decreases k,
{
    if k > 0 {
        lemma_never_negative(text, k - 1);
    }
}

/// Where the depth of a text is never negative, neither is that of its
/// commands.
proof fn lemma_commands_never_negative(source: Seq<char>)
    requires
        forall|i: int| 0 <= i <= source.len() ==> #[trigger] depth(source, i) >= 0,
    ensures
        forall|k: int| 0 <= k <= commands(source).len() ==> #[trigger] depth(commands(source), k) >= 0,
    decreases source.len(),
{
    if source.len() > 0 {
        let shorter = source.drop_last();
        assert forall|i: int| 0 <= i <= shorter.len() implies #[trigger] depth(shorter, i) >= 0 by {
            lemma_depth_of_prefix(shorter, source, i);
            assert(depth(source, i) >= 0);
        }
        lemma_commands_never_negative(shorter);
        assert forall|k: int| 0 <= k <= commands(source).len() implies #[trigger] depth(
            commands(source),
            k,
        ) >= 0 by {
            if k <= commands(shorter).len() {
                lemma_depth_of_prefix(commands(shorter), commands(source), k);
                assert(depth(commands(shorter), k) >= 0);
            } else {
                assert(source.take(source.len() as int) =~= source);
                lemma_depth_of_commands(source, source.len() as int);
                assert(depth(source, source.len() as int) >= 0);
            }
        }
    }
}

/// Whether some `]` closes nothing is decided by the commands alone.
proof fn lemma_nesting_by_commands(source: Seq<char>)
    ensures
        first_reaching(source, -1, 0) is None <==> first_reaching(commands(source), -1, 0) is None,
{
    let cmds = commands(source);
    if first_reaching(source, -1, 0) is None {
        assert forall|i: int| 0 <= i <= source.len() implies #[trigger] depth(source, i) >= 0 by {
            lemma_never_negative(source, i);
        }
        lemma_commands_never_negative(source);
        lemma_first_reaching_none(cmds, -1, 0);
    }
    if first_reaching(cmds, -1, 0) is None {
        assert forall|i: int| 0 < i <= source.len() implies #[trigger] depth(source, i) != -1 by {
            lemma_depth_of_commands(source, i);
            lemma_never_negative(cmds, commands(source.take(i)).len() as int);
        }
        lemma_first_reaching_none(source, -1, 0);
    }
}

/// Every branch of a program stays inside the program.
pub proof fn lemma_targets_in_range(cmds: Seq<char>)
    ensures
        targets_below(assemble(cmds), cmds.len() as int),
{
    let program = assemble(cmds);
    assert forall|i: int| 0 <= i < program.len() implies match #[trigger] program[i] {
        Instruction::JumpIfZero(target) => target < cmds.len(),
        Instruction::JumpUnlessZero(target) => target < cmds.len(),
        _ => true,
    } by {
        if cmds[i] == '[' {
            if matching_close(cmds, i) is Some {
                lemma_first_reaching_found(cmds, depth(cmds, i), i + 1);
            }
        } else {
            lemma_last_at_level_below(cmds, depth(cmds, i + 1), i);
        }
    }
}

/// In the program of a text that translates, the brackets of a pair name
/// each other. A `]` at index `i` branches to a `[` before it, and that `[`
/// branches to `i`. A `[` at index `i` branches to 0 if nothing closes it;
/// otherwise it branches to a `]` after it, and that `]` branches to `i`.
pub proof fn lemma_branches_name_each_other(source: Seq<char>, i: int)
    requires
        translate(source) is Ok,
        commands(source).len() <= usize::MAX,
        0 <= i < commands(source).len(),
    ensures
        ({
            let program = assemble(commands(source));
            &&& program[i] matches Instruction::JumpUnlessZero(open) ==> open < i && program[open as int]
                == Instruction::JumpIfZero(i as usize)
            &&& program[i] matches Instruction::JumpIfZero(close) ==> close == 0 || (i < close
                < program.len() && program[close as int] == Instruction::JumpUnlessZero(i as usize))
        }),
{
    let cmds = commands(source);
    lemma_nesting_by_commands(source);
    assert forall|k: int| 0 <= k <= cmds.len() implies #[trigger] depth(cmds, k) >= 0 by {
        lemma_never_negative(cmds, k);
    }
    if cmds[i] == '[' {
        if matching_close(cmds, i) is Some {
            let level = depth(cmds, i);
            let close = matching_close(cmds, i)->0;
            lemma_first_reaching_found(cmds, level, i + 1);
            lemma_stays_above(cmds, level, i + 1, close);
            assert(depth(cmds, close) > level);
            assert(is_pair(cmds, i, close));
            lemma_pair_matches(cmds, i, close);
        }
    } else if cmds[i] == ']' {
        let level = depth(cmds, i + 1);
        assert(depth(cmds, i) >= 0);
        assert(level >= 0);
        lemma_last_at_level_found(cmds, level, i);
        let open = matching_open(cmds, i);
        assert(depth(cmds, open + 1) > level);
        assert(is_pair(cmds, open, i));
        lemma_pair_matches(cmds, open, i);
    } else {
        lemma_commands_are_commands(source, i);
    }
}

/// In the program of a text that translates, a branch that is taken goes on
/// right behind the other bracket of its pair: the increment of the program
/// counter that follows every dispatch carries it past the target. So a `[`
/// on a zero cell leaves its loop, and a `]` on another cell starts the body
/// of its loop again.
pub proof fn lemma_taken_branch_passes_its_partner(
    source: Seq<char>,
    machine: Machine,
    input: Option<u8>,
)
    requires
        translate(source) == Ok::<Seq<Instruction>, ParseError>(machine.program),
        machine.program.len() <= usize::MAX,
        !machine.halted(),
    ensures
        machine.current() matches Instruction::JumpIfZero(close) ==> {
            &&& machine.cell() != 0 ==> machine.step(input).pc == machine.pc + 1
            &&& machine.cell() == 0 ==> machine.step(input).pc == close + 1
            &&& close != 0 ==> machine.pc < close < machine.program.len()
                && machine.program[close as int] == Instruction::JumpUnlessZero(machine.pc as usize)
        },
        machine.current() matches Instruction::JumpUnlessZero(open) ==> {
            &&& machine.cell() == 0 ==> machine.step(input).pc == machine.pc + 1
            &&& machine.cell() != 0 ==> machine.step(input).pc == open + 1
            &&& open < machine.pc
            &&& machine.program[open as int] == Instruction::JumpIfZero(machine.pc as usize)
        },
{
    lemma_branches_name_each_other(source, machine.pc as int);
}

/// Only commands are among the commands of a text.
proof fn lemma_commands_are_commands(source: Seq<char>, i: int)
    requires
        0 <= i < commands(source).len(),
    ensures
        is_command(commands(source)[i]),
    decreases source.len(),
{
    if source.len() > 0 {
        if i < commands(source.drop_last()).len() {
            lemma_commands_are_commands(source.drop_last(), i);
        }
    }
}

/// Characters that are no commands are transparent: of two texts with the
/// same commands, either both translate, and to the same program, or
/// neither does.
pub proof fn lemma_comments_are_ignored(a: Seq<char>, b: Seq<char>)
    requires
        commands(a) == commands(b),
    ensures
        translate(a) is Ok <==> translate(b) is Ok,
        translate(a) is Ok ==> translate(a) == translate(b),
{
    lemma_nesting_by_commands(a);
    lemma_nesting_by_commands(b);
}

/// The characters of `source`, in a vector.
fn characters(source: &str) -> (text: Vec<char>)
    ensures
        text@ == source@,
{
    let mut text: Vec<char> = Vec::new();
    for c in it: source.chars()
        invariant
            it.seq() == source@,
            text@ == source@.take(it.index()),
    {
        text.push(c);
        assert(source@.take(it.index() + 1) =~= source@.take(it.index()).push(c));
    }
    assert(source@.take(source@.len() as int) =~= source@);
    text
}

/// Translates a source text into a program.
///
/// Every character but the eight commands is skipped. The branches of the
/// program come out resolved: a `[` and the `]` that closes it each hold the
/// index of the other. A `]` that closes nothing ends the work with
/// its place in the text; a `[` that is never closed keeps the target 0.
pub fn parse_bf_file(source: &str) -> (result: Result<Vec<Instruction>, ParseError>)
    ensures
        match result {
            Ok(instructions) => translate(source@) == Ok::<Seq<Instruction>, ParseError>(
                instructions@,
            ),
            Err(error) => translate(source@) == Err::<Seq<Instruction>, ParseError>(error),
        },
        result matches Ok(instructions) ==> targets_below(instructions@, instructions.len() as int),
{
    let text: Vec<char> = characters(source);
    let ghost cmds = commands(source@);
    let mut jump_stack: Vec<usize> = Vec::new();
    let mut instructions: Vec<Instruction> = Vec::new();
    let mut line: usize = 0;
    let mut column: usize = 0;
    let mut i: usize = 0;
    while i < text.len()
        invariant
            text@ == source@,
            cmds == commands(source@),
            i <= text.len(),
            instructions@.len() == commands(source@.take(i as int)).len(),
            scanned(cmds, instructions@, jump_stack@),
            depth(source@, i as int) == jump_stack@.len(),
            first_reaching(source@, -1, 0) == first_reaching(source@, -1, i as int),
            line == line_of(source@, i as int),
            column == column_of(source@, i as int),
            line <= i,
            column <= i,
        decreases text.len() - i,
    {
        let c: char = text[i];
        proof {
            lemma_commands_step(source@, i as int);
            assert(instructions.len() == instructions@.len());
        }
        if c == '[' {
            proof {
                lemma_scan_open(cmds, instructions@, jump_stack@);
            }
            jump_stack.push(instructions.len());
            instructions.push(Instruction::JumpIfZero(0));
        } else if c == ']' {
            let ghost open_brackets = jump_stack@;
            match jump_stack.pop() {
                Some(matching) => {
                    proof {
                        lemma_scan_close(cmds, instructions@, open_brackets);
                    }
                    let close: usize = instructions.len();
                    instructions.push(Instruction::JumpUnlessZero(matching));
                    instructions.set(matching, Instruction::JumpIfZero(close));
                },
                None => {
                    return Err(ParseError::UnmatchedCloseBracket { line, column });
                },
            }
        } else if c == '>' {
            proof {
                lemma_scan_plain(cmds, instructions@, jump_stack@);
            }
            instructions.push(Instruction::MoveRight);
        } else if c == '<' {
            proof {
                lemma_scan_plain(cmds, instructions@, jump_stack@);
            }
            instructions.push(Instruction::MoveLeft);
        } else if c == '+' {
            proof {
                lemma_scan_plain(cmds, instructions@, jump_stack@);
            }
            instructions.push(Instruction::Increment);
        } else if c == '-' {
            proof {
                lemma_scan_plain(cmds, instructions@, jump_stack@);
            }
            instructions.push(Instruction::Decrement);
        } else if c == '.' {
            proof {
                lemma_scan_plain(cmds, instructions@, jump_stack@);
            }
            instructions.push(Instruction::Write);
        } else if c == ',' {
            proof {
                lemma_scan_plain(cmds, instructions@, jump_stack@);
            }
            instructions.push(Instruction::Read);
        }
        if c == '\n' {
            line = line + 1;
            column = 0;
        } else {
            column = column + 1;
        }
        i = i + 1;
    }
    proof {
        assert(source@.take(i as int) =~= source@);
        lemma_scan_complete(cmds, instructions@, jump_stack@);
        lemma_targets_in_range(cmds);
    }
    Ok(instructions)
}

} // verus!
