//! The program builder: a single left-to-right scan of the source that
//! keeps a stack of the currently open loop bodies, and its contract.

use vstd::prelude::*;

use crate::ast::instr_size;
use crate::ast::seq_size;
use crate::ast::view_body;
use crate::ast::BuildError;
use crate::ast::Instruction;
use crate::ast::Program;
use crate::ast::SpecInstr;

verus! {

/// The command byte `>`.
pub const CMD_RIGHT: u8 = 62;

/// The command byte `<`.
pub const CMD_LEFT: u8 = 60;

/// The command byte `+`.
pub const CMD_INC: u8 = 43;

/// The command byte `-`.
pub const CMD_DEC: u8 = 45;

/// The command byte `.`.
pub const CMD_OUT: u8 = 46;

/// The command byte `,`.
pub const CMD_IN: u8 = 44;

/// The command byte `[`.
pub const CMD_OPEN: u8 = 91;

/// The command byte `]`.
pub const CMD_CLOSE: u8 = 93;


/// Whether a byte is one of the eight command characters; every other
/// byte of the source is a comment and is ignored.
pub open spec fn is_command(b: u8) -> bool {
    ||| b == CMD_RIGHT
    ||| b == CMD_LEFT
    ||| b == CMD_INC
    ||| b == CMD_DEC
    ||| b == CMD_OUT
    ||| b == CMD_IN
    ||| b == CMD_OPEN
    ||| b == CMD_CLOSE
}

/// Whether a byte is a command other than the two brackets.
pub open spec fn is_leaf(b: u8) -> bool {
    is_command(b) && b != CMD_OPEN && b != CMD_CLOSE
}

/// The instruction a non-bracket command byte stands for.
pub open spec fn leaf_of(b: u8) -> SpecInstr
    recommends
        is_leaf(b),
{
    if b == CMD_RIGHT {
        SpecInstr::MoveRight
    } else if b == CMD_LEFT {
        SpecInstr::MoveLeft
    } else if b == CMD_INC {
        SpecInstr::Increment
    } else if b == CMD_DEC {
        SpecInstr::Decrement
    } else if b == CMD_OUT {
        SpecInstr::Output
    } else {
        SpecInstr::Input
    }
}

/// The scan from position `i` on: `stack` holds the bodies opened so far
/// and still unclosed, innermost last, with the top-level sequence at the
/// bottom; `opens` holds the positions of their opening brackets.
///
/// On `[`, a fresh empty body is opened.  On `]`, the innermost body is
/// closed into a `Loop` appended to its parent — unless nothing is open,
/// which is an unmatched closing bracket at that position.  A non-bracket
/// command is appended to the innermost body, and any other byte is
/// skipped.  Bodies still open at the end of the source make the error
/// name the outermost unclosed opening bracket.
pub open spec fn scan(
    s: Seq<u8>,
    i: int,
    stack: Seq<Seq<SpecInstr>>,
    opens: Seq<int>,
) -> Result<Seq<SpecInstr>, BuildError>
    recommends
        0 <= i <= s.len(),
        stack.len() == opens.len() + 1,
    decreases s.len() - i,
{
    if i >= s.len() || i < 0 {
        if stack.len() <= 1 {
            Ok(stack.last())
        } else {
            Err(BuildError::UnmatchedOpeningBracket(opens[0] as usize))
        }
    } else if s[i] == CMD_OPEN {
        scan(s, i + 1, stack.push(Seq::empty()), opens.push(i))
    } else if s[i] == CMD_CLOSE {
        if stack.len() <= 1 {
            Err(BuildError::UnmatchedClosingBracket(i as usize))
        } else {
            let body = stack.last();
            let popped = stack.drop_last();
            scan(
                s,
                i + 1,
                popped.update(popped.len() - 1, popped.last().push(SpecInstr::Loop(body))),
                opens.drop_last(),
            )
        }
    } else if is_leaf(s[i]) {
        scan(s, i + 1, stack.update(stack.len() - 1, stack.last().push(leaf_of(s[i]))), opens)
    } else {
        scan(s, i + 1, stack, opens)
    }
}

/// What building a whole source yields: the top-level instruction
/// sequence, or the bracket mismatch that stops the build.
pub open spec fn spec_build(s: Seq<u8>) -> Result<Seq<SpecInstr>, BuildError> {
    scan(s, 0, seq![Seq::<SpecInstr>::empty()], Seq::empty())
}

/// Whether scanning `t` with `d` loops already open runs into a closing
/// bracket with nothing open: the mark of an unmatched `]`.
pub open spec fn drops_below(t: Seq<u8>, d: int) -> bool
    decreases t.len(),
{
    if t.len() == 0 {
        false
    } else if t[0] == CMD_CLOSE {
        d == 0 || drops_below(t.drop_first(), d - 1)
    } else if t[0] == CMD_OPEN {
        drops_below(t.drop_first(), d + 1)
    } else {
        drops_below(t.drop_first(), d)
    }
}

/// How many loops are still open after scanning `t` with `d` already open.
pub open spec fn end_depth(t: Seq<u8>, d: int) -> int
    decreases t.len(),
{
    if t.len() == 0 {
        d
    } else if t[0] == CMD_OPEN {
        end_depth(t.drop_first(), d + 1)
    } else if t[0] == CMD_CLOSE {
        end_depth(t.drop_first(), d - 1)
    } else {
        end_depth(t.drop_first(), d)
    }
}

/// Brackets balance: no prefix closes a loop that was never opened, and
/// every opened loop is closed by the end.
pub open spec fn balanced(s: Seq<u8>) -> bool {
    !drops_below(s, 0) && end_depth(s, 0) == 0
}

/// The number of command bytes in `t` other than `]`: one per
/// instruction node the build of `t` creates.
pub open spec fn node_count(t: Seq<u8>) -> int
    decreases t.len(),
{
    if t.len() == 0 {
        0
    } else {
        (if is_leaf(t[0]) || t[0] == CMD_OPEN {
            1int
        } else {
            0int
        }) + node_count(t.drop_first())
    }
}

/// The number of command bytes in `t`.
pub open spec fn command_count(t: Seq<u8>) -> int
    decreases t.len(),
{
    if t.len() == 0 {
        0
    } else {
        (if is_command(t[0]) {
            1int
        } else {
            0int
        }) + command_count(t.drop_first())
    }
}

/// The number of `]` bytes in `t`.
pub open spec fn close_count(t: Seq<u8>) -> int
    decreases t.len(),
{
    if t.len() == 0 {
        0
    } else {
        (if t[0] == CMD_CLOSE {
            1int
        } else {
            0int
        }) + close_count(t.drop_first())
    }
}

/// Viewing a sequence commutes with appending one instruction.
proof fn lemma_view_body_push(s: Seq<Instruction>, x: Instruction)
    ensures
        view_body(s.push(x)) == view_body(s).push(x@),
{
    assert(s.push(x).drop_last() =~= s);
    assert(s.push(x).last() == x);
}

/// Node count over a body grows by one instruction's size on append.
proof fn lemma_seq_size_push(t: Seq<SpecInstr>, y: SpecInstr)
    ensures
        seq_size(t.push(y)) == seq_size(t) + instr_size(y),
{
    assert(t.push(y).drop_last() =~= t);
    assert(t.push(y).last() == y);
}

/// Total node count over every frame of the scan's stack.
spec fn stack_size(stack: Seq<Seq<SpecInstr>>) -> int
    decreases stack.len(),
{
    if stack.len() == 0 {
        0
    } else {
        stack_size(stack.drop_last()) + seq_size(stack.last())
    }
}

/// Stack node count grows by a frame's count when the frame is pushed.
proof fn lemma_stack_size_push(a: Seq<Seq<SpecInstr>>, b: Seq<SpecInstr>)
    ensures
        stack_size(a.push(b)) == stack_size(a) + seq_size(b),
{
    assert(a.push(b).drop_last() =~= a);
    assert(a.push(b).last() == b);
}

/// How a scan in progress ends, read off the rest of the source alone:
/// an unmatched `]` exactly when the rest closes more loops than are
/// open, an unmatched `[` exactly when loops stay open to the end, and
/// success otherwise — with one instruction node per command byte other
/// than `]` that the rest still contributes.
proof fn lemma_scan_cases(s: Seq<u8>, i: int, stack: Seq<Seq<SpecInstr>>, opens: Seq<int>)
    requires
        0 <= i <= s.len(),
        stack.len() == opens.len() + 1,
    ensures
        (scan(s, i, stack, opens) matches Err(BuildError::UnmatchedClosingBracket(_)))
            <==> drops_below(s.skip(i), opens.len() as int),
        (scan(s, i, stack, opens) matches Err(BuildError::UnmatchedOpeningBracket(_))) <==> (
        !drops_below(s.skip(i), opens.len() as int) && end_depth(s.skip(i), opens.len() as int)
            != 0),
        (scan(s, i, stack, opens) is Ok) <==> (!drops_below(s.skip(i), opens.len() as int)
            && end_depth(s.skip(i), opens.len() as int) == 0),
        scan(s, i, stack, opens) is Ok ==> seq_size(scan(s, i, stack, opens)->Ok_0) == stack_size(
            stack,
        ) + stack.len() - 1 + node_count(s.skip(i)),
    decreases s.len() - i,
{
    let suffix = s.skip(i);
    if i == s.len() {
        assert(suffix =~= Seq::<u8>::empty());
        assert(node_count(suffix) == 0);
        if stack.len() == 1 {
            assert(stack.drop_last() =~= Seq::<Seq<SpecInstr>>::empty());
            assert(stack_size(Seq::<Seq<SpecInstr>>::empty()) == 0);
            assert(stack_size(stack) == seq_size(stack.last()));
        }
    } else {
        assert(suffix.len() == s.len() - i);
        assert(suffix[0] == s[i]);
        assert(suffix.drop_first() =~= s.skip(i + 1));
        if s[i] == CMD_OPEN {
            let stack2 = stack.push(Seq::<SpecInstr>::empty());
            lemma_scan_cases(s, i + 1, stack2, opens.push(i));
            lemma_stack_size_push(stack, Seq::<SpecInstr>::empty());
            assert(stack_size(stack2) == stack_size(stack));
        } else if s[i] == CMD_CLOSE {
            if stack.len() > 1 {
                let body = stack.last();
                let popped = stack.drop_last();
                let stack2 = popped.update(
                    popped.len() - 1,
                    popped.last().push(SpecInstr::Loop(body)),
                );
                lemma_scan_cases(s, i + 1, stack2, opens.drop_last());
                assert(stack2 =~= popped.drop_last().push(
                    popped.last().push(SpecInstr::Loop(body)),
                ));
                lemma_seq_size_push(popped.last(), SpecInstr::Loop(body));
                lemma_stack_size_push(popped.drop_last(), popped.last().push(
                    SpecInstr::Loop(body),
                ));
                assert(instr_size(SpecInstr::Loop(body)) == 1 + seq_size(body));
                assert(stack_size(stack) == stack_size(popped) + seq_size(body));
                assert(stack_size(popped) == stack_size(popped.drop_last()) + seq_size(
                    popped.last(),
                ));
                assert(stack_size(stack2) == stack_size(stack) + 1);
            }
        } else if is_leaf(s[i]) {
            let stack2 = stack.update(stack.len() - 1, stack.last().push(leaf_of(s[i])));
            lemma_scan_cases(s, i + 1, stack2, opens);
            assert(stack2 =~= stack.drop_last().push(stack.last().push(leaf_of(s[i]))));
            lemma_seq_size_push(stack.last(), leaf_of(s[i]));
            lemma_stack_size_push(stack.drop_last(), stack.last().push(leaf_of(s[i])));
            assert(instr_size(leaf_of(s[i])) == 1);
            assert(stack_size(stack) == stack_size(stack.drop_last()) + seq_size(stack.last()));
            assert(stack_size(stack2) == stack_size(stack) + 1);
        } else {
            lemma_scan_cases(s, i + 1, stack, opens);
        }
    }
}

/// A build succeeds exactly on balanced source text.
pub proof fn lemma_build_ok_iff_balanced(s: Seq<u8>)
    ensures
        spec_build(s) is Ok <==> balanced(s),
{
    lemma_scan_cases(s, 0, seq![Seq::<SpecInstr>::empty()], Seq::empty());
    assert(s.skip(0) =~= s);
}

/// A build fails with an unmatched closing bracket exactly when some
/// prefix of the source closes a loop that was never opened.
pub proof fn lemma_build_unmatched_closing(s: Seq<u8>)
    ensures
        (spec_build(s) matches Err(BuildError::UnmatchedClosingBracket(_))) <==> drops_below(
            s,
            0,
        ),
{
    lemma_scan_cases(s, 0, seq![Seq::<SpecInstr>::empty()], Seq::empty());
    assert(s.skip(0) =~= s);
}

/// A build fails with an unmatched opening bracket exactly when no
/// closing bracket is unmatched but loops stay open to the end.
pub proof fn lemma_build_unmatched_opening(s: Seq<u8>)
    ensures
        (spec_build(s) matches Err(BuildError::UnmatchedOpeningBracket(_))) <==> (!drops_below(
            s,
            0,
        ) && end_depth(s, 0) != 0),
{
    lemma_scan_cases(s, 0, seq![Seq::<SpecInstr>::empty()], Seq::empty());
    assert(s.skip(0) =~= s);
}

/// A successful build has one instruction node, loop bodies counted
/// recursively, per command byte other than `]` — equivalently, per
/// command byte minus one per closing bracket.
pub proof fn lemma_build_node_count(s: Seq<u8>)
    ensures
        spec_build(s) is Ok ==> seq_size(spec_build(s)->Ok_0) == node_count(s),
        node_count(s) == command_count(s) - close_count(s),
{
    lemma_scan_cases(s, 0, seq![Seq::<SpecInstr>::empty()], Seq::empty());
    assert(s.skip(0) =~= s);
    assert(stack_size(seq![Seq::<SpecInstr>::empty()]) == 0) by {
        assert(seq![Seq::<SpecInstr>::empty()].drop_last() =~= Seq::<Seq<SpecInstr>>::empty());
        assert(seq![Seq::<SpecInstr>::empty()].last() =~= Seq::<SpecInstr>::empty());
        assert(stack_size(Seq::<Seq<SpecInstr>>::empty()) == 0);
        assert(seq_size(Seq::<SpecInstr>::empty()) == 0);
    }
    lemma_counts(s);
}

/// `node_count` counts the command bytes other than `]`.
proof fn lemma_counts(t: Seq<u8>)
    ensures
        node_count(t) == command_count(t) - close_count(t),
    decreases t.len(),
{
    if t.len() > 0 {
        lemma_counts(t.drop_first());
    }
}

/// Source without brackets is balanced, every command byte of it counts
/// one node, and its build succeeds.
pub proof fn lemma_build_without_brackets(s: Seq<u8>)
    requires
        forall|j: int| 0 <= j < s.len() ==> s[j] != CMD_OPEN && s[j] != CMD_CLOSE,
    ensures
        spec_build(s) is Ok,
        seq_size(spec_build(s)->Ok_0) == command_count(s),
{
    lemma_no_brackets(s, 0);
    lemma_build_ok_iff_balanced(s);
    lemma_build_node_count(s);
}

/// Scanning bracket-free text opens nothing, closes nothing.
proof fn lemma_no_brackets(t: Seq<u8>, d: int)
    requires
        forall|j: int| 0 <= j < t.len() ==> t[j] != CMD_OPEN && t[j] != CMD_CLOSE,
    ensures
        !drops_below(t, d),
        end_depth(t, d) == d,
        close_count(t) == 0,
    decreases t.len(),
{
    if t.len() > 0 {
        assert(forall|j: int|
            0 <= j < t.drop_first().len() ==> t.drop_first()[j] == t[j + 1]);
        lemma_no_brackets(t.drop_first(), d);
    }
}

/// Building is a function of the source text alone: two successful
/// builds of the same text yield the same instruction tree.
pub proof fn lemma_build_deterministic(s: Seq<u8>, p1: Seq<SpecInstr>, p2: Seq<SpecInstr>)
    requires
        spec_build(s) == Ok::<Seq<SpecInstr>, BuildError>(p1),
        spec_build(s) == Ok::<Seq<SpecInstr>, BuildError>(p2),
    ensures
        p1 == p2,
{
}

/// The mathematical form of the builder's frame stack.
spec fn stack_view(fs: Seq<Vec<Instruction>>) -> Seq<Seq<SpecInstr>> {
    Seq::new(fs.len(), |k: int| view_body(fs[k]@))
}

/// The positions of the open brackets, as mathematical integers.
spec fn opens_view(os: Seq<usize>) -> Seq<int> {
    Seq::new(os.len(), |k: int| os[k] as int)
}

/// The instruction a non-bracket command byte stands for, or `None` for
/// a byte that is no such command.
fn leaf_instruction(b: u8) -> (r: Option<Instruction>)
    ensures
        match r {
            Some(x) => is_leaf(b) && x@ == leaf_of(b),
            None => !is_leaf(b),
        },
{
    if b == CMD_RIGHT {
        Some(Instruction::MoveRight)
    } else if b == CMD_LEFT {
        Some(Instruction::MoveLeft)
    } else if b == CMD_INC {
        Some(Instruction::Increment)
    } else if b == CMD_DEC {
        Some(Instruction::Decrement)
    } else if b == CMD_OUT {
        Some(Instruction::Output)
    } else if b == CMD_IN {
        Some(Instruction::Input)
    } else {
        None
    }
}

/// Builds a program from raw source text.
///
/// Bytes other than the eight command characters are ignored.  The scan
/// keeps a stack of open loop bodies; a `]` with nothing open fails with
/// [`BuildError::UnmatchedClosingBracket`] at that byte position, and a
/// `[` still open at the end of the source fails with
/// [`BuildError::UnmatchedOpeningBracket`] naming the outermost one.
/// The result is exactly what the scan `spec_build` yields.
#[verifier::loop_isolation(false)]
pub fn build(source: &[u8]) -> (r: Result<Program, BuildError>)
    ensures
        match r {
            Ok(p) => spec_build(source@) == Ok::<Seq<SpecInstr>, BuildError>(p@),
            Err(e) => spec_build(source@) == Err::<Seq<SpecInstr>, BuildError>(e),
        },
{
    let mut frames: Vec<Vec<Instruction>> = Vec::new();
    frames.push(Vec::new());
    let mut opens: Vec<usize> = Vec::new();
    let mut i: usize = 0;
    proof {
        assert(stack_view(frames@) =~= seq![Seq::<SpecInstr>::empty()]);
        assert(opens_view(opens@) =~= Seq::<int>::empty());
    }
    while i < source.len()
        invariant
            i <= source@.len(),
            frames@.len() == opens@.len() + 1,
            scan(source@, i as int, stack_view(frames@), opens_view(opens@)) == spec_build(
                source@,
            ),
        decreases source@.len() - i,
    {
        let ghost old_stack = stack_view(frames@);
        let ghost old_opens = opens_view(opens@);
        let b = source[i];
        if b == CMD_OPEN {
            frames.push(Vec::new());
            opens.push(i);
            proof {
                assert(stack_view(frames@) =~= old_stack.push(Seq::<SpecInstr>::empty()));
                assert(opens_view(opens@) =~= old_opens.push(i as int));
            }
        } else if b == CMD_CLOSE {
            if frames.len() == 1 {
                return Err(BuildError::UnmatchedClosingBracket(i));
            }
            let body = frames.pop().unwrap();
            let mut top = frames.pop().unwrap();
            let ghost top0 = top@;
            top.push(Instruction::Loop(body));
            frames.push(top);
            opens.pop().unwrap();
            proof {
                lemma_view_body_push(top0, Instruction::Loop(body));
                let popped = old_stack.drop_last();
                assert(stack_view(frames@) =~= popped.update(
                    popped.len() - 1,
                    popped.last().push(SpecInstr::Loop(old_stack.last())),
                ));
                assert(opens_view(opens@) =~= old_opens.drop_last());
            }
        } else {
            let leaf = leaf_instruction(b);
            match leaf {
                Some(x) => {
                    let mut top = frames.pop().unwrap();
                    let ghost top0 = top@;
                    top.push(x);
                    frames.push(top);
                    proof {
                        lemma_view_body_push(top0, x);
                        assert(stack_view(frames@) =~= old_stack.update(
                            old_stack.len() - 1,
                            old_stack.last().push(leaf_of(source@[i as int])),
                        ));
                    }
                },
                None => {
                },
            }
        }
        i = i + 1;
    }
    if frames.len() > 1 {
        return Err(BuildError::UnmatchedOpeningBracket(opens[0]));
    }
    let ghost end_stack = stack_view(frames@);
    let instrs = frames.pop().unwrap();
    proof {
        assert(end_stack.last() == view_body(instrs@));
    }
    Ok(Program { instrs })
}

} // verus!
