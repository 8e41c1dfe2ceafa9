use tapevm::build;
use tapevm::BuildError;
use tapevm::Instruction;

/// Instruction nodes in a sequence, loop bodies counted recursively.
fn count_nodes(instrs: &[Instruction]) -> usize {
    let mut n = 0;
    for i in instrs {
        n += 1;
        if let Instruction::Loop(body) = i {
            n += count_nodes(body);
        }
    }
    n
}

#[test]
fn build_counts_leaf_commands() {
    let p = build(b"+-<>.,").unwrap();
    assert_eq!(count_nodes(&p.instrs), 6);
}

#[test]
fn build_counts_commands_among_comments() {
    let p = build(b"a+b-c").unwrap();
    assert_eq!(count_nodes(&p.instrs), 2);
}

#[test]
fn build_counts_nested_loops() {
    // 8 command bytes, 2 of them closing brackets: 6 nodes.
    let p = build(b"+[>[-]<]").unwrap();
    assert_eq!(count_nodes(&p.instrs), 6);
}

#[test]
fn build_empty_source() {
    let p = build(b"").unwrap();
    assert_eq!(p.instrs.len(), 0);
}

#[test]
fn build_ignores_comment_text() {
    let p = build(b"no commands in this text").unwrap();
    assert_eq!(p.instrs.len(), 0);
}

#[test]
fn build_loop_structure() {
    let p = build(b"[+]").unwrap();
    assert_eq!(p.instrs, vec![Instruction::Loop(vec![Instruction::Increment])]);
}

#[test]
fn unmatched_closing_bracket() {
    assert_eq!(build(b"+]"), Err(BuildError::UnmatchedClosingBracket(1)));
}

#[test]
fn unmatched_closing_bracket_position_counts_comments() {
    assert_eq!(build(b"ab]"), Err(BuildError::UnmatchedClosingBracket(2)));
}

#[test]
fn unmatched_closing_bracket_after_balanced_pair() {
    assert_eq!(build(b"[]]"), Err(BuildError::UnmatchedClosingBracket(2)));
}

#[test]
fn unmatched_opening_bracket_reports_outermost() {
    assert_eq!(build(b"[[+]"), Err(BuildError::UnmatchedOpeningBracket(0)));
}

#[test]
fn unmatched_opening_bracket_after_command() {
    assert_eq!(build(b"+[["), Err(BuildError::UnmatchedOpeningBracket(1)));
}

#[test]
fn build_twice_yields_equal_programs() {
    let source = b"++[>,.<-]";
    let p1 = build(source).unwrap();
    let p2 = build(source).unwrap();
    assert_eq!(p1, p2);
}
