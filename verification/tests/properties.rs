use pikevm::ast::Repeater;
use pikevm::ast::Regex;
use pikevm::program::Instr;
use pikevm::program::Program;
use pikevm::searcher::IntoSearcher;
use pikevm::searcher::IterSearcher;
use pikevm::searcher::Searcher;
use pikevm::state::ProgramState;
use pikevm::state::SaveList;
use pikevm::token::Token;

fn sl(slots: &[Option<usize>]) -> SaveList {
    SaveList(slots.to_vec())
}

/// A word boundary inside the input releases the match exactly at the word's
/// end, and alternate capture splits of the same span come out in priority
/// order.
#[test]
fn boundary_match_spans() {
    // /(ab?)(b?c)\b/ against "ducabc " (boundary before the space)
    let program: Program<char, SaveList> = Program::new(
        vec![
            Instr::JSplit(3),
            Instr::Any,
            Instr::Jump(0),
            Instr::UpdateState(0),
            Instr::UpdateState(2),
            Instr::Token('a'),
            Instr::Split(8),
            Instr::Token('b'),
            Instr::UpdateState(3),
            Instr::UpdateState(4),
            Instr::Split(12),
            Instr::Token('b'),
            Instr::Token('c'),
            Instr::UpdateState(5),
            Instr::WordBoundary,
            Instr::UpdateState(1),
            Instr::Match,
        ],
        6,
    );
    let saves = program.exec("ducabc ");
    assert_eq!(
        saves,
        vec![
            sl(&[Some(3), Some(6), Some(3), Some(5), Some(5), Some(6)]),
            sl(&[Some(3), Some(6), Some(3), Some(4), Some(4), Some(6)]),
        ]
    );
}

/// Byte offsets over UTF-8 input: every saved index is a codepoint boundary
/// of the encoding (widths 1, 2, 3 and 4).
#[test]
fn unicode_byte_offsets() {
    // (.)(.)(.)
    let tree = Regex::Concat(vec![
        Regex::Capture(Box::new(Regex::AnyToken)),
        Regex::Capture(Box::new(Regex::AnyToken)),
        Regex::Capture(Box::new(Regex::AnyToken)),
    ]);
    let prog = tree.compile();
    let saves = prog.exec("$¢€𐍈");
    assert_eq!(
        saves,
        vec![
            sl(&[
                Some(0),
                Some(6),
                Some(0),
                Some(1),
                Some(1),
                Some(3),
                Some(3),
                Some(6)
            ]),
            sl(&[
                Some(1),
                Some(10),
                Some(1),
                Some(3),
                Some(3),
                Some(6),
                Some(6),
                Some(10)
            ]),
        ]
    );
}

/// The same program over the same text as a codepoint sequence: offsets
/// count elements, not bytes.
#[test]
fn codepoint_offsets() {
    let tree = Regex::Concat(vec![
        Regex::Capture(Box::new(Regex::AnyToken)),
        Regex::Capture(Box::new(Regex::AnyToken)),
        Regex::Capture(Box::new(Regex::AnyToken)),
    ]);
    let prog = tree.compile();
    let saves = prog.exec_iter("$¢€𐍈".chars().collect());
    assert_eq!(saves.len(), 2);
    assert_eq!(saves[0].0[0], Some(0));
    assert_eq!(saves[0].0[1], Some(3));
    assert_eq!(saves[1].0[0], Some(1));
    assert_eq!(saves[1].0[1], Some(4));
}

/// Greedy `a+` over `"aaab"`: matches are recorded as their threads reach
/// the `Match` instruction, so spans appear ordered first by end position
/// and then by priority; the leftmost-longest span (0, 3) is among them.
#[test]
fn greedy_plus_matches() {
    let tree = Regex::Repeat(Box::new(Regex::Literal(vec!['a'])), Repeater::OneOrMore(true));
    let prog = tree.compile();
    let saves = prog.exec("aaab");
    assert_eq!(
        saves,
        vec![
            sl(&[Some(0), Some(1)]),
            sl(&[Some(0), Some(2)]),
            sl(&[Some(1), Some(2)]),
            sl(&[Some(0), Some(3)]),
            sl(&[Some(1), Some(3)]),
            sl(&[Some(2), Some(3)]),
        ]
    );
    assert!(saves.contains(&sl(&[Some(0), Some(3)])));
}

/// Greedy and lazy `a*` in one alternation at the same position: threads
/// that share an instruction pointer but differ in their capture slots all
/// survive, so both variants report their own groups.
#[test]
fn same_pc_distinct_captures() {
    let tree = Regex::Alt(
        Box::new(Regex::Capture(Box::new(Regex::Repeat(
            Box::new(Regex::Literal(vec!['a'])),
            Repeater::ZeroOrMore(true),
        )))),
        Box::new(Regex::Capture(Box::new(Regex::Repeat(
            Box::new(Regex::Literal(vec!['a'])),
            Repeater::ZeroOrMore(false),
        )))),
    );
    let prog = tree.compile();
    let saves = prog.exec("a");
    assert_eq!(
        saves,
        vec![
            sl(&[Some(0), Some(0), Some(0), Some(0), None, None]),
            sl(&[Some(0), Some(0), None, None, Some(0), Some(0)]),
            sl(&[Some(0), Some(1), Some(0), Some(1), None, None]),
            sl(&[Some(0), Some(1), None, None, Some(0), Some(1)]),
            sl(&[Some(1), Some(1), Some(1), Some(1), None, None]),
            sl(&[Some(1), Some(1), None, None, Some(1), Some(1)]),
        ]
    );
}

/// A state that rejects an update kills only its own thread: the other
/// branch still matches.
#[test]
fn update_rejection_prunes_path() {
    // slot 9 does not exist in a two-slot save list, so the first branch's
    // update rejects
    let program: Program<char, SaveList> = Program::new(
        vec![
            Instr::Split(3),
            Instr::UpdateState(9),
            Instr::Match,
            Instr::UpdateState(0),
            Instr::Match,
        ],
        2,
    );
    let saves = program.exec("");
    assert_eq!(saves, vec![sl(&[Some(0), None])]);
}

/// A pathological quantifier pile-up completes: execution never
/// backtracks, so `(a?){n}a{n}` against `a^n` finishes quickly.
#[test]
fn pathological_quantifiers_complete() {
    let n = 14;
    let mut parts: Vec<Regex<char>> = Vec::new();
    for _ in 0..n {
        parts.push(Regex::Repeat(
            Box::new(Regex::Literal(vec!['a'])),
            Repeater::ZeroOrOne(true),
        ));
    }
    for _ in 0..n {
        parts.push(Regex::Literal(vec!['a']));
    }
    let prog = Regex::Concat(parts).compile();
    let input: String = std::iter::repeat('a').take(n).collect();
    let saves = prog.exec(input.as_str());
    assert_eq!(saves, vec![sl(&[Some(0), Some(n)])]);
}

/// Repeated execution on identical inputs yields identical result vectors.
#[test]
fn repeated_execution_identical() {
    let tree = Regex::Concat(vec![
        Regex::Capture(Box::new(Regex::Literal(vec!['a', 'b']))),
        Regex::Repeat(Box::new(Regex::AnyToken), Repeater::ZeroOrOne(false)),
    ]);
    let prog = tree.compile();
    let first = prog.exec("xabab");
    let second = prog.exec("xabab");
    assert_eq!(first, second);
    assert!(!first.is_empty());
}

/// No match is not an error: the result vector is empty.
#[test]
fn no_match_empty_results() {
    let program: Program<char, SaveList> = Program::new(
        vec![Instr::Token('z'), Instr::Match],
        2,
    );
    let saves = program.exec("abc");
    assert_eq!(saves, Vec::<SaveList>::new());
}

/// A class instruction consumes one token and tests membership.
#[test]
fn class_membership() {
    let program: Program<char, SaveList> = Program::new(
        vec![
            Instr::UpdateState(0),
            Instr::Class(vec!['x', 'y']),
            Instr::UpdateState(1),
            Instr::Match,
        ],
        2,
    );
    assert_eq!(program.exec("y"), vec![sl(&[Some(0), Some(1)])]);
    assert_eq!(program.exec("z"), Vec::<SaveList>::new());
}

/// A table instruction always consumes; a hit dispatches to the mapped
/// instruction, a miss falls through (here into a reject).
#[test]
fn table_dispatch() {
    let program: Program<char, SaveList> = Program::new(
        vec![
            Instr::Table(vec![('a', 3)]),
            Instr::Reject,
            Instr::Reject,
            Instr::Match,
        ],
        1,
    );
    assert_eq!(program.exec("a"), vec![sl(&[None])]);
    assert_eq!(program.exec("b"), Vec::<SaveList>::new());
}

/// A string searcher reports the byte offset one past each codepoint; an
/// exhausted searcher keeps reporting the final offset.
#[test]
fn str_searcher_offsets() {
    let mut s = "$¢€".into_searcher();
    assert_eq!(s.next(), (1, Some('$')));
    assert_eq!(s.next(), (3, Some('¢')));
    assert_eq!(s.next(), (6, Some('€')));
    assert_eq!(s.next(), (6, None));
    assert_eq!(s.next(), (6, None));
}

/// A fresh searcher on empty input starts, and stays, at index zero.
#[test]
fn empty_input_searcher() {
    let mut s = "".into_searcher();
    assert_eq!(s.next(), (0, None));
    assert_eq!(s.next(), (0, None));
    let mut t = IterSearcher::new(Vec::<char>::new());
    assert_eq!(t.next(), (0, None));
}

/// A token searcher reports the element offset one past each token.
#[test]
fn iter_searcher_offsets() {
    let mut s = IterSearcher::new(vec!['x', 'y']);
    assert_eq!(s.next(), (1, Some('x')));
    assert_eq!(s.next(), (2, Some('y')));
    assert_eq!(s.next(), (2, None));
}

/// Codepoints are word characters exactly when they are not whitespace.
#[test]
fn word_predicate() {
    assert!('a'.is_word());
    assert!('¢'.is_word());
    assert!(!' '.is_word());
    assert!(!'\t'.is_word());
    assert!(!'\u{2028}'.is_word());
    assert!(!'\u{3000}'.is_word());
}

/// A program gives read access to its instructions.
#[test]
fn program_instructions() {
    let program: Program<char, SaveList> = Program::new(
        vec![Instr::Token('z'), Instr::Match],
        2,
    );
    assert_eq!(program.len(), 2);
    assert!(matches!(program.instr_at(0), Instr::Token('z')));
    assert!(matches!(program.instr_at(1), Instr::Match));
}

/// The program-state helpers replace or advance the instruction pointer and
/// keep the rest of the context.
#[test]
fn program_state_helpers() {
    let ps: ProgramState<'_, char> = ProgramState {
        instruction_ptr: 5,
        token_index: 2,
        token: None,
    };
    assert_eq!(ps.increment_ip().instruction_ptr, 6);
    assert_eq!(ps.with_ip(9).instruction_ptr, 9);
    assert_eq!(ps.optional_with_ip(Some(7)).instruction_ptr, 7);
    assert_eq!(ps.optional_with_ip(None).instruction_ptr, 5);
    assert_eq!(ps.with_ip(9).token_index, 2);
}
