use pikevm::ast::Repeater;
use pikevm::ast::Regex;
use pikevm::program::Instr;
use pikevm::program::Program;
use pikevm::state::SaveList;
use pikevm::state::TokenLog;

fn index_match<'a, H>(
    haystack: &'a H,
    saves: &[SaveList],
    match_: usize,
    subgroup: usize,
) -> &'a H::Output
where
    H: std::ops::Index<std::ops::Range<usize>> + ?Sized,
{
    let start = saves[match_].0[subgroup * 2].unwrap();
    let end = saves[match_].0[subgroup * 2 + 1].unwrap();
    &haystack[start..end]
}

#[test]
fn lib_program() {
    // /(ab?)(b?c)\b/
    let program: Program<char, SaveList> = Program::new(
        vec![
            // match .*? before start of match
            Instr::JSplit(3),
            Instr::Any,
            Instr::Jump(0),
            // start of match
            Instr::UpdateState(0),
            // start of first subgroup
            Instr::UpdateState(2),
            Instr::Token('a'),
            // b?
            Instr::Split(8),
            Instr::Token('b'),
            // end of first subgroup
            Instr::UpdateState(3),
            // start of second subgroup
            Instr::UpdateState(4),
            // b?
            Instr::Split(12),
            Instr::Token('b'),
            Instr::Token('c'),
            // end of second subgroup
            Instr::UpdateState(5),
            Instr::WordBoundary,
            // end of match
            Instr::UpdateState(1),
            Instr::Match,
        ],
        6,
    );
    let haystack = "ducabc";
    let saves = program.exec(haystack);
    assert_eq!(index_match(haystack, &saves, 0, 0), "abc");
    assert_eq!(index_match(haystack, &saves, 0, 1), "ab");
    assert_eq!(index_match(haystack, &saves, 0, 2), "c");
    assert_eq!(index_match(haystack, &saves, 1, 0), "abc");
    assert_eq!(index_match(haystack, &saves, 1, 1), "a");
    assert_eq!(index_match(haystack, &saves, 1, 2), "bc");
    assert_eq!(
        saves,
        vec![
            SaveList(vec![Some(3), Some(6), Some(3), Some(5), Some(5), Some(6)]),
            SaveList(vec![Some(3), Some(6), Some(3), Some(4), Some(4), Some(6)]),
        ]
    );
}

#[test]
fn program_unicode() {
    // (.)(.)(.)
    let program: Program<char, SaveList> = Program::new(
        vec![
            // match .*? before start of match
            Instr::JSplit(3),
            Instr::Any,
            Instr::Jump(0),
            // start of match
            Instr::UpdateState(0),
            // first subgroup
            Instr::UpdateState(2),
            Instr::Any,
            Instr::UpdateState(3),
            // second subgroup
            Instr::UpdateState(4),
            Instr::Any,
            Instr::UpdateState(5),
            // third subgroup
            Instr::UpdateState(6),
            Instr::Any,
            Instr::UpdateState(7),
            // end of match
            Instr::UpdateState(1),
            Instr::Match,
        ],
        8,
    );
    // the search string contains characters with 1, 2, 3, and 4 byte
    // representations, respectively (U+0024, U+00A2, U+20AC, U+10348)
    let haystack = "$¢€𐍈";
    let saves = program.exec(haystack);
    assert_eq!(index_match(haystack, &saves, 0, 0), "$¢€");
    assert_eq!(index_match(haystack, &saves, 0, 1), "$");
    assert_eq!(index_match(haystack, &saves, 0, 2), "¢");
    assert_eq!(index_match(haystack, &saves, 0, 3), "€");
    assert_eq!(index_match(haystack, &saves, 1, 0), "¢€𐍈");
    assert_eq!(index_match(haystack, &saves, 1, 1), "¢");
    assert_eq!(index_match(haystack, &saves, 1, 2), "€");
    assert_eq!(index_match(haystack, &saves, 1, 3), "𐍈");

    // with a slice of chars instead of &str
    let haystack = "$¢€𐍈".chars().collect::<Vec<char>>();
    let saves = program.exec(&*haystack);
    assert_eq!(index_match(&haystack, &saves, 0, 0), &['$', '¢', '€']);
    assert_eq!(index_match(&haystack, &saves, 0, 1), &['$']);
    assert_eq!(index_match(&haystack, &saves, 0, 2), &['¢']);
    assert_eq!(index_match(&haystack, &saves, 0, 3), &['€']);
    assert_eq!(index_match(&haystack, &saves, 1, 0), &['¢', '€', '𐍈']);
    assert_eq!(index_match(&haystack, &saves, 1, 1), &['¢']);
    assert_eq!(index_match(&haystack, &saves, 1, 2), &['€']);
    assert_eq!(index_match(&haystack, &saves, 1, 3), &['𐍈']);
}

#[test]
fn ast() {
    // /(ab?)(b?c)\b/
    let tree = Regex::Concat(vec![
        Regex::Capture(Box::new(Regex::Concat(vec![
            Regex::Literal(vec!['a']),
            Regex::Repeat(
                Box::new(Regex::Literal(vec!['b'])),
                Repeater::ZeroOrOne(true),
            ),
        ]))),
        Regex::Capture(Box::new(Regex::Concat(vec![
            Regex::Repeat(
                Box::new(Regex::Literal(vec!['b'])),
                Repeater::ZeroOrOne(true),
            ),
            Regex::Literal(vec!['c']),
        ]))),
        Regex::WordBoundary,
    ]);
    let prog = tree.compile();
    let saves = prog.exec("ducabc ");
    assert_eq!(
        saves,
        vec![
            SaveList(vec![Some(3), Some(6), Some(3), Some(5), Some(5), Some(6)]),
            SaveList(vec![Some(3), Some(6), Some(3), Some(4), Some(4), Some(6)]),
        ]
    );
}

#[test]
fn state_updates() {
    let program: Program<char, TokenLog> = Program::new(
        vec![
            Instr::UpdateState(()),
            Instr::Any,
            Instr::Split(0),
            Instr::UpdateState(()),
            Instr::UpdateState(()),
            Instr::Match,
        ],
        (),
    );

    let result = program.exec("abc");
    assert_eq!(
        result,
        vec![
            TokenLog("\0aa".chars().collect()),
            TokenLog("\0abb".chars().collect()),
            TokenLog("\0abcc".chars().collect()),
        ]
    );
}
