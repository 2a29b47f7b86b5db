use repr::interval::Interval;
use repr::literal::LiteralSearcher;
use repr::program::{Inst, InstInterval, InstOne, InstSplit, InstZero, Program};
use repr::repr::Zero;

#[test]
fn new_program_has_the_default_values() {
    let prog: Program<char> = Program::new();
    assert!(prog.insts.is_empty());
    assert!(prog.matches.is_empty());
    assert_eq!(prog.start, 0);
    assert!(!prog.is_dfa);
    assert!(!prog.is_reverse);
    assert!(!prog.is_anchored_start);
    assert!(!prog.is_anchored_end);
    assert!(!prog.has_unicode_word_boundary);
    assert!(prog.prefixes.is_empty());
    assert_eq!(prog.dfa_size_limit, 2 * (1 << 20));
    assert_eq!(prog.len(), 0);
}

#[test]
fn leads_to_match_of_one_pattern() {
    let mut prog: Program<char> = Program::new();
    prog.insts = vec![Inst::One(InstOne { goto: 1, c: 'a' }), Inst::Match(0)];
    prog.matches = vec![1];
    assert!(!prog.leads_to_match(0));
    assert!(prog.leads_to_match(1));
    // With no match pointer at all the instruction decides alone.
    prog.matches = vec![];
    assert!(prog.leads_to_match(1));
    // In a set, leading to a match means nothing.
    prog.matches = vec![1, 1];
    assert!(!prog.leads_to_match(1));
    assert!(!prog.leads_to_match(0));
}

#[test]
fn needs_dotstar_and_uses_bytes() {
    let mut prog: Program<char> = Program::new();
    assert!(!prog.needs_dotstar());
    assert!(!prog.uses_bytes());
    prog.is_dfa = true;
    assert!(prog.needs_dotstar());
    assert!(prog.uses_bytes());
    prog.is_reverse = true;
    assert!(!prog.needs_dotstar());
    prog.is_reverse = false;
    prog.is_anchored_start = true;
    assert!(!prog.needs_dotstar());
    prog.is_dfa = false;
    assert!(!prog.needs_dotstar());
    assert!(!prog.uses_bytes());
}

#[test]
fn approximate_size_counts_instructions_pointers_and_prefixes() {
    let mut prog: Program<char> = Program::new();
    assert_eq!(prog.approximate_size(), 256);
    prog.insts = vec![Inst::Match(0), Inst::Match(1), Inst::Match(2)];
    prog.matches = vec![0, 1];
    prog.prefixes = LiteralSearcher::new(vec![vec!['a', 'b'], vec!['c']]);
    let expected = 3 * std::mem::size_of::<Inst<char>>() + 2 * std::mem::size_of::<usize>() + 256 + 3;
    assert_eq!(prog.approximate_size(), expected);
}

#[test]
fn is_match_tells_match_from_the_rest() {
    assert!(Inst::<char>::Match(3).is_match());
    assert!(!Inst::<char>::Split(InstSplit { goto1: 0, goto2: 1 }).is_match());
    assert!(!Inst::<char>::Zero(InstZero { goto: 0, look: Zero::StartText }).is_match());
    assert!(!Inst::One(InstOne { goto: 0, c: 'a' }).is_match());
    assert!(!Inst::Interval(InstInterval { goto: 0, seq: Interval('a', 'z') }).is_match());
}

#[test]
fn interval_instruction_matches_its_range() {
    let lower = InstInterval { goto: 0, seq: Interval('a', 'z') };
    assert!(lower.matches('a'));
    assert!(lower.matches('m'));
    assert!(lower.matches('z'));
    assert!(!lower.matches('`'));
    assert!(!lower.matches('{'));
    assert!(!lower.matches('A'));
    let empty = InstInterval { goto: 0, seq: Interval('z', 'a') };
    assert!(!empty.matches('m'));
    assert!(!empty.matches('a'));
    assert!(!empty.matches('z'));
}

#[test]
fn num_chars_counts_codes() {
    assert_eq!(InstInterval { goto: 0, seq: Interval('a', 'z') }.num_chars(), 26);
    assert_eq!(InstInterval { goto: 0, seq: Interval('a', 'a') }.num_chars(), 1);
    assert_eq!(InstInterval { goto: 0, seq: Interval('b', 'a') }.num_chars(), 0);
    assert_eq!(InstInterval { goto: 0, seq: Interval('\0', '\u{10FFFF}') }.num_chars(), 0x110000);
}

#[test]
fn well_formed_programs() {
    let mut prog: Program<char> = Program::new();
    // No start instruction.
    assert!(!prog.is_wf());
    prog.insts = vec![
        Inst::Split(InstSplit { goto1: 1, goto2: 2 }),
        Inst::One(InstOne { goto: 2, c: 'a' }),
        Inst::Match(9),
    ];
    assert!(prog.is_wf());
    prog.start = 2;
    assert!(prog.is_wf());
    prog.start = 3;
    assert!(!prog.is_wf());
    prog.start = 0;
    prog.insts[0] = Inst::Split(InstSplit { goto1: 1, goto2: 3 });
    assert!(!prog.is_wf());
    prog.insts[0] = Inst::Split(InstSplit { goto1: 3, goto2: 1 });
    assert!(!prog.is_wf());
    prog.insts[0] = Inst::Zero(InstZero { goto: 3, look: Zero::EndText });
    assert!(!prog.is_wf());
    prog.insts[0] = Inst::Zero(InstZero { goto: 2, look: Zero::EndText });
    assert!(prog.is_wf());
    prog.insts[0] = Inst::Zero(InstZero { goto: 2, look: Zero::Any });
    assert!(!prog.is_wf());
    prog.insts[0] = Inst::Interval(InstInterval { goto: 3, seq: Interval('a', 'b') });
    assert!(!prog.is_wf());
    prog.insts[0] = Inst::Interval(InstInterval { goto: 0, seq: Interval('a', 'b') });
    assert!(prog.is_wf());
    prog.insts[1] = Inst::One(InstOne { goto: 3, c: 'a' });
    assert!(!prog.is_wf());
    assert!(Inst::<char>::Match(100).is_wf(0));
    assert!(!Inst::One(InstOne { goto: 0, c: 'a' }).is_wf(0));
}

#[test]
fn listing_writes_a_line_for_each_instruction() {
    let mut prog: Program<char> = Program::new();
    prog.insts = vec![
        Inst::Split(InstSplit { goto1: 1, goto2: 3 }),
        Inst::One(InstOne { goto: 2, c: 'a' }),
        Inst::Match(0),
        Inst::One(InstOne { goto: 4, c: 'b' }),
        Inst::Match(0),
    ];
    assert_eq!(
        prog.listing(),
        "0000 Split(1, 3) (start)\n0001 'a'\n0002 Match(0)\n0003 'b'\n0004 Match(0)\n"
    );
    let empty: Program<char> = Program::new();
    assert_eq!(empty.listing(), "");
}

#[test]
fn listing_names_the_target_that_is_not_the_next() {
    let mut prog: Program<char> = Program::new();
    prog.insts = vec![
        Inst::Zero(InstZero { goto: 1, look: Zero::StartText }),
        Inst::Zero(InstZero { goto: 0, look: Zero::NotWordBoundaryAscii }),
        Inst::One(InstOne { goto: 2, c: '\n' }),
        Inst::Interval(InstInterval { goto: 4, seq: Interval('a', 'z') }),
        Inst::Interval(InstInterval { goto: 12, seq: Interval('\'', '\u{301}') }),
        Inst::Match(17),
    ];
    prog.start = 3;
    assert_eq!(
        prog.listing(),
        "0000 StartText\n\
         0001 NotWordBoundaryAscii (goto: 0)\n\
         0002 '\\n' (goto: 2)\n\
         0003 'a'-'z' (start)\n\
         0004 '\\''-'\\u{301}' (goto: 12)\n\
         0005 Match(17)\n"
    );
}

#[test]
fn listing_names_every_assertion() {
    let looks = [
        (Zero::Any, "Any"),
        (Zero::StartLine, "StartLine"),
        (Zero::EndLine, "EndLine"),
        (Zero::StartText, "StartText"),
        (Zero::EndText, "EndText"),
        (Zero::WordBoundary, "WordBoundary"),
        (Zero::NotWordBoundary, "NotWordBoundary"),
        (Zero::WordBoundaryAscii, "WordBoundaryAscii"),
        (Zero::NotWordBoundaryAscii, "NotWordBoundaryAscii"),
    ];
    for (look, name) in looks {
        let mut prog: Program<char> = Program::new();
        prog.insts = vec![Inst::Zero(InstZero { goto: 1, look })];
        prog.start = 1;
        assert_eq!(prog.listing(), format!("0000 {}\n", name));
        assert_eq!(format!("{:?}", look), name);
    }
}

#[test]
fn listing_pads_the_index_to_four_digits() {
    let mut prog: Program<char> = Program::new();
    prog.insts = vec![Inst::Match(0); 10001];
    prog.start = 10001;
    let listing = prog.listing();
    let lines: Vec<&str> = listing.lines().collect();
    assert_eq!(lines.len(), 10001);
    assert_eq!(lines[0], "0000 Match(0)");
    assert_eq!(lines[9], "0009 Match(0)");
    assert_eq!(lines[10], "0010 Match(0)");
    assert_eq!(lines[99], "0099 Match(0)");
    assert_eq!(lines[100], "0100 Match(0)");
    assert_eq!(lines[999], "0999 Match(0)");
    assert_eq!(lines[1000], "1000 Match(0)");
    assert_eq!(lines[9999], "9999 Match(0)");
    assert_eq!(lines[10000], "10000 Match(0)");
    prog.insts[7] = Inst::Split(InstSplit { goto1: 1234567890, goto2: 0 });
    prog.insts[8] = Inst::Match(usize::MAX);
    let listing = prog.listing();
    let lines: Vec<&str> = listing.lines().collect();
    assert_eq!(lines[7], "0007 Split(1234567890, 0)");
    assert_eq!(lines[8], format!("0008 Match({})", usize::MAX));
}

#[test]
fn program_reads_as_its_instructions() {
    let mut prog: Program<char> = Program::new();
    prog.insts = vec![Inst::One(InstOne { goto: 1, c: 'a' }), Inst::Match(4)];
    assert_eq!(prog.len(), 2);
    assert!(!prog[0].is_match());
    assert!(prog[1].is_match());
    assert_eq!(prog.iter().filter(|inst| inst.is_match()).count(), 1);
    let mut slots = Vec::new();
    for inst in &prog {
        if let Inst::Match(slot) = inst {
            slots.push(*slot);
        }
    }
    assert_eq!(slots, vec![4]);
    assert!(prog.first().is_some());
}

#[test]
fn leads_to_match_of_a_set_reads_no_instruction() {
    let mut prog: Program<char> = Program::new();
    prog.insts = vec![Inst::Match(0), Inst::Match(1)];
    prog.matches = vec![0, 1];
    assert!(!prog.leads_to_match(0));
    assert!(!prog.leads_to_match(1));
    assert!(!prog.leads_to_match(2));
    assert!(!prog.leads_to_match(usize::MAX));
    let mut empty: Program<char> = Program::new();
    empty.matches = vec![0, 0, 0];
    assert!(!empty.leads_to_match(0));
}
