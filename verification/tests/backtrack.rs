use repr::backtrack::{should_exec, Bounded, Cache, BIT_SIZE, MAX_SIZE_BYTES};
use repr::context::Context;
use repr::interval::Interval;
use repr::literal::LiteralSearcher;
use repr::program::{Inst, InstInterval, InstOne, InstSplit, InstZero, Program};
use repr::repr::Zero;

fn input(text: &str) -> Context<char> {
    Context::new(text.chars().collect())
}

fn program(insts: Vec<Inst<char>>, matches: Vec<usize>) -> Program<char> {
    let mut prog = Program::new();
    prog.insts = insts;
    prog.matches = matches;
    prog
}

fn one(c: char, goto: usize) -> Inst<char> {
    Inst::One(InstOne { goto, c })
}

fn split(goto1: usize, goto2: usize) -> Inst<char> {
    Inst::Split(InstSplit { goto1, goto2 })
}

fn look(look: Zero, goto: usize) -> Inst<char> {
    Inst::Zero(InstZero { goto, look })
}

/// `a|b`, one pattern.
fn a_or_b() -> Program<char> {
    program(vec![split(1, 3), one('a', 2), Inst::Match(0), one('b', 4), Inst::Match(0)], vec![2])
}

/// The set of the two patterns `a` and `b`.
fn a_and_b_as_set() -> Program<char> {
    program(vec![split(1, 3), one('a', 2), Inst::Match(0), one('b', 4), Inst::Match(1)], vec![2, 4])
}

fn marked_positions(cache: &Cache, prog: &Program<char>, text_len: usize) -> Vec<usize> {
    let mut positions = Vec::new();
    for at in 0..=text_len {
        if (0..prog.len()).any(|ip| cache.is_marked(ip * (text_len + 1) + at)) {
            positions.push(at);
        }
    }
    positions
}

#[test]
fn alternation_finds_b_in_xba() {
    let prog = a_or_b();
    assert!(prog.is_wf());
    let mut cache = Cache::new(&prog);
    let mut flags = vec![false];
    let matched = Bounded::exec(&prog, &mut cache, &mut flags, input("xba"), 0, 3);
    assert!(matched);
    assert_eq!(flags, vec![true]);
    // Position 0 fails on both branches, position 1 matches on the second,
    // position 2 is never tried.
    assert!(cache.is_marked(0 * 4 + 0));
    assert!(cache.is_marked(1 * 4 + 0));
    assert!(cache.is_marked(3 * 4 + 0));
    assert!(cache.is_marked(0 * 4 + 1));
    assert!(cache.is_marked(1 * 4 + 1));
    assert!(cache.is_marked(3 * 4 + 1));
    assert!(cache.is_marked(4 * 4 + 2));
    assert!(!cache.is_marked(2 * 4 + 1));
    assert!(!cache.is_marked(0 * 4 + 2));
    assert!(!cache.is_marked(1 * 4 + 2));
    assert!(!cache.is_marked(3 * 4 + 2));
    assert!(!cache.is_marked(0 * 4 + 3));
}

#[test]
fn start_text_matches_empty_input() {
    let mut prog = program(vec![look(Zero::StartText, 1), Inst::Match(0)], vec![1]);
    prog.is_anchored_start = true;
    let mut cache = Cache::new(&prog);
    let mut flags = vec![false];
    assert!(Bounded::exec(&prog, &mut cache, &mut flags, input(""), 0, 0));
    assert_eq!(flags, vec![true]);
}

#[test]
fn should_exec_follows_the_ceiling() {
    // 1000 instructions on 1000 elements: 1_001_000 bits, 31_282 words,
    // 125_128 bytes, which is under the ceiling.
    assert!(should_exec(1000, 1000));
    assert_eq!(MAX_SIZE_BYTES, 256 * 1024);
    assert_eq!(BIT_SIZE, 32);
    // Exactly at the ceiling: 65_536 words.
    assert!(should_exec(2097152, 0));
    assert!(should_exec(1, 2097151));
    assert!(should_exec(1024, 2047));
    // One bit more takes one word more.
    assert!(!should_exec(2097153, 0));
    assert!(!should_exec(1, 2097152));
    assert!(!should_exec(1024, 2048));
    assert!(should_exec(0, usize::MAX));
    assert!(should_exec(0, 0));
    assert!(!should_exec(usize::MAX, usize::MAX));
    assert!(!should_exec(usize::MAX, 0));
}

#[test]
fn no_match_sets_no_flag() {
    let prog = a_or_b();
    let mut cache = Cache::new(&prog);
    let mut flags = vec![false];
    assert!(!Bounded::exec(&prog, &mut cache, &mut flags, input("xyz"), 0, 3));
    assert_eq!(flags, vec![false]);
    assert_eq!(marked_positions(&cache, &prog, 3), vec![0, 1, 2, 3]);
}

#[test]
fn second_run_on_the_same_cache_gives_the_same() {
    let prog = a_or_b();
    let mut cache = Cache::new(&prog);
    let mut first = vec![false];
    let matched = Bounded::exec(&prog, &mut cache, &mut first, input("xba"), 0, 3);
    let marks = marked_positions(&cache, &prog, 3);
    let mut second = vec![false];
    let again = Bounded::exec(&prog, &mut cache, &mut second, input("xba"), 0, 3);
    assert_eq!(matched, again);
    assert_eq!(first, second);
    assert_eq!(marks, marked_positions(&cache, &prog, 3));
    // On the flags that the first run left, nothing changes.
    assert!(Bounded::exec(&prog, &mut cache, &mut first, input("xba"), 0, 3));
    assert_eq!(first, vec![true]);
}

#[test]
fn cache_is_reused_across_inputs_of_other_lengths() {
    let prog = a_or_b();
    let mut cache = Cache::new(&prog);
    let mut flags = vec![false];
    assert!(!Bounded::exec(&prog, &mut cache, &mut flags, input("xxxxxxxxxxxxxxxxxxxxxxxxxxxxxxxxxxxxxxxx"), 0, 40));
    assert!(Bounded::exec(&prog, &mut cache, &mut flags, input("b"), 0, 1));
    assert_eq!(flags, vec![true]);
    let mut flags = vec![false];
    assert!(!Bounded::exec(&prog, &mut cache, &mut flags, input(""), 0, 0));
    assert!(Bounded::exec(&prog, &mut cache, &mut flags, input("xxxxxxxxxxxxxxxxxxxxxxxxxxxxxxxxxxxxxxxxxxxxxxxxxxxxxxxxxxxxxxxxxxxxxxxxa"), 0, 73));
}

#[test]
fn first_branch_of_a_split_wins() {
    // Both branches lead to a match at once; one pattern reports the first.
    let prog = program(vec![split(1, 2), Inst::Match(0), Inst::Match(1)], vec![1]);
    let mut cache = Cache::new(&prog);
    let mut flags = vec![false, false];
    assert!(Bounded::exec(&prog, &mut cache, &mut flags, input("x"), 0, 1));
    assert_eq!(flags, vec![true, false]);
    assert!(!cache.is_marked(2 * 2 + 0));

    let prog = program(vec![split(2, 1), Inst::Match(0), Inst::Match(1)], vec![1]);
    let mut flags = vec![false, false];
    assert!(Bounded::exec(&prog, &mut cache, &mut flags, input("x"), 0, 1));
    assert_eq!(flags, vec![false, true]);
}

#[test]
fn first_branch_is_explored_to_its_end_before_the_second() {
    // The first branch fails after two elements; only then the second is tried.
    let prog = program(
        vec![split(1, 4), one('a', 2), one('b', 3), Inst::Match(0), one('a', 5), Inst::Match(1)],
        vec![3],
    );
    let mut cache = Cache::new(&prog);
    let mut flags = vec![false, false];
    assert!(Bounded::exec(&prog, &mut cache, &mut flags, input("ac"), 0, 2));
    assert_eq!(flags, vec![false, true]);
    let mut flags = vec![false, false];
    assert!(Bounded::exec(&prog, &mut cache, &mut flags, input("ab"), 0, 2));
    assert_eq!(flags, vec![true, false]);
}

#[test]
fn anchored_program_tries_one_position() {
    let mut prog = program(vec![one('a', 1), Inst::Match(0)], vec![1]);
    prog.is_anchored_start = true;
    let mut cache = Cache::new(&prog);
    let mut flags = vec![false];
    assert!(!Bounded::exec(&prog, &mut cache, &mut flags, input("ba"), 0, 2));
    assert_eq!(marked_positions(&cache, &prog, 2), vec![0]);
    assert!(Bounded::exec(&prog, &mut cache, &mut flags, input("ba"), 1, 2));
    assert_eq!(marked_positions(&cache, &prog, 2), vec![1, 2]);
    // Whatever `end` is.
    let mut flags = vec![false];
    assert!(!Bounded::exec(&prog, &mut cache, &mut flags, input("ba"), 0, 0));
    assert!(Bounded::exec(&prog, &mut cache, &mut flags, input("ba"), 1, 0));
}

#[test]
fn single_pattern_stops_at_its_first_match() {
    let prog = program(vec![one('a', 1), Inst::Match(0)], vec![1]);
    let mut cache = Cache::new(&prog);
    let mut flags = vec![false];
    assert!(Bounded::exec(&prog, &mut cache, &mut flags, input("xaxa"), 0, 4));
    assert_eq!(marked_positions(&cache, &prog, 4), vec![0, 1, 2]);
}

#[test]
fn set_collects_every_alternative() {
    let prog = a_and_b_as_set();
    let mut cache = Cache::new(&prog);
    let mut flags = vec![false, false];
    assert!(Bounded::exec(&prog, &mut cache, &mut flags, input("xba"), 0, 3));
    assert_eq!(flags, vec![true, true]);
    assert_eq!(marked_positions(&cache, &prog, 3), vec![0, 1, 2, 3]);

    let mut flags = vec![false, false];
    assert!(Bounded::exec(&prog, &mut cache, &mut flags, input("xbx"), 0, 3));
    assert_eq!(flags, vec![false, true]);

    let mut flags = vec![false, false];
    assert!(!Bounded::exec(&prog, &mut cache, &mut flags, input("xyz"), 0, 3));
    assert_eq!(flags, vec![false, false]);
}

#[test]
fn set_honours_the_range() {
    let prog = a_and_b_as_set();
    let mut cache = Cache::new(&prog);
    // Start positions 0 and 1 only: the `a` at 2 is not found.
    let mut flags = vec![false, false];
    assert!(Bounded::exec(&prog, &mut cache, &mut flags, input("xba"), 0, 1));
    assert_eq!(flags, vec![false, true]);
    // Start position 2 only.
    let mut flags = vec![false, false];
    assert!(Bounded::exec(&prog, &mut cache, &mut flags, input("xba"), 2, 3));
    assert_eq!(flags, vec![true, false]);
    // `start` behind `end`: `start` is tried, and nothing else.
    let mut flags = vec![false, false];
    assert!(Bounded::exec(&prog, &mut cache, &mut flags, input("xba"), 1, 0));
    assert_eq!(flags, vec![false, true]);
    assert_eq!(marked_positions(&cache, &prog, 3), vec![1, 2]);
}

#[test]
fn flags_are_never_cleared() {
    let prog = a_and_b_as_set();
    let mut cache = Cache::new(&prog);
    let mut flags = vec![true, false, true];
    assert!(!Bounded::exec(&prog, &mut cache, &mut flags, input("xyz"), 0, 3));
    assert_eq!(flags, vec![true, false, true]);
    assert!(Bounded::exec(&prog, &mut cache, &mut flags, input("b"), 0, 1));
    assert_eq!(flags, vec![true, true, true]);
}

#[test]
fn slot_beyond_the_flags_is_dropped() {
    let prog = a_and_b_as_set();
    let mut cache = Cache::new(&prog);
    let mut flags = vec![false];
    assert!(Bounded::exec(&prog, &mut cache, &mut flags, input("b"), 0, 1));
    assert_eq!(flags, vec![false]);
    let mut none: Vec<bool> = vec![];
    assert!(Bounded::exec(&prog, &mut cache, &mut none, input("ab"), 0, 2));
    assert!(none.is_empty());
}

#[test]
fn loops_without_progress_end() {
    // (a*)*b: the inner loop can go round without consuming anything.
    let prog = program(
        vec![split(1, 4), split(2, 0), one('a', 1), Inst::Match(7), one('b', 3)],
        vec![3],
    );
    assert!(prog.is_wf());
    let mut cache = Cache::new(&prog);
    let mut flags = vec![false];
    assert!(Bounded::exec(&prog, &mut cache, &mut flags, input("aaaaaaaaaaaaaaaaaaaaaaaab"), 0, 25));
    assert!(!Bounded::exec(&prog, &mut cache, &mut flags, input("aaaaaaaaaaaaaaaaaaaaaaaac"), 0, 25));
    // A split that leads to itself.
    let prog = program(vec![split(0, 1), Inst::Match(0)], vec![1]);
    let mut flags = vec![false];
    assert!(Bounded::exec(&prog, &mut cache, &mut flags, input(""), 0, 0));
    assert_eq!(flags, vec![true]);
}

#[test]
fn interval_consumes_what_lies_in_it() {
    let digit = Inst::Interval(InstInterval { goto: 1, seq: Interval('0', '9') });
    let mut prog = program(vec![digit, look(Zero::EndText, 2), Inst::Match(0)], vec![2]);
    prog.is_anchored_start = true;
    let mut cache = Cache::new(&prog);
    for (text, expected) in [("0", true), ("5", true), ("9", true), ("/", false), (":", false), ("", false), ("12", false)] {
        let mut flags = vec![false];
        let n = text.chars().count();
        assert_eq!(Bounded::exec(&prog, &mut cache, &mut flags, input(text), 0, n), expected);
        assert_eq!(flags, vec![expected]);
    }
}

#[test]
fn start_is_the_start_instruction() {
    // Instruction 0 is not the start: the program begins at 1.
    let mut prog = program(vec![Inst::Match(1), one('a', 2), Inst::Match(0)], vec![2]);
    prog.start = 1;
    let mut cache = Cache::new(&prog);
    let mut flags = vec![false, false];
    assert!(!Bounded::exec(&prog, &mut cache, &mut flags, input("x"), 0, 1));
    assert_eq!(flags, vec![false, false]);
    assert!(Bounded::exec(&prog, &mut cache, &mut flags, input("a"), 0, 1));
    assert_eq!(flags, vec![true, false]);
}

#[test]
fn prefixes_skip_to_the_candidates() {
    let mut prog = program(vec![one('b', 1), one('c', 2), Inst::Match(0)], vec![2]);
    prog.prefixes = LiteralSearcher::new(vec![vec!['b']]);
    let mut cache = Cache::new(&prog);
    let mut flags = vec![false];
    assert!(Bounded::exec(&prog, &mut cache, &mut flags, input("abxxbc"), 0, 6));
    assert_eq!(marked_positions(&cache, &prog, 6), vec![1, 2, 4, 5, 6]);
    // No candidate at all: nothing is tried.
    let mut flags = vec![false];
    assert!(!Bounded::exec(&prog, &mut cache, &mut flags, input("axxxxc"), 0, 6));
    assert_eq!(marked_positions(&cache, &prog, 6), Vec::<usize>::new());
    // A set goes on behind a match, from candidate to candidate.
    let mut set = program(vec![one('b', 1), Inst::Match(0)], vec![1, 1]);
    set.prefixes = LiteralSearcher::new(vec![vec!['b']]);
    let mut flags = vec![false];
    assert!(Bounded::exec(&set, &mut cache, &mut flags, input("bab"), 0, 3));
    assert_eq!(marked_positions(&cache, &set, 3), vec![0, 1, 2, 3]);
    assert!(!cache.is_marked(0 * 4 + 1));
}

#[test]
fn zero_width_assertions_in_a_program() {
    // ^a$ in multi-line mode.
    let prog = program(
        vec![look(Zero::StartLine, 1), one('a', 2), look(Zero::EndLine, 3), Inst::Match(0)],
        vec![3],
    );
    let mut cache = Cache::new(&prog);
    for (text, expected) in [("a", true), ("x\na\nx", true), ("xa", false), ("ax", false), ("x\na", true), ("a\nx", true)] {
        let mut flags = vec![false];
        let n = text.chars().count();
        assert_eq!(Bounded::exec(&prog, &mut cache, &mut flags, input(text), 0, n), expected, "{:?}", text);
    }
    // \bab\b
    let prog = program(
        vec![look(Zero::WordBoundary, 1), one('a', 2), one('b', 3), look(Zero::WordBoundary, 4), Inst::Match(0)],
        vec![4],
    );
    for (text, expected) in [("ab", true), ("x ab y", true), ("xab", false), ("abx", false), ("éab", false), ("-ab-", true)] {
        let mut flags = vec![false];
        let n = text.chars().count();
        assert_eq!(Bounded::exec(&prog, &mut cache, &mut flags, input(text), 0, n), expected, "{:?}", text);
    }
}

#[test]
fn try_exec_refuses_what_cannot_be_executed() {
    let prog = a_or_b();
    let mut cache = Cache::new(&prog);
    let mut flags = vec![false];
    assert_eq!(Bounded::try_exec(&prog, &mut cache, &mut flags, input("xba"), 0, 3), Some(true));
    assert_eq!(flags, vec![true]);
    let mut flags = vec![false];
    assert_eq!(Bounded::try_exec(&prog, &mut cache, &mut flags, input("xyz"), 0, 3), Some(false));
    // A position beyond the input.
    assert_eq!(Bounded::try_exec(&prog, &mut cache, &mut flags, input("xba"), 4, 3), None);
    assert_eq!(Bounded::try_exec(&prog, &mut cache, &mut flags, input("xba"), 0, 4), None);
    // A target beyond the program.
    let broken = program(vec![one('a', 2), Inst::Match(0)], vec![1]);
    assert!(!broken.is_wf());
    assert_eq!(Bounded::try_exec(&broken, &mut cache, &mut flags, input("a"), 0, 1), None);
    // An assertion that asserts nothing.
    let broken = program(vec![look(Zero::Any, 1), Inst::Match(0)], vec![1]);
    assert_eq!(Bounded::try_exec(&broken, &mut cache, &mut flags, input("a"), 0, 1), None);
    // No instruction at all.
    let empty: Program<char> = Program::new();
    assert_eq!(Bounded::try_exec(&empty, &mut cache, &mut flags, input("a"), 0, 1), None);
    // Too much for the bitset.
    let long: String = std::iter::repeat('x').take(500000).collect();
    assert!(!should_exec(prog.len(), 500000));
    assert_eq!(Bounded::try_exec(&prog, &mut cache, &mut flags, input(&long), 0, 10), None);
    assert_eq!(flags, vec![false]);
}

#[test]
fn no_more_marks_than_states() {
    let prog = program(
        vec![split(1, 4), split(2, 0), one('a', 1), Inst::Match(7), one('b', 3)],
        vec![3, 3],
    );
    let text = "aaaaaaaaaaaaaaaaaaaaaaaab";
    let mut cache = Cache::new(&prog);
    let mut flags = vec![false];
    assert!(Bounded::exec(&prog, &mut cache, &mut flags, input(text), 0, 25));
    let states = prog.len() * (text.len() + 1);
    let marked = (0..states + 64).filter(|key| cache.is_marked(*key)).count();
    assert!(marked <= states);
    assert!((states..states + 64).all(|key| !cache.is_marked(key)));
    // Every state but those of the `Match` at the positions before the `b`
    // can be reached from some start position; those of `b` behind it too.
    assert!(marked >= 4 * 26);
}

#[test]
fn anchored_program_does_not_read_end() {
    let mut prog = program(vec![one('a', 1), Inst::Match(0)], vec![1]);
    prog.is_anchored_start = true;
    let mut cache = Cache::new(&prog);
    let mut flags = vec![false];
    assert!(Bounded::exec(&prog, &mut cache, &mut flags, input("ab"), 0, 100));
    assert_eq!(flags, vec![true]);
    assert_eq!(marked_positions(&cache, &prog, 2), vec![0, 1]);
    let mut flags = vec![false];
    assert_eq!(Bounded::try_exec(&prog, &mut cache, &mut flags, input("ab"), 1, usize::MAX), Some(false));
    assert_eq!(flags, vec![false]);
    assert_eq!(Bounded::try_exec(&prog, &mut cache, &mut flags, input("ab"), 3, 0), None);
    // A program that scans reads it.
    prog.is_anchored_start = false;
    assert_eq!(Bounded::try_exec(&prog, &mut cache, &mut flags, input("ab"), 0, 3), None);
    assert_eq!(Bounded::try_exec(&prog, &mut cache, &mut flags, input("ab"), 0, 2), Some(true));
}
