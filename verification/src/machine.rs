//! What a search computes: the backtracking machine, as mathematics.
//!
//! A state is an instruction and a position. The machine keeps a list of
//! jobs, states still to be tried, the last of them first, and never executes
//! a state twice. The engine of [`crate::backtrack`] computes what this
//! machine computes.

use vstd::prelude::*;

use crate::context::element_after;
use crate::literal::{first_occurrence, lemma_first_occurrence};
use crate::program::{Inst, Program};
use crate::unicode::empty_match;

verus! {

/// What a search has done so far.
pub struct Progress {
    /// The keys of the states executed.
    pub seen: Set<int>,
    /// The slots of the `Match` instructions executed.
    pub hits: Set<int>,
    /// How many `Match` instructions were executed.
    pub found: nat,
    /// How many instructions were executed.
    pub steps: nat,
}

/// The progress of a search that has done nothing yet.
pub open spec fn fresh() -> Progress {
    Progress { seen: Set::empty(), hits: Set::empty(), found: 0, steps: 0 }
}

/// The number that stands for the state `(ip, at)` on an input of `text_len`
/// elements.
pub open spec fn key(text_len: int, ip: int, at: int) -> int {
    ip * (text_len + 1) + at
}

/// Whether `(ip, at)` is a state of the program `insts` on `input`.
pub open spec fn is_state(insts: Seq<Inst<char>>, input: Seq<char>, ip: int, at: int) -> bool {
    0 <= ip < insts.len() && 0 <= at <= input.len()
}

/// The number of states of the program `insts` on `input`; their keys are
/// the numbers below it.
pub open spec fn num_states(insts: Seq<Inst<char>>, input: Seq<char>) -> int {
    (insts.len() * (input.len() + 1)) as int
}

/// How many of the `total` first keys are not in `seen`.
pub open spec fn unseen(total: int, seen: Set<int>) -> nat {
    Set::new(|k: int| 0 <= k < total && !seen.contains(k)).len()
}

/// The states that follow `(ip, at)`, the one to be tried first standing
/// last: for a `Split` its second branch, then its first; for an instruction
/// that the input satisfies, the state behind it; for a `Match`, and for an
/// instruction that the input does not satisfy, none.
pub open spec fn successors(insts: Seq<Inst<char>>, input: Seq<char>, ip: int, at: int) -> Seq<
    (int, int),
> {
    match insts[ip] {
        Inst::Match(_) => seq![],
        Inst::Split(split) => seq![(split.goto2 as int, at), (split.goto1 as int, at)],
        Inst::Zero(zero) => if empty_match(input, at, zero.look) {
            seq![(zero.goto as int, at)]
        } else {
            seq![]
        },
        Inst::One(one) => if element_after(input, at) == Some(one.c) {
            seq![(one.goto as int, at + 1)]
        } else {
            seq![]
        },
        Inst::Interval(interval) => match element_after(input, at) {
            Some(c) => if interval.seq.contains(c) {
                seq![(interval.goto as int, at + 1)]
            } else {
                seq![]
            },
            None => seq![],
        },
    }
}

/// The progress after the instruction of the state `(ip, at)` was executed.
pub open spec fn visit(insts: Seq<Inst<char>>, input: Seq<char>, ip: int, at: int, st: Progress) -> Progress {
    Progress {
        seen: st.seen.insert(key(input.len() as int, ip, at)),
        hits: match insts[ip] {
            Inst::Match(slot) => st.hits.insert(slot as int),
            _ => st.hits,
        },
        found: if insts[ip] is Match {
            st.found + 1
        } else {
            st.found
        },
        steps: st.steps + 1,
    }
}

/// Whether the machine stops with jobs left: a program of one pattern stops
/// at its first match.
pub open spec fn done(single: bool, st: Progress) -> bool {
    single && st.found > 0
}

/// The progress when the machine has worked its jobs off, starting from
/// `st`. It takes the last job; a state seen before is dropped; any other is
/// executed, and the states that follow it become the next jobs.
pub open spec fn run(
    insts: Seq<Inst<char>>,
    input: Seq<char>,
    single: bool,
    jobs: Seq<(int, int)>,
    st: Progress,
) -> Progress
    decreases unseen(num_states(insts, input), st.seen), jobs.len(),
    via run_decreases
{
    if jobs.len() == 0 || done(single, st) {
        st
    } else {
        let (ip, at) = jobs.last();
        let rest = jobs.drop_last();
        if !is_state(insts, input, ip, at) || st.seen.contains(key(input.len() as int, ip, at)) {
            run(insts, input, single, rest, st)
        } else {
            run(
                insts,
                input,
                single,
                rest + successors(insts, input, ip, at),
                visit(insts, input, ip, at, st),
            )
        }
    }
}

/// The key of a state is below the number of states.
pub proof fn lemma_key_bounds(insts: Seq<Inst<char>>, input: Seq<char>, ip: int, at: int)
    requires
        is_state(insts, input, ip, at),
    ensures
        0 <= key(input.len() as int, ip, at) < num_states(insts, input),
{
    let n = input.len() as int;
    let m = insts.len() as int;
    assert(0 <= ip * (n + 1)) by (nonlinear_arith)
        requires
            0 <= ip,
            0 <= n,
    ;
    assert((ip + 1) * (n + 1) <= m * (n + 1)) by (nonlinear_arith)
        requires
            ip + 1 <= m,
            0 <= n,
    ;
    assert((ip + 1) * (n + 1) == ip * (n + 1) + n + 1) by (nonlinear_arith);
}

/// Two states with one key are one state.
pub proof fn lemma_key_injective(text_len: int, ip1: int, at1: int, ip2: int, at2: int)
    requires
        0 <= at1 <= text_len,
        0 <= at2 <= text_len,
        key(text_len, ip1, at1) == key(text_len, ip2, at2),
    ensures
        ip1 == ip2,
        at1 == at2,
{
    if ip1 < ip2 {
        assert((ip1 + 1) * (text_len + 1) <= ip2 * (text_len + 1)) by (nonlinear_arith)
            requires
                ip1 + 1 <= ip2,
                0 <= text_len,
        ;
        assert((ip1 + 1) * (text_len + 1) == ip1 * (text_len + 1) + text_len + 1)
            by (nonlinear_arith);
    }
    if ip2 < ip1 {
        assert((ip2 + 1) * (text_len + 1) <= ip1 * (text_len + 1)) by (nonlinear_arith)
            requires
                ip2 + 1 <= ip1,
                0 <= text_len,
        ;
        assert((ip2 + 1) * (text_len + 1) == ip2 * (text_len + 1) + text_len + 1)
            by (nonlinear_arith);
    }
}

/// Seeing one more of the `total` first keys leaves fewer of them unseen.
pub proof fn lemma_unseen_decreases(total: int, seen: Set<int>, k: int)
    requires
        0 <= k < total,
        !seen.contains(k),
    ensures
        unseen(total, seen.insert(k)) < unseen(total, seen),
{
    let before = Set::new(|j: int| 0 <= j < total && !seen.contains(j));
    let after = Set::new(|j: int| 0 <= j < total && !seen.insert(k).contains(j));
    vstd::set_lib::lemma_int_range(0, total);
    vstd::set_lib::lemma_len_subset(before, vstd::set_lib::set_int_range(0, total));
    assert(after =~= before.remove(k));
    assert(before.contains(k));
}

#[via_fn]
proof fn run_decreases(
    insts: Seq<Inst<char>>,
    input: Seq<char>,
    single: bool,
    jobs: Seq<(int, int)>,
    st: Progress,
) {
    if !(jobs.len() == 0 || done(single, st)) {
        let (ip, at) = jobs.last();
        if is_state(insts, input, ip, at) && !st.seen.contains(key(input.len() as int, ip, at)) {
            lemma_key_bounds(insts, input, ip, at);
            lemma_unseen_decreases(
                num_states(insts, input),
                st.seen,
                key(input.len() as int, ip, at),
            );
        }
    }
}

/// What the machine does with the job `(ip, at)` on top of the jobs `rest`:
/// nothing where it has stopped; it drops the job where `(ip, at)` is no
/// state or was seen before; else it executes the state, and the states that
/// follow it come on top of `rest`.
pub proof fn lemma_run_top(
    insts: Seq<Inst<char>>,
    input: Seq<char>,
    single: bool,
    rest: Seq<(int, int)>,
    ip: int,
    at: int,
    st: Progress,
)
    ensures
        run(insts, input, single, rest.push((ip, at)), st) == if done(single, st) {
            st
        } else if !is_state(insts, input, ip, at) || st.seen.contains(
            key(input.len() as int, ip, at),
        ) {
            run(insts, input, single, rest, st)
        } else {
            run(
                insts,
                input,
                single,
                rest + successors(insts, input, ip, at),
                visit(insts, input, ip, at, st),
            )
        },
{
    let jobs = rest.push((ip, at));
    assert(jobs.last() == (ip, at));
    assert(jobs.drop_last() =~= rest);
}

/// What the engine does from the state `(ip, at)` on, with `jobs` below it,
/// until it has to take a job: whether it came to a `Match`, the jobs, and
/// the progress. From a state that is none or was seen before, nothing
/// happens. A `Match` ends the walk with `true`. A `Split` puts its second
/// branch on the jobs and the walk goes on with the first. Any other
/// instruction is executed, and the walk goes on with the state behind it
/// where the input satisfies it, and ends with `false` where not.
pub open spec fn walk(
    insts: Seq<Inst<char>>,
    input: Seq<char>,
    jobs: Seq<(int, int)>,
    ip: int,
    at: int,
    st: Progress,
) -> (bool, Seq<(int, int)>, Progress)
    decreases unseen(num_states(insts, input), st.seen),
    via walk_decreases
{
    if !is_state(insts, input, ip, at) || st.seen.contains(key(input.len() as int, ip, at)) {
        (false, jobs, st)
    } else {
        let next = visit(insts, input, ip, at, st);
        let follow = successors(insts, input, ip, at);
        match insts[ip] {
            Inst::Match(_) => (true, jobs, next),
            Inst::Split(split) => walk(
                insts,
                input,
                jobs.push((split.goto2 as int, at)),
                split.goto1 as int,
                at,
                next,
            ),
            _ => if follow.len() == 0 {
                (false, jobs, next)
            } else {
                walk(insts, input, jobs, follow[0].0, follow[0].1, next)
            },
        }
    }
}

#[via_fn]
proof fn walk_decreases(
    insts: Seq<Inst<char>>,
    input: Seq<char>,
    jobs: Seq<(int, int)>,
    ip: int,
    at: int,
    st: Progress,
) {
    if is_state(insts, input, ip, at) && !st.seen.contains(key(input.len() as int, ip, at)) {
        lemma_key_bounds(insts, input, ip, at);
        lemma_unseen_decreases(num_states(insts, input), st.seen, key(input.len() as int, ip, at));
    }
}

/// Whether the program is one of a single pattern, not of a set.
pub open spec fn is_single(prog: Program<char>) -> bool {
    prog.matches@.len() == 1
}

/// The first position, from `at` on, at which the scan tries a match: `at`
/// itself where the program has no literal prefixes, else the first position
/// at which one of them stands.
pub open spec fn candidate(prog: Program<char>, input: Seq<char>, at: int) -> Option<int> {
    if prog.prefixes@.len() == 0 {
        Some(at)
    } else {
        first_occurrence(prog.prefixes@, input, at)
    }
}

/// The progress of the scan that tries the start positions from `at` on, one
/// after the other, starting from `st`. It ends where no candidate is left,
/// where a program of one pattern has matched, and behind position `end`.
pub open spec fn scan(prog: Program<char>, input: Seq<char>, at: int, end: int, st: Progress) -> Progress
    decreases end - at,
    via scan_decreases
{
    match candidate(prog, input, at) {
        None => st,
        Some(p) => {
            let next = run(prog.insts@, input, is_single(prog), seq![(prog.start as int, p)], st);
            if done(is_single(prog), next) || p >= end {
                next
            } else {
                scan(prog, input, p + 1, end, next)
            }
        },
    }
}

#[via_fn]
proof fn scan_decreases(prog: Program<char>, input: Seq<char>, at: int, end: int, st: Progress) {
    if at >= 0 {
        lemma_first_occurrence(prog.prefixes@, input, at);
    }
}

/// The progress of a whole search of `input` between `start` and `end`: one
/// try at `start` for a program anchored at the start, a scan from `start`
/// on for any other.
pub open spec fn search(prog: Program<char>, input: Seq<char>, start: int, end: int) -> Progress {
    if prog.is_anchored_start {
        run(prog.insts@, input, is_single(prog), seq![(prog.start as int, start)], fresh())
    } else {
        scan(prog, input, start, end, fresh())
    }
}

/// The flags after a search that found `hits`: a flag is set where it was
/// set before and where its slot was hit; no flag is cleared, and a slot
/// beyond the flags is dropped.
pub open spec fn flagged(flags: Seq<bool>, hits: Set<int>) -> Seq<bool> {
    Seq::new(flags.len(), |i: int| flags[i] || hits.contains(i))
}

} // verus!
