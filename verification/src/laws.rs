//! What holds of every search: theorems about the machine of
//! [`crate::machine`], and so about the engine that computes what it
//! computes.

use vstd::prelude::*;

use crate::machine::{
    candidate, done, flagged, fresh, is_single, is_state, key, lemma_key_bounds, lemma_run_top,
    lemma_unseen_decreases, num_states, run, scan, search, successors, unseen, visit, walk,
    Progress,
};
use crate::program::{Inst, Program};

verus! {

/// Whether every step of a search so far was the first visit of a state:
/// the keys seen are keys of states, and there are as many of them as steps
/// were made.
pub open spec fn counted(insts: Seq<Inst<char>>, input: Seq<char>, st: Progress) -> bool {
    &&& st.seen.finite()
    &&& st.seen.len() == st.steps
    &&& forall|k: int| st.seen.contains(k) ==> 0 <= k < num_states(insts, input)
}

/// The machine executes no state twice: if every step before was the first
/// visit of a state, so is every step of a run, and there are no more steps
/// than states.
pub proof fn lemma_run_counted(
    insts: Seq<Inst<char>>,
    input: Seq<char>,
    single: bool,
    jobs: Seq<(int, int)>,
    st: Progress,
)
    requires
        counted(insts, input, st),
    ensures
        counted(insts, input, run(insts, input, single, jobs, st)),
        run(insts, input, single, jobs, st).steps <= num_states(insts, input),
    decreases unseen(num_states(insts, input), st.seen), jobs.len(),
{
    let total = num_states(insts, input);
    if jobs.len() == 0 || done(single, st) {
        vstd::set_lib::lemma_int_range(0, total);
        vstd::set_lib::lemma_len_subset(st.seen, vstd::set_lib::set_int_range(0, total));
    } else {
        let (ip, at) = jobs.last();
        let k = key(input.len() as int, ip, at);
        if !is_state(insts, input, ip, at) || st.seen.contains(k) {
            lemma_run_counted(insts, input, single, jobs.drop_last(), st);
        } else {
            lemma_key_bounds(insts, input, ip, at);
            lemma_unseen_decreases(total, st.seen, k);
            lemma_run_counted(
                insts,
                input,
                single,
                jobs.drop_last() + successors(insts, input, ip, at),
                visit(insts, input, ip, at, st),
            );
        }
    }
}

/// A scan executes no state twice.
pub proof fn lemma_scan_counted(prog: Program<char>, input: Seq<char>, at: int, end: int, st: Progress)
    requires
        counted(prog.insts@, input, st),
    ensures
        counted(prog.insts@, input, scan(prog, input, at, end, st)),
    decreases end - at,
{
    match candidate(prog, input, at) {
        None => {},
        Some(p) => {
            let jobs = seq![(prog.start as int, p)];
            let next = run(prog.insts@, input, is_single(prog), jobs, st);
            lemma_run_counted(prog.insts@, input, is_single(prog), jobs, st);
            if !(done(is_single(prog), next) || p >= end) {
                if at >= 0 {
                    crate::literal::lemma_first_occurrence(prog.prefixes@, input, at);
                }
                lemma_scan_counted(prog, input, p + 1, end, next);
            }
        },
    }
}

/// A search executes each state of the program on the input once at most,
/// so it makes no more steps than there are states: the number of
/// instructions times the number of positions.
pub proof fn lemma_linear_bound(prog: Program<char>, input: Seq<char>, start: int, end: int)
    ensures
        counted(prog.insts@, input, search(prog, input, start, end)),
        search(prog, input, start, end).steps <= prog.insts@.len() * (input.len() + 1),
{
    let insts = prog.insts@;
    let total = num_states(insts, input);
    assert(counted(insts, input, fresh()));
    if prog.is_anchored_start {
        lemma_run_counted(insts, input, is_single(prog), seq![(prog.start as int, start)], fresh());
    } else {
        lemma_scan_counted(prog, input, start, end, fresh());
    }
    let out = search(prog, input, start, end);
    vstd::set_lib::lemma_int_range(0, total);
    vstd::set_lib::lemma_len_subset(out.seen, vstd::set_lib::set_int_range(0, total));
}

/// A run of a program of one pattern stops at its first match: where no
/// match was found before it, it finds one at most.
pub proof fn lemma_single_run_finds_one(
    insts: Seq<Inst<char>>,
    input: Seq<char>,
    jobs: Seq<(int, int)>,
    st: Progress,
)
    requires
        st.found <= 1,
    ensures
        run(insts, input, true, jobs, st).found <= 1,
    decreases unseen(num_states(insts, input), st.seen), jobs.len(),
{
    if jobs.len() == 0 || done(true, st) {
    } else {
        let (ip, at) = jobs.last();
        let k = key(input.len() as int, ip, at);
        if !is_state(insts, input, ip, at) || st.seen.contains(k) {
            lemma_single_run_finds_one(insts, input, jobs.drop_last(), st);
        } else {
            lemma_key_bounds(insts, input, ip, at);
            lemma_unseen_decreases(num_states(insts, input), st.seen, k);
            lemma_single_run_finds_one(
                insts,
                input,
                jobs.drop_last() + successors(insts, input, ip, at),
                visit(insts, input, ip, at, st),
            );
        }
    }
}

/// A scan of a program of one pattern finds one match at most.
pub proof fn lemma_single_scan_finds_one(
    prog: Program<char>,
    input: Seq<char>,
    at: int,
    end: int,
    st: Progress,
)
    requires
        is_single(prog),
        st.found <= 1,
    ensures
        scan(prog, input, at, end, st).found <= 1,
    decreases end - at,
{
    match candidate(prog, input, at) {
        None => {},
        Some(p) => {
            let jobs = seq![(prog.start as int, p)];
            let next = run(prog.insts@, input, true, jobs, st);
            lemma_single_run_finds_one(prog.insts@, input, jobs, st);
            if !(done(true, next) || p >= end) {
                if at >= 0 {
                    crate::literal::lemma_first_occurrence(prog.prefixes@, input, at);
                }
                lemma_single_scan_finds_one(prog, input, p + 1, end, next);
            }
        },
    }
}

/// The search of a program of one pattern executes one `Match` instruction
/// at most: the first that it comes to.
pub proof fn lemma_single_finds_one(prog: Program<char>, input: Seq<char>, start: int, end: int)
    requires
        is_single(prog),
    ensures
        search(prog, input, start, end).found <= 1,
{
    if prog.is_anchored_start {
        lemma_single_run_finds_one(prog.insts@, input, seq![(prog.start as int, start)], fresh());
    } else {
        lemma_single_scan_finds_one(prog, input, start, end, fresh());
    }
}

/// A walk takes no job off the jobs and forgets nothing: the jobs before
/// it lie below those after it, what was seen and hit before is seen and hit
/// after, a walk that ends with `false` hits nothing, and one that ends with
/// `true` has executed one `Match`.
pub proof fn lemma_walk_grows(
    insts: Seq<Inst<char>>,
    input: Seq<char>,
    jobs: Seq<(int, int)>,
    ip: int,
    at: int,
    st: Progress,
)
    ensures
        jobs.is_prefix_of(walk(insts, input, jobs, ip, at, st).1),
        st.seen.subset_of(walk(insts, input, jobs, ip, at, st).2.seen),
        st.hits.subset_of(walk(insts, input, jobs, ip, at, st).2.hits),
        !walk(insts, input, jobs, ip, at, st).0 ==> {
            &&& walk(insts, input, jobs, ip, at, st).2.hits == st.hits
            &&& walk(insts, input, jobs, ip, at, st).2.found == st.found
        },
        walk(insts, input, jobs, ip, at, st).0 ==> walk(insts, input, jobs, ip, at, st).2.found
            == st.found + 1,
    decreases unseen(num_states(insts, input), st.seen),
{
    let k = key(input.len() as int, ip, at);
    if is_state(insts, input, ip, at) && !st.seen.contains(k) {
        let next = visit(insts, input, ip, at, st);
        let follow = successors(insts, input, ip, at);
        lemma_key_bounds(insts, input, ip, at);
        lemma_unseen_decreases(num_states(insts, input), st.seen, k);
        match insts[ip] {
            Inst::Match(_) => {},
            Inst::Split(split) => {
                let more = jobs.push((split.goto2 as int, at));
                lemma_walk_grows(insts, input, more, split.goto1 as int, at, next);
                let after = walk(insts, input, more, split.goto1 as int, at, next).1;
                assert(jobs =~= after.subrange(0, jobs.len() as int)) by {
                    assert(more =~= after.subrange(0, more.len() as int));
                }
            },
            _ => {
                if follow.len() > 0 {
                    lemma_walk_grows(insts, input, jobs, follow[0].0, follow[0].1, next);
                }
            },
        }
    }
}

/// A walk is the machine at work: what the machine makes of the jobs with
/// `(ip, at)` on top of them is what it makes of the jobs after the walk
/// from `(ip, at)`.
pub proof fn lemma_walk_keeps_run(
    insts: Seq<Inst<char>>,
    input: Seq<char>,
    single: bool,
    jobs: Seq<(int, int)>,
    ip: int,
    at: int,
    st: Progress,
)
    requires
        !done(single, st),
    ensures
        run(insts, input, single, jobs.push((ip, at)), st) == run(
            insts,
            input,
            single,
            walk(insts, input, jobs, ip, at, st).1,
            walk(insts, input, jobs, ip, at, st).2,
        ),
    decreases unseen(num_states(insts, input), st.seen),
{
    let k = key(input.len() as int, ip, at);
    lemma_run_top(insts, input, single, jobs, ip, at, st);
    if is_state(insts, input, ip, at) && !st.seen.contains(k) {
        let next = visit(insts, input, ip, at, st);
        let follow = successors(insts, input, ip, at);
        lemma_key_bounds(insts, input, ip, at);
        lemma_unseen_decreases(num_states(insts, input), st.seen, k);
        match insts[ip] {
            Inst::Match(_) => {
                assert(jobs + follow =~= jobs);
            },
            Inst::Split(split) => {
                let more = jobs.push((split.goto2 as int, at));
                assert(jobs + follow =~= more.push((split.goto1 as int, at)));
                lemma_walk_keeps_run(insts, input, single, more, split.goto1 as int, at, next);
            },
            _ => {
                if follow.len() == 0 {
                    assert(jobs + follow =~= jobs);
                } else {
                    assert(follow.len() == 1);
                    assert(jobs + follow =~= jobs.push(follow[0]));
                    lemma_walk_keeps_run(insts, input, single, jobs, follow[0].0, follow[0].1, next);
                }
            },
        }
    }
}

/// The jobs on top are worked off before the jobs below them are touched:
/// running `base + top` is running `top` and then, unless the machine has
/// stopped, `base`.
pub proof fn lemma_run_concat(
    insts: Seq<Inst<char>>,
    input: Seq<char>,
    single: bool,
    base: Seq<(int, int)>,
    top: Seq<(int, int)>,
    st: Progress,
)
    ensures
        run(insts, input, single, base + top, st) == if done(
            single,
            run(insts, input, single, top, st),
        ) {
            run(insts, input, single, top, st)
        } else {
            run(insts, input, single, base, run(insts, input, single, top, st))
        },
    decreases unseen(num_states(insts, input), st.seen), top.len(),
{
    if top.len() == 0 {
        assert(base + top =~= base);
    } else if done(single, st) {
    } else {
        let (ip, at) = top.last();
        let k = key(input.len() as int, ip, at);
        let jobs = base + top;
        assert(jobs.last() == top.last());
        assert(jobs.drop_last() =~= base + top.drop_last());
        if !is_state(insts, input, ip, at) || st.seen.contains(k) {
            lemma_run_concat(insts, input, single, base, top.drop_last(), st);
        } else {
            let follow = successors(insts, input, ip, at);
            lemma_key_bounds(insts, input, ip, at);
            lemma_unseen_decreases(num_states(insts, input), st.seen, k);
            assert(jobs.drop_last() + follow =~= base + (top.drop_last() + follow));
            lemma_run_concat(
                insts,
                input,
                single,
                base,
                top.drop_last() + follow,
                visit(insts, input, ip, at, st),
            );
        }
    }
}

/// At a `Split` that is executed, the first branch is explored to its end
/// before the second is tried. If a program of one pattern finds
/// a match on the first branch, the search is over with it, and the second
/// branch is never tried; if it finds none, the search goes on with the
/// second branch from where the first ended.
pub proof fn lemma_split_priority(
    insts: Seq<Inst<char>>,
    input: Seq<char>,
    single: bool,
    rest: Seq<(int, int)>,
    ip: int,
    at: int,
    st: Progress,
)
    requires
        is_state(insts, input, ip, at),
        insts[ip] is Split,
        !st.seen.contains(key(input.len() as int, ip, at)),
        !done(single, st),
    ensures
        ({
            let first = (insts[ip]->Split_0.goto1 as int, at);
            let second = (insts[ip]->Split_0.goto2 as int, at);
            let after_first = run(insts, input, single, seq![first], visit(insts, input, ip, at, st));
            run(insts, input, single, rest.push((ip, at)), st) == if done(single, after_first) {
                after_first
            } else {
                run(insts, input, single, rest.push(second), after_first)
            }
        }),
{
    let first = (insts[ip]->Split_0.goto1 as int, at);
    let second = (insts[ip]->Split_0.goto2 as int, at);
    let next = visit(insts, input, ip, at, st);
    lemma_run_top(insts, input, single, rest, ip, at, st);
    assert(rest + successors(insts, input, ip, at) =~= rest.push(second) + seq![first]);
    lemma_run_concat(insts, input, single, rest.push(second), seq![first], next);
}

/// A program anchored at the start tries the one start position
/// `start` and no other, whatever `end` is.
pub proof fn lemma_anchored_tries_once(prog: Program<char>, input: Seq<char>, start: int, end: int)
    requires
        prog.is_anchored_start,
    ensures
        search(prog, input, start, end) == run(
            prog.insts@,
            input,
            is_single(prog),
            seq![(prog.start as int, start)],
            fresh(),
        ),
{
}

/// Once a program of one pattern has matched at a start
/// position, the scan is over, and no later start position is tried.
pub proof fn lemma_single_stops_at_first_match(
    prog: Program<char>,
    input: Seq<char>,
    at: int,
    end: int,
    st: Progress,
)
    requires
        is_single(prog),
        candidate(prog, input, at) is Some,
        run(
            prog.insts@,
            input,
            true,
            seq![(prog.start as int, candidate(prog, input, at).unwrap())],
            st,
        ).found > 0,
    ensures
        scan(prog, input, at, end, st) == run(
            prog.insts@,
            input,
            true,
            seq![(prog.start as int, candidate(prog, input, at).unwrap())],
            st,
        ),
{
}

/// A second search of the same input, on the flags that the first search
/// left, leaves them as they are. (What a search finds is the same whatever
/// the cache held before: the engine promises the progress of `search`,
/// which knows of no cache.)
pub proof fn lemma_second_search_changes_nothing(
    prog: Program<char>,
    input: Seq<char>,
    start: int,
    end: int,
    flags: Seq<bool>,
)
    ensures
        ({
            let out = search(prog, input, start, end);
            flagged(flagged(flags, out.hits), out.hits) == flagged(flags, out.hits)
        }),
{
    let out = search(prog, input, start, end);
    assert(flagged(flagged(flags, out.hits), out.hits) =~= flagged(flags, out.hits));
}

/// Whether the machine goes from the state `a` to the state `b` in one step.
pub open spec fn steps_to(insts: Seq<Inst<char>>, input: Seq<char>, a: (int, int), b: (int, int)) -> bool {
    is_state(insts, input, a.0, a.1) && successors(insts, input, a.0, a.1).contains(b)
}

/// Whether `path` is a walk of the machine: each of its states leads to the
/// next in one step.
pub open spec fn is_path(insts: Seq<Inst<char>>, input: Seq<char>, path: Seq<(int, int)>) -> bool {
    &&& path.len() >= 1
    &&& forall|i: int|
        0 <= i < path.len() - 1 ==> steps_to(insts, input, #[trigger] path[i], path[i + 1])
}

/// Whether the machine can go from the state `a` to the state `b`, in any
/// number of steps.
pub open spec fn reaches(insts: Seq<Inst<char>>, input: Seq<char>, a: (int, int), b: (int, int)) -> bool {
    exists|path: Seq<(int, int)>|
        #[trigger] is_path(insts, input, path) && path[0] == a && path.last() == b
}

/// Whether `x` is a state whose instruction is the `Match` of `slot`.
pub open spec fn is_match_of(insts: Seq<Inst<char>>, input: Seq<char>, x: (int, int), slot: int) -> bool {
    &&& is_state(insts, input, x.0, x.1)
    &&& insts[x.0] matches Inst::Match(s)
    &&& s == slot
}

/// Whether the start position `p` leads to `slot`: whether the machine can
/// go from the start instruction at `p` to a `Match` of `slot`.
pub open spec fn leads_to(prog: Program<char>, input: Seq<char>, p: int, slot: int) -> bool {
    exists|x: (int, int)|
        reaches(prog.insts@, input, (prog.start as int, p), x) && #[trigger] is_match_of(
            prog.insts@,
            input,
            x,
            slot,
        )
}

/// Whether a scan may try a match at position `p`: any position of the
/// input where the program has no literal prefixes, else one at which a
/// prefix stands.
pub open spec fn is_candidate(prog: Program<char>, input: Seq<char>, p: int) -> bool {
    &&& 0 <= p <= input.len()
    &&& prog.prefixes@.len() == 0 || crate::literal::any_occurs_at(prog.prefixes@, input, p)
}

/// Whether a search between `start` and `end` tries a match at position
/// `p`. A program anchored at the start tries `start` alone. Any other tries
/// the candidates from `start` on, as long as the one before was not yet at
/// `end`.
pub open spec fn is_tried(prog: Program<char>, input: Seq<char>, start: int, end: int, p: int) -> bool {
    if prog.is_anchored_start {
        p == start
    } else {
        &&& start <= p
        &&& is_candidate(prog, input, p)
        &&& forall|q: int| start <= q < p && #[trigger] is_candidate(prog, input, q) ==> q < end
    }
}

/// Whether `x` is a state that the search has executed.
pub open spec fn seen_state(insts: Seq<Inst<char>>, input: Seq<char>, st: Progress, x: (int, int)) -> bool {
    is_state(insts, input, x.0, x.1) && st.seen.contains(key(input.len() as int, x.0, x.1))
}

/// Whether the machine can go to `x` from the start instruction at one of
/// the positions `starts`.
pub open spec fn comes_from(
    insts: Seq<Inst<char>>,
    input: Seq<char>,
    start_ip: int,
    starts: Set<int>,
    x: (int, int),
) -> bool {
    exists|p: int| starts.contains(p) && #[trigger] reaches(insts, input, (start_ip, p), x)
}

/// Whether a search that has come to `st`, with `jobs` still to do, has
/// explored what can be reached from the start positions `starts`, and no
/// more: every step from a state executed leads to a state executed or to a
/// job; every state executed and every job can be reached from one of
/// `starts`; each of `starts` was begun; and the slots hit are those of the
/// `Match` instructions executed.
pub open spec fn explored(
    insts: Seq<Inst<char>>,
    input: Seq<char>,
    start_ip: int,
    st: Progress,
    jobs: Seq<(int, int)>,
    starts: Set<int>,
) -> bool {
    &&& forall|x: (int, int), y: (int, int)|
        seen_state(insts, input, st, x) && #[trigger] steps_to(insts, input, x, y) ==> seen_state(
            insts,
            input,
            st,
            y,
        ) || jobs.contains(y)
    &&& forall|x: (int, int)| #[trigger]
        seen_state(insts, input, st, x) ==> comes_from(insts, input, start_ip, starts, x)
    &&& forall|i: int|
        0 <= i < jobs.len() ==> is_state(insts, input, (#[trigger] jobs[i]).0, jobs[i].1)
            && comes_from(insts, input, start_ip, starts, jobs[i])
    &&& forall|p: int| #[trigger]
        starts.contains(p) ==> seen_state(insts, input, st, (start_ip, p)) || jobs.contains(
            (start_ip, p),
        )
    &&& forall|slot: int| #[trigger]
        st.hits.contains(slot) <==> exists|x: (int, int)|
            seen_state(insts, input, st, x) && #[trigger] is_match_of(insts, input, x, slot)
    &&& st.found > 0 <==> exists|slot: int| st.hits.contains(slot)
}

/// Whether a search that has come to `st` has done nothing but what the
/// start positions `starts` lead to: every state executed can be reached
/// from one of `starts`, the slots hit are those of the `Match` instructions
/// executed, and a match was found if and only if a slot was hit.
pub open spec fn sound(
    insts: Seq<Inst<char>>,
    input: Seq<char>,
    start_ip: int,
    st: Progress,
    starts: Set<int>,
) -> bool {
    &&& forall|x: (int, int)| #[trigger]
        seen_state(insts, input, st, x) ==> comes_from(insts, input, start_ip, starts, x)
    &&& forall|slot: int| #[trigger]
        st.hits.contains(slot) <==> exists|x: (int, int)|
            seen_state(insts, input, st, x) && #[trigger] is_match_of(insts, input, x, slot)
    &&& st.found > 0 <==> exists|slot: int| st.hits.contains(slot)
}

/// Whether every instruction of `insts` can stand in it.
pub open spec fn all_wf(insts: Seq<Inst<char>>) -> bool {
    forall|pc: int| 0 <= pc < insts.len() ==> (#[trigger] insts[pc]).wf(insts.len() as int)
}

/// In a program whose instructions can stand in it, a step from a state
/// leads to a state.
pub proof fn lemma_step_stays_inside(
    insts: Seq<Inst<char>>,
    input: Seq<char>,
    x: (int, int),
    y: (int, int),
)
    requires
        all_wf(insts),
        steps_to(insts, input, x, y),
    ensures
        is_state(insts, input, y.0, y.1),
{
    assert(insts[x.0].wf(insts.len() as int));
}

/// A walk that is one step longer.
pub proof fn lemma_reaches_step(
    insts: Seq<Inst<char>>,
    input: Seq<char>,
    a: (int, int),
    b: (int, int),
    c: (int, int),
)
    requires
        reaches(insts, input, a, b),
        steps_to(insts, input, b, c),
    ensures
        reaches(insts, input, a, c),
{
    let path = choose|path: Seq<(int, int)>|
        #[trigger] is_path(insts, input, path) && path[0] == a && path.last() == b;
    let longer = path.push(c);
    assert forall|i: int| 0 <= i < longer.len() - 1 implies steps_to(
        insts,
        input,
        #[trigger] longer[i],
        longer[i + 1],
    ) by {
        if i < path.len() - 1 {
            assert(steps_to(insts, input, path[i], path[i + 1]));
        }
    }
    assert(is_path(insts, input, longer));
}

/// Every state reaches itself.
pub proof fn lemma_reaches_self(insts: Seq<Inst<char>>, input: Seq<char>, a: (int, int))
    ensures
        reaches(insts, input, a, a),
{
    let path = seq![a];
    assert(is_path(insts, input, path));
    assert(path[0] == a && path.last() == a);
}

/// After a state was executed, the states executed are that state and
/// those executed before.
pub proof fn lemma_seen_after_visit(
    insts: Seq<Inst<char>>,
    input: Seq<char>,
    ip: int,
    at: int,
    st: Progress,
    x: (int, int),
)
    requires
        is_state(insts, input, ip, at),
    ensures
        seen_state(insts, input, visit(insts, input, ip, at, st), x) == (seen_state(
            insts,
            input,
            st,
            x,
        ) || (x == (ip, at))),
{
    if is_state(insts, input, x.0, x.1) && key(input.len() as int, x.0, x.1) == key(
        input.len() as int,
        ip,
        at,
    ) {
        crate::machine::lemma_key_injective(input.len() as int, x.0, x.1, ip, at);
    }
}

/// A job is the last of the jobs or one of those before it.
proof fn lemma_job_is_last_or_before(jobs: Seq<(int, int)>, y: (int, int))
    requires
        jobs.len() > 0,
        jobs.contains(y),
    ensures
        y == jobs.last() || jobs.drop_last().contains(y),
{
    let i = choose|i: int| 0 <= i < jobs.len() && jobs[i] == y;
    if i < jobs.len() - 1 {
        assert(jobs.drop_last()[i] == y);
    }
}

/// Dropping a job whose state was executed before leaves what was
/// explored as it is.
proof fn lemma_drop_keeps_explored(
    insts: Seq<Inst<char>>,
    input: Seq<char>,
    start_ip: int,
    jobs: Seq<(int, int)>,
    st: Progress,
    starts: Set<int>,
)
    requires
        jobs.len() > 0,
        explored(insts, input, start_ip, st, jobs, starts),
        seen_state(insts, input, st, jobs.last()),
    ensures
        explored(insts, input, start_ip, st, jobs.drop_last(), starts),
{
    let rest = jobs.drop_last();
    assert forall|y: (int, int)| jobs.contains(y) implies y == jobs.last() || rest.contains(y) by {
        lemma_job_is_last_or_before(jobs, y);
    }
    assert forall|i: int| 0 <= i < rest.len() implies is_state(
        insts,
        input,
        (#[trigger] rest[i]).0,
        rest[i].1,
    ) && comes_from(insts, input, start_ip, starts, rest[i]) by {
        assert(rest[i] == jobs[i]);
    }
}

/// Executing the state of the last job, and taking the states that follow
/// it for jobs in its place, leaves what was explored as it is.
proof fn lemma_visit_keeps_explored(
    insts: Seq<Inst<char>>,
    input: Seq<char>,
    start_ip: int,
    jobs: Seq<(int, int)>,
    st: Progress,
    starts: Set<int>,
)
    requires
        all_wf(insts),
        jobs.len() > 0,
        explored(insts, input, start_ip, st, jobs, starts),
        !seen_state(insts, input, st, jobs.last()),
    ensures
        explored(
            insts,
            input,
            start_ip,
            visit(insts, input, jobs.last().0, jobs.last().1, st),
            jobs.drop_last() + successors(insts, input, jobs.last().0, jobs.last().1),
            starts,
        ),
{
    let top = jobs.last();
    let (ip, at) = top;
    let rest = jobs.drop_last();
    let next = visit(insts, input, ip, at, st);
    let follow = successors(insts, input, ip, at);
    let more = rest + follow;
    assert(jobs[jobs.len() - 1] == top);
    assert(is_state(insts, input, ip, at));
    assert(comes_from(insts, input, start_ip, starts, top));
    assert forall|y: (int, int)| jobs.contains(y) implies y == top || rest.contains(y) by {
        lemma_job_is_last_or_before(jobs, y);
    }
    assert forall|x: (int, int)|
        seen_state(insts, input, next, x) == (seen_state(insts, input, st, x) || x == top) by {
        lemma_seen_after_visit(insts, input, ip, at, st, x);
    }
    assert forall|y: (int, int)| rest.contains(y) implies more.contains(y) by {
        let i = choose|i: int| 0 <= i < rest.len() && rest[i] == y;
        assert(more[i] == y);
    }
    assert forall|y: (int, int)| follow.contains(y) implies more.contains(y) by {
        let i = choose|i: int| 0 <= i < follow.len() && follow[i] == y;
        assert(more[rest.len() + i] == y);
    }
    assert forall|x: (int, int), y: (int, int)|
        seen_state(insts, input, next, x) && #[trigger] steps_to(insts, input, x, y) implies seen_state(
        insts,
        input,
        next,
        y,
    ) || more.contains(y) by {
        if x != top {
            assert(seen_state(insts, input, st, x));
        }
    }
    assert forall|x: (int, int)| #[trigger] seen_state(insts, input, next, x) implies comes_from(
        insts,
        input,
        start_ip,
        starts,
        x,
    ) by {
        if x != top {
            assert(seen_state(insts, input, st, x));
        }
    }
    assert forall|i: int| 0 <= i < more.len() implies is_state(
        insts,
        input,
        (#[trigger] more[i]).0,
        more[i].1,
    ) && comes_from(insts, input, start_ip, starts, more[i]) by {
        if i < rest.len() {
            assert(more[i] == jobs[i]);
        } else {
            let y = follow[i - rest.len()];
            assert(more[i] == y);
            assert(steps_to(insts, input, top, y));
            lemma_step_stays_inside(insts, input, top, y);
            let p = choose|p: int|
                starts.contains(p) && #[trigger] reaches(insts, input, (start_ip, p), top);
            lemma_reaches_step(insts, input, (start_ip, p), top, y);
        }
    }
    assert forall|p: int| #[trigger] starts.contains(p) implies seen_state(
        insts,
        input,
        next,
        (start_ip, p),
    ) || more.contains((start_ip, p)) by {
        if !seen_state(insts, input, st, (start_ip, p)) {
            assert(jobs.contains((start_ip, p)));
        }
    }
    lemma_visit_hits(insts, input, ip, at, st);
}

/// Where the slots hit were those of the `Match` instructions executed,
/// they are so after one more state was executed.
proof fn lemma_visit_hits(insts: Seq<Inst<char>>, input: Seq<char>, ip: int, at: int, st: Progress)
    requires
        is_state(insts, input, ip, at),
        !seen_state(insts, input, st, (ip, at)),
        forall|slot: int| #[trigger]
            st.hits.contains(slot) <==> exists|x: (int, int)|
                seen_state(insts, input, st, x) && #[trigger] is_match_of(insts, input, x, slot),
        st.found > 0 <==> exists|slot: int| st.hits.contains(slot),
    ensures
        forall|slot: int| #[trigger]
            visit(insts, input, ip, at, st).hits.contains(slot) <==> exists|x: (int, int)|
                seen_state(insts, input, visit(insts, input, ip, at, st), x)
                    && #[trigger] is_match_of(insts, input, x, slot),
        visit(insts, input, ip, at, st).found > 0 <==> exists|slot: int|
            visit(insts, input, ip, at, st).hits.contains(slot),
{
    let top = (ip, at);
    let next = visit(insts, input, ip, at, st);
    assert forall|x: (int, int)|
        seen_state(insts, input, next, x) == (seen_state(insts, input, st, x) || x == top) by {
        lemma_seen_after_visit(insts, input, ip, at, st, x);
    }
    assert forall|slot: int| #[trigger]
        next.hits.contains(slot) <==> exists|x: (int, int)|
            seen_state(insts, input, next, x) && #[trigger] is_match_of(insts, input, x, slot) by {
        if next.hits.contains(slot) {
            if st.hits.contains(slot) {
                let x = choose|x: (int, int)|
                    seen_state(insts, input, st, x) && #[trigger] is_match_of(
                        insts,
                        input,
                        x,
                        slot,
                    );
                assert(seen_state(insts, input, next, x));
            } else {
                assert(is_match_of(insts, input, top, slot));
                assert(seen_state(insts, input, next, top));
            }
        }
        if exists|x: (int, int)|
            seen_state(insts, input, next, x) && #[trigger] is_match_of(insts, input, x, slot) {
            let x = choose|x: (int, int)|
                seen_state(insts, input, next, x) && #[trigger] is_match_of(insts, input, x, slot);
            if x != top {
                assert(seen_state(insts, input, st, x));
            }
        }
    }
    assert(next.found > 0 <==> exists|slot: int| next.hits.contains(slot)) by {
        if st.found > 0 {
            let slot = choose|slot: int| st.hits.contains(slot);
            assert(next.hits.contains(slot));
        }
        match insts[ip] {
            Inst::Match(s) => {
                assert(next.hits.contains(s as int));
            },
            _ => {},
        }
    }
}

/// A run does nothing but what the start positions lead to, and unless it
/// stops at a match it explores all that can be reached from its jobs: if
/// the search had explored the start positions `starts` but for the jobs
/// left, it has explored them wholly after the run.
pub proof fn lemma_run_explores(
    insts: Seq<Inst<char>>,
    input: Seq<char>,
    single: bool,
    start_ip: int,
    jobs: Seq<(int, int)>,
    st: Progress,
    starts: Set<int>,
)
    requires
        all_wf(insts),
        explored(insts, input, start_ip, st, jobs, starts),
    ensures
        sound(insts, input, start_ip, run(insts, input, single, jobs, st), starts),
        !done(single, run(insts, input, single, jobs, st)) ==> explored(
            insts,
            input,
            start_ip,
            run(insts, input, single, jobs, st),
            Seq::empty(),
            starts,
        ),
    decreases unseen(num_states(insts, input), st.seen), jobs.len(),
{
    if jobs.len() == 0 {
        assert(jobs =~= Seq::empty());
    } else if done(single, st) {
    } else {
        let (ip, at) = jobs.last();
        let rest = jobs.drop_last();
        let k = key(input.len() as int, ip, at);
        assert(jobs[jobs.len() - 1] == (ip, at));
        assert(is_state(insts, input, ip, at));
        if st.seen.contains(k) {
            lemma_drop_keeps_explored(insts, input, start_ip, jobs, st, starts);
            lemma_run_explores(insts, input, single, start_ip, rest, st, starts);
        } else {
            lemma_key_bounds(insts, input, ip, at);
            lemma_unseen_decreases(num_states(insts, input), st.seen, k);
            lemma_visit_keeps_explored(insts, input, start_ip, jobs, st, starts);
            lemma_run_explores(
                insts,
                input,
                single,
                start_ip,
                rest + successors(insts, input, ip, at),
                visit(insts, input, ip, at, st),
                starts,
            );
        }
    }
}

/// The positions at which a search between `start` and `end` tries a match.
pub open spec fn tried(prog: Program<char>, input: Seq<char>, start: int, end: int) -> Set<int> {
    Set::new(|p: int| is_tried(prog, input, start, end, p))
}

/// Where the search has explored the start positions `starts` wholly, and
/// goes on to the job of a further start position `p`, it has explored
/// `starts` and `p` but for that job.
proof fn lemma_begin_start(
    prog: Program<char>,
    input: Seq<char>,
    st: Progress,
    starts: Set<int>,
    p: int,
)
    requires
        prog.wf(),
        0 <= p <= input.len(),
        explored(prog.insts@, input, prog.start as int, st, Seq::empty(), starts),
    ensures
        explored(
            prog.insts@,
            input,
            prog.start as int,
            st,
            seq![(prog.start as int, p)],
            starts.insert(p),
        ),
{
    let insts = prog.insts@;
    let start_ip = prog.start as int;
    let jobs = seq![(start_ip, p)];
    let wider = starts.insert(p);
    let none = Seq::<(int, int)>::empty();
    assert forall|x: (int, int)| #[trigger] seen_state(insts, input, st, x) implies comes_from(
        insts,
        input,
        start_ip,
        wider,
        x,
    ) by {
        assert(comes_from(insts, input, start_ip, starts, x));
        let q = choose|q: int| starts.contains(q) && #[trigger] reaches(insts, input, (start_ip, q), x);
        assert(wider.contains(q));
    }
    assert forall|i: int| 0 <= i < jobs.len() implies is_state(
        insts,
        input,
        (#[trigger] jobs[i]).0,
        jobs[i].1,
    ) && comes_from(insts, input, start_ip, wider, jobs[i]) by {
        lemma_reaches_self(insts, input, (start_ip, p));
        assert(wider.contains(p));
    }
    assert forall|q: int| #[trigger] wider.contains(q) implies seen_state(
        insts,
        input,
        st,
        (start_ip, q),
    ) || jobs.contains((start_ip, q)) by {
        if q == p {
            assert(jobs[0] == (start_ip, p));
        } else {
            assert(starts.contains(q));
            assert(!none.contains((start_ip, q)));
        }
    }
    assert forall|x: (int, int), y: (int, int)|
        seen_state(insts, input, st, x) && #[trigger] steps_to(insts, input, x, y) implies seen_state(
        insts,
        input,
        st,
        y,
    ) || jobs.contains(y) by {
        assert(!none.contains(y));
    }
}

/// What is sound of some start positions is sound of more.
proof fn lemma_sound_of_more(
    insts: Seq<Inst<char>>,
    input: Seq<char>,
    start_ip: int,
    st: Progress,
    starts: Set<int>,
    more: Set<int>,
)
    requires
        sound(insts, input, start_ip, st, starts),
        starts.subset_of(more),
    ensures
        sound(insts, input, start_ip, st, more),
{
    assert forall|x: (int, int)| #[trigger] seen_state(insts, input, st, x) implies comes_from(
        insts,
        input,
        start_ip,
        more,
        x,
    ) by {
        let p = choose|p: int| starts.contains(p) && #[trigger] reaches(insts, input, (start_ip, p), x);
        assert(more.contains(p));
    }
}

/// A scan does nothing but what the start positions that it tries lead to,
/// and unless it stops at a match it explores all that can be reached from
/// them.
pub proof fn lemma_scan_explores(
    prog: Program<char>,
    input: Seq<char>,
    at: int,
    end: int,
    st: Progress,
    starts: Set<int>,
)
    requires
        prog.wf(),
        !prog.is_anchored_start,
        0 <= at <= input.len(),
        end <= input.len(),
        explored(prog.insts@, input, prog.start as int, st, Seq::empty(), starts),
    ensures
        sound(
            prog.insts@,
            input,
            prog.start as int,
            scan(prog, input, at, end, st),
            starts.union(tried(prog, input, at, end)),
        ),
        !done(is_single(prog), scan(prog, input, at, end, st)) ==> explored(
            prog.insts@,
            input,
            prog.start as int,
            scan(prog, input, at, end, st),
            Seq::empty(),
            starts.union(tried(prog, input, at, end)),
        ),
    decreases end - at,
{
    let insts = prog.insts@;
    let start_ip = prog.start as int;
    let single = is_single(prog);
    let here = tried(prog, input, at, end);
    crate::literal::lemma_first_occurrence(prog.prefixes@, input, at);
    match candidate(prog, input, at) {
        None => {
            assert(here =~= Set::<int>::empty());
            assert(starts.union(here) =~= starts);
        },
        Some(p) => {
            assert(is_candidate(prog, input, p));
            assert forall|q: int| at <= q < p implies !is_candidate(prog, input, q) by {}
            assert(here.contains(p));
            let jobs = seq![(start_ip, p)];
            let next = run(insts, input, single, jobs, st);
            lemma_begin_start(prog, input, st, starts, p);
            lemma_run_explores(insts, input, single, start_ip, jobs, st, starts.insert(p));
            if done(single, next) {
                lemma_sound_of_more(
                    insts,
                    input,
                    start_ip,
                    next,
                    starts.insert(p),
                    starts.union(here),
                );
            } else if p >= end {
                assert forall|q: int| here.contains(q) implies q == p by {
                    if q > p {
                        assert(is_candidate(prog, input, p));
                    }
                }
                assert(here =~= Set::<int>::empty().insert(p));
                assert(starts.union(here) =~= starts.insert(p));
            } else {
                let later = tried(prog, input, p + 1, end);
                lemma_scan_explores(prog, input, p + 1, end, next, starts.insert(p));
                assert forall|q: int| here.contains(q) == (q == p || later.contains(q)) by {
                    if here.contains(q) && q != p {
                        assert(is_tried(prog, input, p + 1, end, q));
                    }
                    if later.contains(q) {
                        assert forall|r: int|
                            at <= r < q && #[trigger] is_candidate(prog, input, r) implies r
                            < end by {
                            if r > p {
                                assert(p + 1 <= r);
                            }
                        }
                        assert(is_tried(prog, input, at, end, q));
                    }
                }
                assert(starts.union(here) =~= starts.insert(p).union(later));
            }
        },
    }
}

/// Where a search has explored the start positions `starts` wholly, every
/// state on a walk from a state executed was executed.
proof fn lemma_walk_was_executed(
    insts: Seq<Inst<char>>,
    input: Seq<char>,
    start_ip: int,
    st: Progress,
    starts: Set<int>,
    path: Seq<(int, int)>,
    i: int,
)
    requires
        explored(insts, input, start_ip, st, Seq::empty(), starts),
        is_path(insts, input, path),
        seen_state(insts, input, st, path[0]),
        0 <= i < path.len(),
    ensures
        seen_state(insts, input, st, path[i]),
    decreases i,
{
    if i > 0 {
        lemma_walk_was_executed(insts, input, start_ip, st, starts, path, i - 1);
        assert(steps_to(insts, input, path[i - 1], path[i]));
        assert(!Seq::<(int, int)>::empty().contains(path[i]));
    }
}

/// Where a search has explored the start positions `starts` wholly, the
/// slots it has hit are the slots that one of `starts` leads to.
proof fn lemma_explored_hits(
    prog: Program<char>,
    input: Seq<char>,
    st: Progress,
    starts: Set<int>,
    slot: int,
)
    requires
        explored(prog.insts@, input, prog.start as int, st, Seq::empty(), starts),
    ensures
        st.hits.contains(slot) <==> exists|p: int|
            starts.contains(p) && #[trigger] leads_to(prog, input, p, slot),
{
    let insts = prog.insts@;
    let start_ip = prog.start as int;
    if st.hits.contains(slot) {
        let x = choose|x: (int, int)|
            seen_state(insts, input, st, x) && #[trigger] is_match_of(insts, input, x, slot);
        assert(comes_from(insts, input, start_ip, starts, x));
        let p = choose|p: int| starts.contains(p) && #[trigger] reaches(insts, input, (start_ip, p), x);
        assert(leads_to(prog, input, p, slot));
    }
    if exists|p: int| starts.contains(p) && #[trigger] leads_to(prog, input, p, slot) {
        let p = choose|p: int| starts.contains(p) && #[trigger] leads_to(prog, input, p, slot);
        let x = choose|x: (int, int)|
            reaches(insts, input, (start_ip, p), x) && #[trigger] is_match_of(insts, input, x, slot);
        let path = choose|path: Seq<(int, int)>|
            #[trigger] is_path(insts, input, path) && path[0] == (start_ip, p) && path.last() == x;
        assert(!Seq::<(int, int)>::empty().contains((start_ip, p)));
        assert(seen_state(insts, input, st, (start_ip, p)));
        lemma_walk_was_executed(insts, input, start_ip, st, starts, path, path.len() - 1);
        assert(seen_state(insts, input, st, x));
    }
}

/// A search does nothing but what the start positions that it tries lead
/// to, and unless it stops at a match it explores all that can be reached
/// from them.
pub proof fn lemma_search_explores(prog: Program<char>, input: Seq<char>, start: int, end: int)
    requires
        prog.wf(),
        0 <= start <= input.len(),
        prog.is_anchored_start || end <= input.len(),
    ensures
        sound(
            prog.insts@,
            input,
            prog.start as int,
            search(prog, input, start, end),
            tried(prog, input, start, end),
        ),
        !done(is_single(prog), search(prog, input, start, end)) ==> explored(
            prog.insts@,
            input,
            prog.start as int,
            search(prog, input, start, end),
            Seq::empty(),
            tried(prog, input, start, end),
        ),
{
    let insts = prog.insts@;
    let start_ip = prog.start as int;
    let none = Set::<int>::empty();
    let all = tried(prog, input, start, end);
    assert(explored(insts, input, start_ip, fresh(), Seq::empty(), none));
    if prog.is_anchored_start {
        lemma_begin_start(prog, input, fresh(), none, start);
        lemma_run_explores(
            insts,
            input,
            is_single(prog),
            start_ip,
            seq![(start_ip, start)],
            fresh(),
            none.insert(start),
        );
        assert(all =~= none.insert(start));
    } else {
        lemma_scan_explores(prog, input, start, end, fresh(), none);
        assert(none.union(all) =~= all);
    }
}

/// The search of a program that does not stop at its
/// first match hits a slot if and only if one of the start positions that
/// it tries leads to that slot. The flags it sets are those of these slots,
/// and no others.
pub proof fn lemma_set_completeness(
    prog: Program<char>,
    input: Seq<char>,
    start: int,
    end: int,
    slot: int,
)
    requires
        prog.wf(),
        !is_single(prog),
        0 <= start <= input.len(),
        prog.is_anchored_start || end <= input.len(),
    ensures
        search(prog, input, start, end).hits.contains(slot) <==> exists|p: int|
            is_tried(prog, input, start, end, p) && #[trigger] leads_to(prog, input, p, slot),
{
    let out = search(prog, input, start, end);
    let all = tried(prog, input, start, end);
    lemma_search_explores(prog, input, start, end);
    lemma_explored_hits(prog, input, out, all, slot);
    if out.hits.contains(slot) {
        let p = choose|p: int| all.contains(p) && #[trigger] leads_to(prog, input, p, slot);
        assert(is_tried(prog, input, start, end, p));
    }
    if exists|p: int|
        is_tried(prog, input, start, end, p) && #[trigger] leads_to(prog, input, p, slot) {
        let p = choose|p: int|
            is_tried(prog, input, start, end, p) && #[trigger] leads_to(prog, input, p, slot);
        assert(all.contains(p));
    }
}

/// Whether the start position `p` leads to a match of any slot.
pub open spec fn leads_to_match(prog: Program<char>, input: Seq<char>, p: int) -> bool {
    exists|slot: int| #[trigger] leads_to(prog, input, p, slot)
}

/// A search finds a match if and only if one of the start positions that a
/// search between `start` and `end` may try leads to a match; and every
/// slot that it hits is one that such a start position leads to.
pub proof fn lemma_match_iff_reachable(prog: Program<char>, input: Seq<char>, start: int, end: int)
    requires
        prog.wf(),
        0 <= start <= input.len(),
        prog.is_anchored_start || end <= input.len(),
    ensures
        search(prog, input, start, end).found > 0 <==> exists|p: int|
            is_tried(prog, input, start, end, p) && #[trigger] leads_to_match(prog, input, p),
        forall|slot: int| #[trigger]
            search(prog, input, start, end).hits.contains(slot) ==> exists|p: int|
                is_tried(prog, input, start, end, p) && #[trigger] leads_to(prog, input, p, slot),
{
    let insts = prog.insts@;
    let start_ip = prog.start as int;
    let out = search(prog, input, start, end);
    let all = tried(prog, input, start, end);
    lemma_search_explores(prog, input, start, end);
    assert forall|slot: int| #[trigger] out.hits.contains(slot) implies exists|p: int|
        is_tried(prog, input, start, end, p) && #[trigger] leads_to(prog, input, p, slot) by {
        let x = choose|x: (int, int)|
            seen_state(insts, input, out, x) && #[trigger] is_match_of(insts, input, x, slot);
        assert(comes_from(insts, input, start_ip, all, x));
        let p = choose|p: int| all.contains(p) && #[trigger] reaches(insts, input, (start_ip, p), x);
        assert(leads_to(prog, input, p, slot));
        assert(is_tried(prog, input, start, end, p));
    }
    if out.found > 0 {
        let slot = choose|slot: int| out.hits.contains(slot);
        let p = choose|p: int|
            is_tried(prog, input, start, end, p) && #[trigger] leads_to(prog, input, p, slot);
        assert(leads_to_match(prog, input, p));
    }
    if exists|p: int|
        is_tried(prog, input, start, end, p) && #[trigger] leads_to_match(prog, input, p) {
        let p = choose|p: int|
            is_tried(prog, input, start, end, p) && #[trigger] leads_to_match(prog, input, p);
        let slot = choose|slot: int| #[trigger] leads_to(prog, input, p, slot);
        if out.found == 0 {
            assert(all.contains(p));
            lemma_explored_hits(prog, input, out, all, slot);
            assert(out.hits.contains(slot));
        }
    }
}

/// Where a search has explored the start positions `starts` wholly and
/// found no match, a slot that is hit by a run from the further start
/// position `p` is one that `p` leads to.
proof fn lemma_new_hit_comes_from(
    prog: Program<char>,
    input: Seq<char>,
    single: bool,
    st: Progress,
    starts: Set<int>,
    p: int,
    slot: int,
)
    requires
        prog.wf(),
        0 <= p <= input.len(),
        st.found == 0,
        explored(prog.insts@, input, prog.start as int, st, Seq::empty(), starts),
        run(prog.insts@, input, single, seq![(prog.start as int, p)], st).hits.contains(slot),
    ensures
        leads_to(prog, input, p, slot),
{
    let insts = prog.insts@;
    let start_ip = prog.start as int;
    let next = run(insts, input, single, seq![(start_ip, p)], st);
    lemma_begin_start(prog, input, st, starts, p);
    lemma_run_explores(insts, input, single, start_ip, seq![(start_ip, p)], st, starts.insert(p));
    let x = choose|x: (int, int)|
        seen_state(insts, input, next, x) && #[trigger] is_match_of(insts, input, x, slot);
    assert(comes_from(insts, input, start_ip, starts.insert(p), x));
    let q = choose|q: int|
        starts.insert(p).contains(q) && #[trigger] reaches(insts, input, (start_ip, q), x);
    if q != p {
        assert(starts.contains(q));
        assert(leads_to(prog, input, q, slot));
        lemma_explored_hits(prog, input, st, starts, slot);
        assert(st.hits.contains(slot));
    }
}

/// Where a scan of a program of one pattern finds a match, it finds it at
/// the first of the start positions it may try that leads to a match, and
/// the slot it hits is one that this position leads to.
proof fn lemma_single_scan_is_leftmost(
    prog: Program<char>,
    input: Seq<char>,
    at: int,
    end: int,
    st: Progress,
    starts: Set<int>,
)
    requires
        prog.wf(),
        is_single(prog),
        !prog.is_anchored_start,
        0 <= at <= input.len(),
        end <= input.len(),
        st.found == 0,
        explored(prog.insts@, input, prog.start as int, st, Seq::empty(), starts),
        scan(prog, input, at, end, st).found > 0,
    ensures
        exists|p: int|
            {
                &&& #[trigger] is_tried(prog, input, at, end, p)
                &&& leads_to_match(prog, input, p)
                &&& forall|q: int|
                    q < p && #[trigger] is_tried(prog, input, at, end, q) ==> !leads_to_match(
                        prog,
                        input,
                        q,
                    )
                &&& forall|slot: int| #[trigger]
                    scan(prog, input, at, end, st).hits.contains(slot) ==> leads_to(
                        prog,
                        input,
                        p,
                        slot,
                    )
            },
    decreases end - at,
{
    let insts = prog.insts@;
    let start_ip = prog.start as int;
    let out = scan(prog, input, at, end, st);
    crate::literal::lemma_first_occurrence(prog.prefixes@, input, at);
    match candidate(prog, input, at) {
        None => {},
        Some(p) => {
            assert(is_candidate(prog, input, p));
            assert forall|q: int| at <= q < p implies !is_candidate(prog, input, q) by {}
            assert(is_tried(prog, input, at, end, p));
            let jobs = seq![(start_ip, p)];
            let next = run(insts, input, true, jobs, st);
            lemma_begin_start(prog, input, st, starts, p);
            lemma_run_explores(insts, input, true, start_ip, jobs, st, starts.insert(p));
            if next.found > 0 {
                assert forall|slot: int| #[trigger] out.hits.contains(slot) implies leads_to(
                    prog,
                    input,
                    p,
                    slot,
                ) by {
                    lemma_new_hit_comes_from(prog, input, true, st, starts, p, slot);
                }
                let slot = choose|slot: int| next.hits.contains(slot);
                assert(leads_to(prog, input, p, slot));
                assert(leads_to_match(prog, input, p));
            } else {
                assert(!leads_to_match(prog, input, p)) by {
                    if leads_to_match(prog, input, p) {
                        let slot = choose|slot: int| #[trigger] leads_to(prog, input, p, slot);
                        assert(starts.insert(p).contains(p));
                        lemma_explored_hits(prog, input, next, starts.insert(p), slot);
                        assert(next.hits.contains(slot));
                    }
                }
                lemma_single_scan_is_leftmost(prog, input, p + 1, end, next, starts.insert(p));
                let found = choose|r: int|
                    {
                        &&& #[trigger] is_tried(prog, input, p + 1, end, r)
                        &&& leads_to_match(prog, input, r)
                        &&& forall|q: int|
                            q < r && #[trigger] is_tried(prog, input, p + 1, end, q)
                                ==> !leads_to_match(prog, input, q)
                        &&& forall|slot: int| #[trigger]
                            scan(prog, input, p + 1, end, next).hits.contains(slot) ==> leads_to(
                                prog,
                                input,
                                r,
                                slot,
                            )
                    };
                assert forall|r: int|
                    at <= r < found && #[trigger] is_candidate(prog, input, r) implies r < end by {
                    if r > p {
                        assert(p + 1 <= r);
                    }
                }
                assert(is_tried(prog, input, at, end, found));
                assert forall|q: int|
                    q < found && #[trigger] is_tried(
                        prog,
                        input,
                        at,
                        end,
                        q,
                    ) implies !leads_to_match(prog, input, q) by {
                    if q != p {
                        assert(is_tried(prog, input, p + 1, end, q));
                    }
                }
            }
        },
    }
}

/// Where the search of a program of one pattern finds a
/// match, it finds it at the first of the start positions it may try that
/// leads to a match, and the slot it hits is one that this position leads
/// to.
pub proof fn lemma_single_match_is_leftmost(
    prog: Program<char>,
    input: Seq<char>,
    start: int,
    end: int,
)
    requires
        prog.wf(),
        is_single(prog),
        0 <= start <= input.len(),
        prog.is_anchored_start || end <= input.len(),
        search(prog, input, start, end).found > 0,
    ensures
        exists|p: int|
            {
                &&& #[trigger] is_tried(prog, input, start, end, p)
                &&& leads_to_match(prog, input, p)
                &&& forall|q: int|
                    q < p && #[trigger] is_tried(prog, input, start, end, q) ==> !leads_to_match(
                        prog,
                        input,
                        q,
                    )
                &&& forall|slot: int| #[trigger]
                    search(prog, input, start, end).hits.contains(slot) ==> leads_to(
                        prog,
                        input,
                        p,
                        slot,
                    )
            },
{
    let insts = prog.insts@;
    let start_ip = prog.start as int;
    let none = Set::<int>::empty();
    let out = search(prog, input, start, end);
    assert(explored(insts, input, start_ip, fresh(), Seq::empty(), none));
    if prog.is_anchored_start {
        assert(is_tried(prog, input, start, end, start));
        assert forall|slot: int| #[trigger] out.hits.contains(slot) implies leads_to(
            prog,
            input,
            start,
            slot,
        ) by {
            lemma_new_hit_comes_from(prog, input, true, fresh(), none, start, slot);
        }
        lemma_search_explores(prog, input, start, end);
        let slot = choose|slot: int| out.hits.contains(slot);
        assert(leads_to(prog, input, start, slot));
        assert(leads_to_match(prog, input, start));
    } else {
        lemma_single_scan_is_leftmost(prog, input, start, end, fresh(), none);
    }
}

} // verus!
