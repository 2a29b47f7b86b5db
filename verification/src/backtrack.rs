//! This is the backtracking matching engine. It has the same exact capability
//! as the full NFA simulation, except it is artificially restricted to small
//! regexes on small inputs because of its memory requirements.
//!
//! In particular, this is a *bounded* backtracking engine. It retains worst
//! case linear time by keeping track of the states that it has visited (using a
//! bitmap). Namely, once a state is visited, it is never visited again. Since a
//! state is keyed by `(instruction index, input index)`, we have that its time
//! complexity is `O(mn)` (i.e., linear in the size of the search text).

use vstd::prelude::*;

use crate::context::Context;
use crate::laws::lemma_linear_bound;
use crate::literal::lemma_first_occurrence;
use crate::machine::{
    done, flagged, fresh, is_single, is_state, key, lemma_key_bounds, lemma_run_top,
    lemma_unseen_decreases, num_states, run, scan, search, successors, unseen, visit, walk,
    Progress,
};
use crate::program::{Index, Inst, Program};
use crate::repr::{same, Integral};

verus! {

type Bits = u32;

/// Number of visited-state bits held by one word of the bitset.
pub const BIT_SIZE: usize = 32;

/// Largest footprint, in bytes, that the visited bitset may have.
pub const MAX_SIZE_BYTES: usize = 262144;

/// Number of bitset words needed to give every `(instruction, position)`
/// pair of a program with `num_insts` instructions on an input of length
/// `text_len` a bit of its own.
pub open spec fn visited_words(num_insts: int, text_len: int) -> int {
    (num_insts * (text_len + 1) + 31) / 32
}

/// Returns true iff the given regex and input should be executed by this
/// engine with reasonable memory usage.
pub fn should_exec(num_insts: usize, text_len: usize) -> (ok: bool)
    ensures
        ok == (visited_words(num_insts as int, text_len as int) * 4 <= MAX_SIZE_BYTES),
{
    let m: u128 = num_insts as u128;
    let n: u128 = text_len as u128 + 1;
    assert(m * n <= 0xffff_ffff_ffff_ffff * 0x1_0000_0000_0000_0000) by (nonlinear_arith)
        requires
            m <= 0xffff_ffff_ffff_ffff,
            n <= 0x1_0000_0000_0000_0000,
    ;
    let bits: u128 = m * n;
    let words: u128 = (bits + 31) / 32;
    words * 4 <= 262144
}

/// A job is an explicit unit of stack space in the backtracking engine: a
/// state at which the search is to go on.
#[derive(Clone, Copy, Debug)]
struct Job {
    ip: Index,
    at: usize,
}

/// Shared cached state between multiple invocations of a backtracking engine
/// in the same thread.
#[derive(Clone, Debug)]
pub struct Cache {
    jobs: Vec<Job>,
    visited: Vec<Bits>,
}

/// Whether bit `b` of the word `w` is set.
pub open spec fn has_bit(w: u32, b: u32) -> bool {
    w & (1u32 << b) != 0
}

/// No bit of the zero word is set.
proof fn lemma_zero_has_no_bit(b: u32)
    requires
        b < 32,
    ensures
        !has_bit(0, b),
{
    assert(0u32 & (1u32 << b) == 0) by (bit_vector)
        requires
            b < 32,
    ;
}

/// Setting a bit of a word sets that bit and leaves the others.
proof fn lemma_set_bit(w: u32, b: u32, c: u32)
    requires
        b < 32,
        c < 32,
    ensures
        has_bit(w | (1u32 << b), c) == (c == b || has_bit(w, c)),
{
    assert(((w | (1u32 << b)) & (1u32 << c) != 0) == (c == b || (w & (1u32 << c) != 0)))
        by (bit_vector)
        requires
            b < 32,
            c < 32,
    ;
}

/// The low five bits of a key are its remainder by 32, and the word with
/// only that bit set fits in 32 bits.
proof fn lemma_key_bit(k: usize)
    ensures
        (k & 31) == k % 32,
        (k & 31) < 32,
        (1usize << (k & 31)) <= 0xFFFF_FFFF,
        (1usize << (k & 31)) as u32 == 1u32 << ((k % 32) as u32),
{
    assert((k & 31) == k % 32) by (bit_vector);
    assert((k & 31) < 32) by (bit_vector);
    assert((1usize << (k & 31)) <= 0xFFFF_FFFF) by (bit_vector);
    assert((1usize << (k & 31)) as u32 == 1u32 << ((k % 32) as u32)) by (bit_vector);
}

/// Where a program has an instruction `ip`, the number of its states on an
/// input is at least the number of the input's positions, and the keys of
/// the instructions up to `ip` are no less than zero.
proof fn lemma_text_fits(num_insts: int, text_len: int, ip: int)
    requires
        0 <= ip < num_insts,
        0 <= text_len,
    ensures
        text_len + 1 <= num_insts * (text_len + 1),
        0 <= ip * (text_len + 1) <= num_insts * (text_len + 1),
{
    assert(text_len + 1 <= num_insts * (text_len + 1)) by (nonlinear_arith)
        requires
            1 <= num_insts,
            0 <= text_len,
    ;
    assert(0 <= ip * (text_len + 1) <= num_insts * (text_len + 1)) by (nonlinear_arith)
        requires
            0 <= ip < num_insts,
            0 <= text_len,
    ;
}

/// The number `n` as a `u32`. It must fit.
fn usize_to_u32(n: usize) -> (m: u32)
    requires
        n <= u32::MAX,
    ensures
        m == n,
{
    n as u32
}

impl Cache {
    /// The keys of the states marked as visited.
    pub closed spec fn seen(&self) -> Set<int> {
        Set::new(
            |k: int|
                0 <= k < 32 * self.visited@.len() && has_bit(
                    self.visited@[k / 32],
                    (k % 32) as u32,
                ),
        )
    }

    /// The states on the job stack, the one to be tried first standing last.
    pub closed spec fn pending(&self) -> Seq<(int, int)> {
        Seq::new(self.jobs@.len(), |i: int| (self.jobs@[i].ip as int, self.jobs@[i].at as int))
    }

    /// The number of words of the visited bitset.
    pub closed spec fn words(&self) -> nat {
        self.visited@.len()
    }

    /// Tests whether the state with the key `key` is marked as visited.
    pub fn is_marked(&self, key: usize) -> (marked: bool)
        ensures
            marked == self.seen().contains(key as int),
    {
        let word = key / BIT_SIZE;
        if word >= self.visited.len() {
            return false;
        }
        proof {
            lemma_key_bit(key);
        }
        let bit = usize_to_u32(1usize << (key & (BIT_SIZE - 1)));
        self.visited[word] & bit != 0
    }

    /// Create new empty cache for the backtracking engine.
    pub fn new<I: Integral>(_prog: &Program<I>) -> (cache: Self)
        ensures
            cache.seen() == Set::<int>::empty(),
            cache.pending() == Seq::<(int, int)>::empty(),
            cache.words() == 0,
    {
        let cache = Cache { jobs: Vec::new(), visited: Vec::new() };
        assert(cache.seen() =~= Set::<int>::empty());
        assert(cache.pending() =~= Seq::<(int, int)>::empty());
        cache
    }
}

/// A backtracking matching engine.
pub struct Bounded<'a, 'm, 'r, I: Integral> {
    prog: &'r Program<I>,
    context: Context<I>,
    matches: &'m mut [bool],
    m: &'a mut Cache,
}

impl<'a, 'm, 'r> Bounded<'a, 'm, 'r, char> {
    /// Whether the program can be executed on the input with the keys of
    /// all states in a `usize`.
    spec fn fits(&self) -> bool {
        &&& self.prog.wf()
        &&& num_states(self.prog.insts@, self.context@) + 31 <= usize::MAX
    }

    /// Whether the engine has come as far as `st` says, on flags that were
    /// `flags` when the search began: the states marked in the bitset are
    /// the states seen, and the flags of the slots hit are set.
    spec fn tracks(&self, st: Progress, flags: Seq<bool>) -> bool {
        &&& self.m.seen() == st.seen
        &&& self.matches@ == flagged(flags, st.hits)
    }

    /// Whether every job on the stack is a state.
    spec fn jobs_are_states(&self) -> bool {
        forall|i: int|
            0 <= i < self.m.jobs@.len() ==> is_state(
                self.prog.insts@,
                self.context@,
                (#[trigger] self.m.jobs@[i]).ip as int,
                self.m.jobs@[i].at as int,
            )
    }

    /// Whether the engine is ready to work: the program can be executed, the
    /// keys of all states fit in a `usize`, and the bitset has a bit for each.
    spec fn ready(&self) -> bool {
        &&& self.fits()
        &&& self.m.visited@.len() == visited_words(
            self.prog.insts@.len() as int,
            self.context@.len() as int,
        )
    }

    /// Whether `other` is an engine for the same program and input.
    spec fn same_task(&self, other: &Self) -> bool {
        &&& self.prog == other.prog
        &&& self.context == other.context
    }

    /// Tests whether the state `(ip, at)` was visited before, and marks it
    /// as visited.
    fn has_visited(&mut self, ip: Index, at: usize) -> (visited: bool)
        requires
            old(self).ready(),
            is_state(old(self).prog.insts@, old(self).context@, ip as int, at as int),
        ensures
            final(self).ready(),
            final(self).same_task(old(self)),
            visited == old(self).m.seen().contains(key(old(self).context@.len() as int, ip as int, at as int)),
            final(self).m.seen() == old(self).m.seen().insert(
                key(old(self).context@.len() as int, ip as int, at as int),
            ),
            final(self).m.jobs@ == old(self).m.jobs@,
            final(self).matches@ == old(self).matches@,
            final(final(self).matches)@ == final(old(self).matches)@,
            *final(final(self).m) == *final(old(self).m),
    {
        proof {
            lemma_key_bounds(self.prog.insts@, self.context@, ip as int, at as int);
            lemma_text_fits(self.prog.insts@.len() as int, self.context@.len() as int, ip as int);
        }
        let k = ip * (self.context.len() + 1) + at;
        let k1 = k / BIT_SIZE;
        proof {
            lemma_key_bit(k);
        }
        let k2 = usize_to_u32(1usize << (k & (BIT_SIZE - 1)));
        let word = self.m.visited[k1];
        let visited = word & k2 != 0;
        if !visited {
            self.m.visited.set(k1, word | k2);
        }
        proof {
            let after = self.m.visited@;
            let b = (k % 32) as u32;
            assert(has_bit(word, b) == visited);
            assert forall|j: int|
                old(self).m.seen().insert(k as int).contains(j) == self.m.seen().contains(
                    j,
                ) by {
                if 0 <= j < 32 * after.len() {
                    let c = (j % 32) as u32;
                    if j / 32 == k1 {
                        lemma_set_bit(word, b, c);
                    }
                }
            }
            assert(self.m.seen() =~= old(self).m.seen().insert(k as int));
        }
        visited
    }

    /// Clears the cache such that the backtracking engine can be executed
    /// on some input of fixed length.
    fn clear(&mut self)
        requires
            old(self).fits(),
        ensures
            final(self).ready(),
            final(self).same_task(old(self)),
            final(self).m.seen() == Set::<int>::empty(),
            forall|i: int| 0 <= i < final(self).m.visited@.len() ==> final(self).m.visited@[i] == 0,
            final(self).m.jobs@.len() == 0,
            final(self).matches@ == old(self).matches@,
            final(final(self).matches)@ == final(old(self).matches)@,
            *final(final(self).m) == *final(old(self).m),
    {
        // Reset the job memory so that we start fresh.
        self.m.jobs.clear();

        // Now we need to clear the bit state set.
        // We do this by figuring out how much space we need to keep track
        // of the states we've visited.
        // Then we reset all existing allocated space to 0.
        // Finally, we request more space if we need it.
        proof {
            lemma_text_fits(self.prog.insts@.len() as int, self.context@.len() as int, 0);
        }
        let visited_len = (self.prog.len() * (self.context.len() + 1) + (BIT_SIZE - 1)) / BIT_SIZE;
        self.m.visited.truncate(visited_len);
        let kept = self.m.visited.len();
        let mut i: usize = 0;
        while i < kept
            invariant
                i <= kept == self.m.visited@.len(),
                kept <= visited_len,
                forall|j: int| 0 <= j < i ==> self.m.visited@[j] == 0,
                self.m.jobs@.len() == 0,
                self.same_task(old(self)),
                self.matches@ == old(self).matches@,
                final(self.matches)@ == final(old(self).matches)@,
                *final(self.m) == *final(old(self).m),
            decreases kept - i,
        {
            self.m.visited.set(i, 0);
            i = i + 1;
        }
        while i < visited_len
            invariant
                i <= visited_len,
                i == self.m.visited@.len(),
                forall|j: int| 0 <= j < i ==> self.m.visited@[j] == 0,
                self.m.jobs@.len() == 0,
                self.same_task(old(self)),
                self.matches@ == old(self).matches@,
                final(self.matches)@ == final(old(self).matches)@,
                *final(self.m) == *final(old(self).m),
            decreases visited_len - i,
        {
            self.m.visited.push(0);
            i = i + 1;
        }
        proof {
            assert forall|k: int| !self.m.seen().contains(k) by {
                if 0 <= k < 32 * self.m.visited@.len() {
                    lemma_zero_has_no_bit((k % 32) as u32);
                }
            }
            assert(self.m.seen() =~= Set::<int>::empty());
        }
    }

    /// Executes instructions from the state `(ip, at)` on, as long as one
    /// leads to the next, and puts the second branch of each `Split` on the
    /// job stack. Returns whether it came to a `Match`.
    ///
    /// `st` is the progress of the search before the call; the progress
    /// after it comes back with the answer. The answer, the jobs and the
    /// progress are those of the machine's walk from `(ip, at)`: from a
    /// state seen before nothing is changed; no job is taken off the stack;
    /// no flag and no mark is cleared, and no flag is set where the answer
    /// is `false`. What the machine makes of the jobs, with `(ip, at)` on
    /// top of them before the call, is what it makes of them after it.
    fn step(
        &mut self,
        ip: Index,
        at: usize,
        Ghost(st): Ghost<Progress>,
        Ghost(flags): Ghost<Seq<bool>>,
    ) -> (res: (bool, Ghost<Progress>))
        requires
            old(self).ready(),
            old(self).jobs_are_states(),
            old(self).tracks(st, flags),
            is_state(old(self).prog.insts@, old(self).context@, ip as int, at as int),
            !done(is_single(*old(self).prog), st),
        ensures
            final(self).ready(),
            final(self).same_task(old(self)),
            final(self).jobs_are_states(),
            final(self).tracks(res.1@, flags),
            (res.0, final(self).m.pending(), res.1@) == walk(
                old(self).prog.insts@,
                old(self).context@,
                old(self).m.pending(),
                ip as int,
                at as int,
                st,
            ),
            old(self).m.pending().is_prefix_of(final(self).m.pending()),
            old(self).m.seen().subset_of(final(self).m.seen()),
            final(self).matches@.len() == old(self).matches@.len(),
            forall|i: int|
                0 <= i < old(self).matches@.len() && old(self).matches@[i] ==> final(self).matches@[i],
            !res.0 ==> final(self).matches@ == old(self).matches@,
            run(
                old(self).prog.insts@,
                old(self).context@,
                is_single(*old(self).prog),
                old(self).m.pending().push((ip as int, at as int)),
                st,
            ) == run(
                old(self).prog.insts@,
                old(self).context@,
                is_single(*old(self).prog),
                final(self).m.pending(),
                res.1@,
            ),
            res.0 ==> res.1@.found == st.found + 1,
            !res.0 ==> res.1@.found == st.found,
            unseen(num_states(old(self).prog.insts@, old(self).context@), res.1@.seen) < unseen(
                num_states(old(self).prog.insts@, old(self).context@),
                st.seen,
            ) || (res.1@ == st && final(self).m.pending() == old(self).m.pending()),
            final(final(self).matches)@ == final(old(self).matches)@,
            *final(final(self).m) == *final(old(self).m),
    {
        let ghost first = (ip as int, at as int);
        let mut pc = ip;
        let mut pos = at;
        let ghost insts = self.prog.insts@;
        let ghost input = self.context@;
        let ghost single = is_single(*self.prog);
        let ghost total = num_states(insts, input);
        let ghost goal = run(insts, input, single, self.m.pending().push((ip as int, at as int)), st);
        let ghost mut cur = st;
        loop
            invariant
                self.ready(),
                self.same_task(old(self)),
                self.jobs_are_states(),
                self.tracks(cur, flags),
                insts == self.prog.insts@,
                input == self.context@,
                single == is_single(*self.prog),
                total == num_states(insts, input),
                is_state(insts, input, pc as int, pos as int),
                cur.found == st.found,
                !done(single, st),
                first == (ip as int, at as int),
                goal == run(insts, input, single, old(self).m.pending().push(first), st),
                goal == run(insts, input, single, self.m.pending().push((pc as int, pos as int)), cur),
                walk(insts, input, old(self).m.pending(), first.0, first.1, st) == walk(
                    insts,
                    input,
                    self.m.pending(),
                    pc as int,
                    pos as int,
                    cur,
                ),
                old(self).m.pending().is_prefix_of(self.m.pending()),
                old(self).m.seen().subset_of(self.m.seen()),
                self.matches@ == old(self).matches@,
                unseen(total, cur.seen) < unseen(total, st.seen) || (cur == st && self.m.pending()
                    == old(self).m.pending()),
                final(self.matches)@ == final(old(self).matches)@,
                *final(self.m) == *final(old(self).m),
            decreases unseen(total, cur.seen),
        {
            // This loop is an optimization to avoid constantly pushing/popping
            // from the stack. Namely, if we're pushing a job only to run it
            // next, avoid the push and just mutate `pc` (and possibly `pos`)
            // in place.
            let ghost pending = self.m.pending();
            proof {
                lemma_run_top(insts, input, single, pending, pc as int, pos as int, cur);
                lemma_key_bounds(insts, input, pc as int, pos as int);
            }
            if self.has_visited(pc, pos) {
                proof {
                    assert(cur.seen.insert(key(input.len() as int, pc as int, pos as int))
                        =~= cur.seen);
                }
                return (false, Ghost(cur));
            }
            let ghost next = visit(insts, input, pc as int, pos as int, cur);
            proof {
                lemma_unseen_decreases(total, cur.seen, key(input.len() as int, pc as int, pos as int));
                assert(self.m.pending() == pending);
            }
            match self.prog.insts[pc] {
                Inst::Match(slot) => {
                    if slot < self.matches.len() {
                        self.matches[slot] = true;
                    }
                    proof {
                        assert(pending + successors(insts, input, pc as int, pos as int) =~= pending);
                        assert(self.matches@ =~= flagged(flags, next.hits));
                    }
                    return (true, Ghost(next));
                },
                Inst::Split(split) => {
                    self.m.jobs.push(Job { ip: split.goto2, at: pos });
                    proof {
                        assert(self.m.pending() =~= pending.push((split.goto2 as int, pos as int)));
                        assert(pending + successors(insts, input, pc as int, pos as int)
                            =~= self.m.pending().push((split.goto1 as int, pos as int)));
                    }
                    pc = split.goto1;
                },
                Inst::Zero(zero) => {
                    if self.context.is_empty_match(pos, &zero.look) {
                        proof {
                            assert(pending + successors(insts, input, pc as int, pos as int)
                                =~= pending.push((zero.goto as int, pos as int)));
                        }
                        pc = zero.goto;
                    } else {
                        proof {
                            assert(pending + successors(insts, input, pc as int, pos as int)
                                =~= pending);
                        }
                        return (false, Ghost(next));
                    }
                },
                Inst::One(one) => {
                    let matched = match self.context.get(pos) {
                        Some(c) => same(one.c, c),
                        None => false,
                    };
                    if matched {
                        proof {
                            assert(pending + successors(insts, input, pc as int, pos as int)
                                =~= pending.push((one.goto as int, pos + 1)));
                        }
                        pc = one.goto;
                        pos = pos + 1;
                    } else {
                        proof {
                            assert(pending + successors(insts, input, pc as int, pos as int)
                                =~= pending);
                        }
                        return (false, Ghost(next));
                    }
                },
                Inst::Interval(interval) => {
                    let matched = match self.context.get(pos) {
                        Some(c) => interval.seq.has(c),
                        None => false,
                    };
                    if matched {
                        proof {
                            assert(pending + successors(insts, input, pc as int, pos as int)
                                =~= pending.push((interval.goto as int, pos + 1)));
                        }
                        pc = interval.goto;
                        pos = pos + 1;
                    } else {
                        proof {
                            assert(pending + successors(insts, input, pc as int, pos as int)
                                =~= pending);
                        }
                        return (false, Ghost(next));
                    }
                },
            }
            proof {
                cur = next;
            }
        }
    }

    /// The main backtracking loop starting at the given input position.
    ///
    /// `st` is the progress of the search before the call; the progress
    /// after it, which comes back with the answer, is that of the machine
    /// run on the one job `(start, at)`.
    fn backtrack(
        &mut self,
        at: usize,
        Ghost(st): Ghost<Progress>,
        Ghost(flags): Ghost<Seq<bool>>,
    ) -> (res: (bool, Ghost<Progress>))
        requires
            old(self).ready(),
            old(self).m.jobs@.len() == 0,
            old(self).tracks(st, flags),
            at <= old(self).context@.len(),
            !done(is_single(*old(self).prog), st),
        ensures
            final(self).ready(),
            final(self).same_task(old(self)),
            final(self).tracks(res.1@, flags),
            res.1@ == run(
                old(self).prog.insts@,
                old(self).context@,
                is_single(*old(self).prog),
                seq![(old(self).prog.start as int, at as int)],
                st,
            ),
            res.0 == (res.1@.found > st.found),
            res.1@.found >= st.found,
            !done(is_single(*old(self).prog), res.1@) ==> final(self).m.jobs@.len() == 0,
            final(final(self).matches)@ == final(old(self).matches)@,
            *final(final(self).m) == *final(old(self).m),
    {
        // N.B. We use an explicit stack to avoid recursion.
        // To avoid excessive pushing and popping, most transitions are handled
        // in the `step` helper function, which only pushes to the stack when
        // there's a branch.
        let ghost insts = self.prog.insts@;
        let ghost input = self.context@;
        let ghost single = is_single(*self.prog);
        let ghost total = num_states(insts, input);
        let ghost goal = run(insts, input, single, seq![(self.prog.start as int, at as int)], st);
        let ghost mut cur = st;
        let mut matched = false;
        self.m.jobs.push(Job { ip: self.prog.start, at });
        proof {
            assert(self.m.pending() =~= seq![(self.prog.start as int, at as int)]);
        }
        loop
            invariant
                self.ready(),
                self.same_task(old(self)),
                self.jobs_are_states(),
                self.tracks(cur, flags),
                insts == self.prog.insts@,
                input == self.context@,
                single == is_single(*self.prog),
                total == num_states(insts, input),
                !done(single, cur),
                matched == (cur.found > st.found),
                cur.found >= st.found,
                goal == run(insts, input, single, seq![(old(self).prog.start as int, at as int)], st),
                goal == run(insts, input, single, self.m.pending(), cur),
                final(self.matches)@ == final(old(self).matches)@,
                *final(self.m) == *final(old(self).m),
            ensures
                self.ready(),
                self.same_task(old(self)),
                self.tracks(cur, flags),
                cur == goal,
                matched == (cur.found > st.found),
                !done(single, cur),
                self.m.jobs@.len() == 0,
                final(self.matches)@ == final(old(self).matches)@,
                *final(self.m) == *final(old(self).m),
            decreases unseen(total, cur.seen), self.m.jobs@.len(),
        {
            let ghost pending = self.m.pending();
            match self.m.jobs.pop() {
                Some(job) => {
                    proof {
                        assert(pending =~= self.m.pending().push((job.ip as int, job.at as int)));
                    }
                    let (hit, next) = self.step(job.ip, job.at, Ghost(cur), Ghost(flags));
                    proof {
                        cur = next@;
                    }
                    if hit {
                        // Only quit if we're matching one regex.
                        // If we're matching a regex set, then mush on and
                        // try to find other matches (if we want them).
                        if self.prog.matches.len() == 1 {
                            return (true, Ghost(cur));
                        }
                        matched = true;
                    }
                },
                None => {
                    break ;
                },
            }
        }
        (matched, Ghost(cur))
    }

    /// Start backtracking at the given position in the input, but also look
    /// for literal prefixes.
    ///
    /// `flags` are the flags before the call. The progress of the whole
    /// search comes back with the answer.
    fn exec_(&mut self, at: usize, end: usize, Ghost(flags): Ghost<Seq<bool>>) -> (res: (
        bool,
        Ghost<Progress>,
    ))
        requires
            old(self).fits(),
            old(self).matches@ == flags,
            at <= old(self).context@.len(),
            old(self).prog.is_anchored_start || end <= old(self).context@.len(),
        ensures
            final(self).ready(),
            final(self).same_task(old(self)),
            final(self).tracks(res.1@, flags),
            res.1@ == search(*old(self).prog, old(self).context@, at as int, end as int),
            res.0 == (res.1@.found > 0),
            !done(is_single(*old(self).prog), res.1@) ==> final(self).m.jobs@.len() == 0,
            final(final(self).matches)@ == final(old(self).matches)@,
            *final(final(self).m) == *final(old(self).m),
    {
        self.clear();
        proof {
            assert(self.matches@ =~= flagged(flags, fresh().hits));
        }
        // If this is an anchored regex at the beginning of the input, then
        // we're either already done or we only need to try backtracking once.
        if self.prog.is_anchored_start {
            return self.backtrack(at, Ghost(fresh()), Ghost(flags));
        }
        let ghost input = self.context@;
        let ghost single = is_single(*self.prog);
        let ghost goal = scan(*self.prog, input, at as int, end as int, fresh());
        let ghost mut cur = fresh();
        let mut matched = false;
        let mut pos = at;
        loop
            invariant_except_break
                self.m.jobs@.len() == 0,
                pos <= input.len(),
                !done(single, cur),
                matched == (cur.found > 0),
                goal == scan(*self.prog, input, pos as int, end as int, cur),
            invariant
                self.ready(),
                self.same_task(old(self)),
                self.tracks(cur, flags),
                input == self.context@,
                single == is_single(*self.prog),
                end <= input.len(),
                !self.prog.is_anchored_start,
                goal == scan(*old(self).prog, input, at as int, end as int, fresh()),
                final(self.matches)@ == final(old(self).matches)@,
                *final(self.m) == *final(old(self).m),
            ensures
                cur == goal,
                matched == (cur.found > 0),
                !done(single, cur) ==> self.m.jobs@.len() == 0,
            decreases input.len() - pos,
        {
            if !self.prog.prefixes.is_empty() {
                proof {
                    lemma_first_occurrence(self.prog.prefixes@, input, pos as int);
                }
                match self.context.prefix_at(&self.prog.prefixes, pos) {
                    None => {
                        break ;
                    },
                    Some(p) => {
                        pos = p;
                    },
                }
            }
            let (hit, next) = self.backtrack(pos, Ghost(cur), Ghost(flags));
            proof {
                cur = next@;
            }
            matched = hit || matched;
            if matched && self.prog.matches.len() == 1 {
                return (true, Ghost(cur));
            }
            if pos >= end {
                break ;
            }
            pos = pos + 1;
        }
        (matched, Ghost(cur))
    }

    /// Execute the backtracking matching engine.
    ///
    /// If there's a match, `exec` returns `true` and sets the flag of each
    /// alternative that matched: what the search of the machine finds.
    /// Whatever the cache held before, it holds the states of this search
    /// afterwards, in a bitset of the size that the program and the input
    /// ask for; its job stack is empty, unless a program of one pattern
    /// stopped at its match. Each state was executed once at most: the
    /// steps made are as many as the states marked, and no more than the
    /// instructions times the positions.
    pub fn exec(
        prog: &'r Program<char>,
        cache: &'a mut Cache,
        matches: &'m mut [bool],
        context: Context<char>,
        start: usize,
        end: usize,
    ) -> (matched: bool)
        requires
            prog.wf(),
            num_states(prog.insts@, context@) + 31 <= usize::MAX,
            start <= context@.len(),
            prog.is_anchored_start || end <= context@.len(),
        ensures
            matched == (search(*prog, context@, start as int, end as int).found > 0),
            final(matches)@ == flagged(
                old(matches)@,
                search(*prog, context@, start as int, end as int).hits,
            ),
            final(cache).seen() == search(*prog, context@, start as int, end as int).seen,
            final(cache).seen().finite(),
            final(cache).seen().len() == search(*prog, context@, start as int, end as int).steps,
            search(*prog, context@, start as int, end as int).steps <= num_states(
                prog.insts@,
                context@,
            ),
            final(cache).words() == visited_words(
                prog.insts@.len() as int,
                context@.len() as int,
            ),
            !(is_single(*prog) && matched) ==> final(cache).pending().len() == 0,
    {
        proof {
            lemma_linear_bound(*prog, context@, start as int, end as int);
        }
        let ghost flags = matches@;
        let mut b = Bounded { prog, context, matches, m: cache };
        let (matched, _) = b.exec_(start, end, Ghost(flags));
        matched
    }

    /// Execute the backtracking matching engine, if it can be executed:
    /// if the program is well formed, the bitset for the program and the
    /// input is within `MAX_SIZE_BYTES`, and `start` and `end` are positions
    /// of the input (a program anchored at the start does not read `end`,
    /// which may then be anything). Else nothing is changed, and `None` is
    /// returned.
    pub fn try_exec(
        prog: &'r Program<char>,
        cache: &'a mut Cache,
        matches: &'m mut [bool],
        context: Context<char>,
        start: usize,
        end: usize,
    ) -> (res: Option<bool>)
        ensures
            res.is_some() == (prog.wf() && visited_words(
                prog.insts@.len() as int,
                context@.len() as int,
            ) * 4 <= MAX_SIZE_BYTES && start <= context@.len() && (prog.is_anchored_start || end
                <= context@.len())),
            res matches Some(matched) ==> {
                &&& matched == (search(*prog, context@, start as int, end as int).found > 0)
                &&& final(matches)@ == flagged(
                    old(matches)@,
                    search(*prog, context@, start as int, end as int).hits,
                )
                &&& final(cache).seen() == search(*prog, context@, start as int, end as int).seen
                &&& final(cache).seen().finite()
                &&& final(cache).seen().len() == search(
                    *prog,
                    context@,
                    start as int,
                    end as int,
                ).steps
                &&& search(*prog, context@, start as int, end as int).steps <= num_states(
                    prog.insts@,
                    context@,
                )
                &&& final(cache).words() == visited_words(
                    prog.insts@.len() as int,
                    context@.len() as int,
                )
                &&& !(is_single(*prog) && matched) ==> final(cache).pending().len() == 0
            },
            res.is_none() ==> final(matches)@ == old(matches)@ && *final(cache) == *old(cache),
    {
        if !prog.is_wf() || !should_exec(prog.len(), context.len()) || start > context.len() {
            return None;
        }
        if !prog.is_anchored_start && end > context.len() {
            return None;
        }
        Some(Self::exec(prog, cache, matches, context, start, end))
    }
}

} // verus!
