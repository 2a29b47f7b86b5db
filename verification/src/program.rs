//! Compiled programs: the instructions that the matching engines execute.

use vstd::prelude::*;

use crate::interval::Interval;
use crate::literal::LiteralSearcher;
use crate::repr::{Integral, Zero};

verus! {

/// `InstPtr` represents the index of an instruction in a regex program.
pub type InstPtr = usize;

/// `Index` is another name for the index of an instruction.
pub type Index = usize;

/// Program is a sequence of instructions and various facts about thos
/// instructions.
#[derive(Clone)]
pub struct Program<I: Integral> {
    /// A sequence of instructions that represents an NFA.
    pub insts: Vec<Inst<I>>,
    /// Pointers to each Match instruction in the sequence.
    ///
    /// This is always length 1 unless this program represents a regex set.
    pub matches: Vec<InstPtr>,
    /// A pointer to the start instruction. This can vary depending on how
    /// the program was compiled. For example, programs for use with the DFA
    /// engine have a `.*?` inserted at the beginning of unanchored regular
    /// expressions. The actual starting point of the program is after the
    /// `.*?`.
    pub start: InstPtr,
    /// When true, the program is compiled for DFA matching. For example, this
    /// implies `is_bytes` and also inserts a preceding `.*?` for unanchored
    /// regexes.
    pub is_dfa: bool,
    /// When true, the program matches text in reverse (for use only in the
    /// DFA).
    pub is_reverse: bool,
    /// Whether the regex must match from the start of the input.
    pub is_anchored_start: bool,
    /// Whether the regex must match at the end of the input.
    pub is_anchored_end: bool,
    /// Whether this program contains a Unicode word boundary instruction.
    pub has_unicode_word_boundary: bool,
    /// A possibly empty machine for very quickly matching prefix literals.
    pub prefixes: LiteralSearcher<I>,
    /// A limit on the size of the cache that the DFA is allowed to use while
    /// matching.
    ///
    /// The cache limit specifies approximately how much space we're willing to
    /// give to the state cache. Once the state cache exceeds the size, it is
    /// wiped and all states must be re-computed.
    ///
    /// Note that this value does not impact correctness. It can be set to 0
    /// and the DFA will run just fine. (It will only ever store exactly one
    /// state in the cache, and will likely run very slowly, but it will work.)
    ///
    /// Also note that this limit is *per thread of execution*. That is,
    /// if the same regex is used to search text across multiple threads
    /// simultaneously, then the DFA cache is not shared. Instead, copies are
    /// made.
    pub dfa_size_limit: usize,
}

/// Inst is an instruction code in a Regex program.
#[derive(Clone, Copy, Debug)]
pub enum Inst<I: Integral> {
    /// Match indicates that the program has reached a match state.
    ///
    /// The number in the match corresponds to the Nth logical regular
    /// expression in this program. This index is always 0 for normal regex
    /// programs. Values greater than 0 appear when compiling regex sets, and
    /// each match instruction gets its own unique value. The value corresponds
    /// to the Nth regex in the set.
    Match(usize),
    /// Split causes the program to diverge to one of two paths in the
    /// program, preferring goto1 in InstSplit.
    Split(InstSplit),
    /// Zero represents a zero-width assertion in a regex program. A
    /// zero-width assertion does not consume any of the input text.
    Zero(InstZero),
    /// One requires the regex program to match the element in InstOne at
    /// the current position in the input.
    One(InstOne<I>),
    /// Interval requires the regex program to match the element at the
    /// current position in the input with the range specified in
    /// InstInterval.
    Interval(InstInterval<I>),
}

/// Representation of the Split instruction.
#[derive(Clone, Copy, Debug)]
pub struct InstSplit {
    /// The first instruction to try. A match resulting from following goto1
    /// has precedence over a match resulting from following goto2.
    pub goto1: InstPtr,
    /// The second instruction to try. A match resulting from following goto1
    /// has precedence over a match resulting from following goto2.
    pub goto2: InstPtr,
}

/// Representation of the `Zero` instruction.
#[derive(Clone, Copy, Debug)]
pub struct InstZero {
    /// The next location to execute in the program if this instruction
    /// succeeds.
    pub goto: InstPtr,
    /// The type of zero-width assertion to check.
    pub look: Zero,
}

/// Representation of the One instruction.
#[derive(Clone, Copy, Debug)]
pub struct InstOne<I: Integral> {
    /// The next location to execute in the program if this instruction
    /// succeeds.
    pub goto: InstPtr,
    /// The element to test.
    pub c: I,
}

/// Representation of the Interval instruction.
#[derive(Clone, Copy, Debug)]
pub struct InstInterval<I: Integral> {
    /// The next location to execute in the program if this instruction
    /// succeeds.
    pub goto: InstPtr,
    /// The range of elements to test.
    pub seq: Interval<I>,
}

impl<I: Integral> core::ops::Deref for Program<I> {
    type Target = [Inst<I>];

    /// The instructions of the program.
    fn deref(&self) -> (insts: &[Inst<I>])
        ensures
            insts@ == self.insts@,
    {
        self.insts.as_slice()
    }
}

impl<'a, I: Integral> IntoIterator for &'a Program<I> {
    type Item = &'a Inst<I>;

    type IntoIter = core::slice::Iter<'a, Inst<I>>;

    /// The instructions of the program, one after the other.
    fn into_iter(self) -> (iter: Self::IntoIter)
        ensures
            vstd::std_specs::slice::into_iter_elts(iter) == self.insts@,
    {
        self.insts.as_slice().iter()
    }
}

impl<I: Integral> Inst<I> {
    /// Whether the instruction can stand in a program of `n` instructions:
    /// every index it names is below `n`, and its assertion, if it has one,
    /// is not `Zero::Any`.
    pub open spec fn wf(self, n: int) -> bool {
        match self {
            Inst::Match(_) => true,
            Inst::Split(split) => split.goto1 < n && split.goto2 < n,
            Inst::Zero(zero) => zero.goto < n && zero.look != Zero::Any,
            Inst::One(one) => one.goto < n,
            Inst::Interval(interval) => interval.goto < n,
        }
    }

    /// Returns true if and only if this is a match instruction.
    pub fn is_match(&self) -> (yes: bool)
        ensures
            yes == (*self is Match),
    {
        match *self {
            Inst::Match(_) => true,
            _ => false,
        }
    }

    /// Tests whether the instruction can stand in a program of `n`
    /// instructions.
    pub fn is_wf(&self, n: usize) -> (ok: bool)
        ensures
            ok == self.wf(n as int),
    {
        match *self {
            Inst::Match(_) => true,
            Inst::Split(split) => split.goto1 < n && split.goto2 < n,
            Inst::Zero(zero) => zero.goto < n && zero.look != Zero::Any,
            Inst::One(one) => one.goto < n,
            Inst::Interval(interval) => interval.goto < n,
        }
    }
}

impl<I: Integral> InstInterval<I> {
    /// Tests whether the given input element matches this instruction.
    pub fn matches(&self, c: I) -> (found: bool)
        ensures
            found == self.seq.contains(c),
    {
        let n = c.to_u32();
        if n < self.seq.0.to_u32() {
            return false;
        }
        if n <= self.seq.1.to_u32() {
            return true;
        }
        false
    }

    /// Return the number of distinct elements represented by the range,
    /// counted by their codes.
    pub fn num_chars(&self) -> (n: usize)
        requires
            self.seq.1.code() < u32::MAX,
            self.seq.0.code() <= self.seq.1.code() + 1,
        ensures
            n == self.seq.span(),
    {
        (1 + self.seq.1.to_u32() - self.seq.0.to_u32()) as usize
    }
}

impl<I: Integral> Program<I> {
    /// Whether the program can be executed: it has a start instruction, and
    /// every instruction can stand in it.
    pub open spec fn wf(&self) -> bool {
        &&& self.start < self.insts@.len()
        &&& forall|pc: int| 0 <= pc < self.insts@.len() ==> (#[trigger] self.insts@[pc]).wf(self.insts@.len() as int)
    }

    /// The approximate heap usage of the program, in bytes.
    pub open spec fn size_spec(&self) -> nat {
        self.insts@.len() * vstd::layout::size_of::<Inst<I>>() + self.matches@.len()
            * vstd::layout::size_of::<InstPtr>() + 256 + self.prefixes.size_spec()
    }

    /// Creates an empty instruction sequence. Fields are given default
    /// values.
    pub fn new() -> (prog: Self)
        ensures
            prog.insts@.len() == 0,
            prog.matches@.len() == 0,
            prog.start == 0,
            !prog.is_dfa,
            !prog.is_reverse,
            !prog.is_anchored_start,
            !prog.is_anchored_end,
            !prog.has_unicode_word_boundary,
            prog.prefixes@.len() == 0,
            prog.dfa_size_limit == 2097152,
    {
        Program {
            insts: Vec::new(),
            matches: Vec::new(),
            start: 0,
            is_dfa: false,
            is_reverse: false,
            is_anchored_start: false,
            is_anchored_end: false,
            has_unicode_word_boundary: false,
            prefixes: LiteralSearcher::empty(),
            dfa_size_limit: 2097152,
        }
    }

    /// The number of instructions.
    pub fn len(&self) -> (n: usize)
        ensures
            n == self.insts@.len(),
    {
        self.insts.len()
    }

    /// Tests whether the program can be executed.
    pub fn is_wf(&self) -> (ok: bool)
        ensures
            ok == self.wf(),
    {
        let n = self.insts.len();
        if self.start >= n {
            return false;
        }
        let mut pc: usize = 0;
        while pc < n
            invariant
                pc <= n == self.insts@.len(),
                forall|k: int| 0 <= k < pc ==> (#[trigger] self.insts@[k]).wf(n as int),
            decreases n - pc,
        {
            if !self.insts[pc].is_wf(n) {
                return false;
            }
            pc = pc + 1;
        }
        true
    }

    /// Return true if and only if an execution engine at instruction `pc` will
    /// always lead to a match. For a regex set the answer is `false`,
    /// whatever `pc` is; for any other program `pc` must be the index of an
    /// instruction.
    pub fn leads_to_match(&self, pc: usize) -> (leads: bool)
        requires
            self.matches@.len() > 1 || pc < self.insts@.len(),
        ensures
            leads == (self.matches@.len() <= 1 && self.insts@[pc as int] is Match),
    {
        if self.matches.len() > 1 {
            // If we have a regex set, then we have more than one ending
            // state, so leading to one of those states is generally
            // meaningless.
            return false;
        }
        match self.insts[pc] {
            Inst::Match(_) => true,
            _ => false,
        }
    }

    /// Returns true if the current configuration demands that an implicit
    /// `.*?` be prepended to the instruction sequence.
    pub fn needs_dotstar(&self) -> (needed: bool)
        ensures
            needed == (self.is_dfa && !self.is_reverse && !self.is_anchored_start),
    {
        self.is_dfa && !self.is_reverse && !self.is_anchored_start
    }

    /// Returns true if this program uses Byte instructions instead of
    /// Char/Range instructions.
    pub fn uses_bytes(&self) -> (bytes: bool)
        ensures
            bytes == self.is_dfa,
    {
        self.is_dfa
    }

    /// Return the approximate heap usage of this instruction sequence in
    /// bytes.
    pub fn approximate_size(&self) -> (size: usize)
        requires
            self.size_spec() <= usize::MAX,
        ensures
            size == self.size_spec(),
    {
        // The only instruction that uses heap space is Ranges (for
        // Unicode codepoint programs) to store non-overlapping codepoint
        // ranges. To keep this operation constant time, we ignore them.
        assert(self.insts@.len() * vstd::layout::size_of::<Inst<I>>() >= 0) by (nonlinear_arith);
        assert(self.matches@.len() * vstd::layout::size_of::<InstPtr>() >= 0) by (nonlinear_arith);
        (self.insts.len() * core::mem::size_of::<Inst<I>>()) + (self.matches.len()
            * core::mem::size_of::<InstPtr>()) + 256 + self.prefixes.approximate_size()
    }
}

} // verus!
