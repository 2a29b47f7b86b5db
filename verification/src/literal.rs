//! Literal prefixes: fixed sequences of elements, one of which every match
//! of a program begins with, and the search for the places where one stands.

use vstd::prelude::*;

use crate::repr::{same, Integral};

verus! {

/// A fixed sequence of elements: what a pattern matches where it matches
/// one text only.
#[derive(Debug, PartialEq, Eq)]
pub struct Literal<I: Integral> {
    items: Vec<I>,
}

impl<I: Integral> View for Literal<I> {
    type V = Seq<I>;

    closed spec fn view(&self) -> Seq<I> {
        self.items@
    }
}

impl<I: Integral> Clone for Literal<I> {
    fn clone(&self) -> (copy: Self)
        ensures
            copy@ == self@,
    {
        let mut items: Vec<I> = Vec::new();
        let mut i: usize = 0;
        while i < self.items.len()
            invariant
                i <= self.items@.len(),
                items@ == self.items@.subrange(0, i as int),
            decreases self.items@.len() - i,
        {
            items.push(self.items[i]);
            i = i + 1;
        }
        assert(items@ =~= self.items@);
        Literal { items }
    }
}

impl<I: Integral> Literal<I> {
    /// The literal made of `items`, in their order.
    pub fn new(items: Vec<I>) -> (lit: Self)
        ensures
            lit@ == items@,
    {
        Literal { items }
    }

    /// The literal of the one element `i`.
    pub fn one(i: I) -> (lit: Self)
        ensures
            lit@ == seq![i],
    {
        let mut items: Vec<I> = Vec::new();
        items.push(i);
        assert(items@ =~= seq![i]);
        Literal { items }
    }

    /// The number of elements.
    pub fn len(&self) -> (n: usize)
        ensures
            n == self@.len(),
    {
        self.items.len()
    }

    /// The elements, in their order.
    pub fn as_slice(&self) -> (items: &[I])
        ensures
            items@ == self@,
    {
        self.items.as_slice()
    }

    /// The elements of `self` followed by those of `other`.
    pub fn mul(self, other: Self) -> (lit: Self)
        ensures
            lit@ == self@ + other@,
    {
        let mut items = self.items;
        let mut rest = other.items;
        items.append(&mut rest);
        Literal { items }
    }

    /// The elements of `self`, the last first.
    pub fn rev(self) -> (lit: Self)
        ensures
            lit@ == self@.reverse(),
    {
        let mut items = self.items;
        let ghost before = items@;
        let mut turned: Vec<I> = Vec::new();
        loop
            invariant
                items@.len() + turned@.len() == before.len(),
                items@ == before.subrange(0, items@.len() as int),
                forall|k: int| 0 <= k < turned@.len() ==> turned@[k] == before[before.len() - 1 - k],
            ensures
                turned@.len() == before.len(),
            decreases items@.len(),
        {
            match items.pop() {
                Some(item) => {
                    turned.push(item);
                },
                None => {
                    break ;
                },
            }
        }
        assert(turned@ =~= before.reverse());
        Literal { items: turned }
    }
}

/// Whether `lit` stands in `hay` at position `p`: whether the elements of
/// `hay` from `p` on begin with those of `lit`.
pub open spec fn occurs_at<I>(lit: Seq<I>, hay: Seq<I>, p: int) -> bool {
    &&& 0 <= p
    &&& p + lit.len() <= hay.len()
    &&& forall|k: int| 0 <= k < lit.len() ==> hay[p + k] == lit[k]
}

/// Whether one of `lits` stands in `hay` at position `p`.
pub open spec fn any_occurs_at<I>(lits: Seq<Seq<I>>, hay: Seq<I>, p: int) -> bool {
    exists|i: int| 0 <= i < lits.len() && occurs_at(#[trigger] lits[i], hay, p)
}

/// The first of `lits`, from index `from` on, that stands in `hay` at
/// position `p`.
pub open spec fn first_literal_at<I>(lits: Seq<Seq<I>>, hay: Seq<I>, p: int, from: int) -> Option<
    int,
>
    decreases lits.len() - from,
{
    if from < 0 || from >= lits.len() {
        None
    } else if occurs_at(lits[from], hay, p) {
        Some(from)
    } else {
        first_literal_at(lits, hay, p, from + 1)
    }
}

/// The first position of `hay`, from `from` on, at which one of `lits`
/// stands.
pub open spec fn first_occurrence<I>(lits: Seq<Seq<I>>, hay: Seq<I>, from: int) -> Option<int>
    decreases hay.len() + 1 - from,
{
    if from < 0 || from > hay.len() {
        None
    } else if any_occurs_at(lits, hay, from) {
        Some(from)
    } else {
        first_occurrence(lits, hay, from + 1)
    }
}

/// Where the leftmost literal stands in `hay`, from its first element to the
/// one after its last; of several literals at that place, the first of `lits`.
pub open spec fn find_spec<I>(lits: Seq<Seq<I>>, hay: Seq<I>) -> Option<(int, int)> {
    match first_occurrence(lits, hay, 0) {
        None => None,
        Some(p) => match first_literal_at(lits, hay, p, 0) {
            None => None,
            Some(i) => Some((p, p + lits[i].len())),
        },
    }
}

/// `first_literal_at` finds a literal exactly where one stands.
pub proof fn lemma_first_literal_at<I>(lits: Seq<Seq<I>>, hay: Seq<I>, p: int, from: int)
    requires
        0 <= from,
    ensures
        match first_literal_at(lits, hay, p, from) {
            None => forall|i: int| from <= i < lits.len() ==> !occurs_at(#[trigger] lits[i], hay, p),
            Some(i) => {
                &&& from <= i < lits.len()
                &&& occurs_at(lits[i], hay, p)
                &&& forall|j: int| from <= j < i ==> !occurs_at(#[trigger] lits[j], hay, p)
            },
        },
    decreases lits.len() - from,
{
    if from < lits.len() && !occurs_at(lits[from], hay, p) {
        lemma_first_literal_at(lits, hay, p, from + 1);
    }
}

/// `first_occurrence` gives the least position, from `from` on, at which a
/// literal stands, and nothing where none does.
pub proof fn lemma_first_occurrence<I>(lits: Seq<Seq<I>>, hay: Seq<I>, from: int)
    requires
        0 <= from,
    ensures
        match first_occurrence(lits, hay, from) {
            None => forall|p: int| from <= p ==> !any_occurs_at(lits, hay, p),
            Some(p) => {
                &&& from <= p <= hay.len()
                &&& any_occurs_at(lits, hay, p)
                &&& forall|q: int| from <= q < p ==> !any_occurs_at(lits, hay, q)
            },
        },
    decreases hay.len() + 1 - from,
{
    if from <= hay.len() {
        if !any_occurs_at(lits, hay, from) {
            lemma_first_occurrence(lits, hay, from + 1);
        }
    } else {
        assert forall|p: int| from <= p implies !any_occurs_at(lits, hay, p) by {
            if any_occurs_at(lits, hay, p) {
                let i = choose|i: int| 0 <= i < lits.len() && occurs_at(#[trigger] lits[i], hay, p);
                assert(p + lits[i].len() <= hay.len());
            }
        }
    }
}

/// Where a literal stands, `find_spec` finds one: its first component is the
/// first occurrence.
pub proof fn lemma_find_spec<I>(lits: Seq<Seq<I>>, hay: Seq<I>)
    ensures
        match first_occurrence(lits, hay, 0) {
            None => find_spec(lits, hay).is_none(),
            Some(p) => find_spec(lits, hay).is_some() && find_spec(lits, hay).unwrap().0 == p,
        },
{
    lemma_first_occurrence(lits, hay, 0);
    if let Some(p) = first_occurrence(lits, hay, 0) {
        lemma_first_literal_at(lits, hay, p, 0);
    }
}

/// A literal stands in the tail of `hay` from `at` on exactly where it
/// stands in `hay`, `at` places further.
pub proof fn lemma_occurs_in_tail<I>(lits: Seq<Seq<I>>, hay: Seq<I>, at: int, p: int)
    requires
        0 <= at <= hay.len(),
        0 <= p,
    ensures
        any_occurs_at(lits, hay.subrange(at, hay.len() as int), p) == any_occurs_at(
            lits,
            hay,
            at + p,
        ),
{
    let tail = hay.subrange(at, hay.len() as int);
    if any_occurs_at(lits, tail, p) {
        let i = choose|i: int| 0 <= i < lits.len() && occurs_at(#[trigger] lits[i], tail, p);
        assert forall|k: int| 0 <= k < lits[i].len() implies hay[at + p + k] == lits[i][k] by {
            assert(tail[p + k] == hay[at + p + k]);
        }
        assert(occurs_at(lits[i], hay, at + p));
    }
    if any_occurs_at(lits, hay, at + p) {
        let i = choose|i: int| 0 <= i < lits.len() && occurs_at(#[trigger] lits[i], hay, at + p);
        assert forall|k: int| 0 <= k < lits[i].len() implies tail[p + k] == lits[i][k] by {
            assert(tail[p + k] == hay[at + p + k]);
        }
        assert(occurs_at(lits[i], tail, p));
    }
}

/// The first occurrence in the tail of `hay` from `at` on is the first
/// occurrence in `hay` from `at` on, counted from `at`.
pub proof fn lemma_first_occurrence_in_tail<I>(lits: Seq<Seq<I>>, hay: Seq<I>, at: int, from: int)
    requires
        0 <= at <= hay.len(),
        0 <= from,
    ensures
        first_occurrence(lits, hay, at + from) == match first_occurrence(
            lits,
            hay.subrange(at, hay.len() as int),
            from,
        ) {
            None => None::<int>,
            Some(p) => Some(at + p),
        },
    decreases hay.len() + 1 - at - from,
{
    let tail = hay.subrange(at, hay.len() as int);
    if from <= tail.len() {
        lemma_occurs_in_tail(lits, hay, at, from);
        if !any_occurs_at(lits, tail, from) {
            lemma_first_occurrence_in_tail(lits, hay, at, from + 1);
        }
    }
}

/// The number of elements in the first `n` of `lits`.
pub open spec fn total_len<I>(lits: Seq<Seq<I>>, n: nat) -> nat
    decreases n,
{
    if n == 0 {
        0
    } else {
        total_len(lits, (n - 1) as nat) + lits[n - 1].len()
    }
}

/// A set of literals and the search for them.
#[derive(Clone, Debug)]
pub struct LiteralSearcher<I: Integral> {
    lits: Vec<Vec<I>>,
}

impl<I: Integral> View for LiteralSearcher<I> {
    type V = Seq<Seq<I>>;

    closed spec fn view(&self) -> Seq<Seq<I>> {
        Seq::new(self.lits@.len(), |i: int| self.lits@[i]@)
    }
}

/// Tests whether `lit` stands in `hay` at position `p`.
fn starts_at<I: Integral>(lit: &Vec<I>, hay: &[I], p: usize) -> (found: bool)
    requires
        p <= hay@.len(),
    ensures
        found == occurs_at(lit@, hay@, p as int),
{
    let n = hay.len();
    if lit.len() > n - p {
        return false;
    }
    let mut k: usize = 0;
    while k < lit.len()
        invariant
            k <= lit@.len(),
            n == hay@.len(),
            p + lit@.len() <= n,
            forall|j: int| 0 <= j < k ==> hay@[p + j] == lit@[j],
        decreases lit@.len() - k,
    {
        if !same(hay[p + k], lit[k]) {
            return false;
        }
        k = k + 1;
    }
    true
}

impl<I: Integral> LiteralSearcher<I> {
    /// A searcher with no literal: it finds nothing.
    pub fn empty() -> (searcher: Self)
        ensures
            searcher@.len() == 0,
    {
        LiteralSearcher { lits: Vec::new() }
    }

    /// A searcher for `lits`.
    pub fn new(lits: Vec<Vec<I>>) -> (searcher: Self)
        ensures
            searcher@.len() == lits@.len(),
            forall|i: int| 0 <= i < lits@.len() ==> searcher@[i] == lits@[i]@,
    {
        LiteralSearcher { lits }
    }

    /// Returns true if and only if there is no literal to search for.
    pub fn is_empty(&self) -> (none: bool)
        ensures
            none == (self@.len() == 0),
    {
        self.lits.len() == 0
    }

    /// The number of literals.
    pub fn len(&self) -> (n: usize)
        ensures
            n == self@.len(),
    {
        self.lits.len()
    }

    /// Tests whether one of the literals stands in `hay` at position `p`,
    /// and gives the end of the first that does.
    fn find_at(&self, hay: &[I], p: usize) -> (end: Option<usize>)
        requires
            p <= hay@.len(),
        ensures
            match first_literal_at(self@, hay@, p as int, 0) {
                None => end.is_none() && !any_occurs_at(self@, hay@, p as int),
                Some(i) => end == Some((p + self@[i].len()) as usize) && any_occurs_at(
                    self@,
                    hay@,
                    p as int,
                ),
            },
    {
        let n = hay.len();
        let mut i: usize = 0;
        while i < self.lits.len()
            invariant
                i <= self@.len(),
                self@.len() == self.lits@.len(),
                p <= n == hay@.len(),
                first_literal_at(self@, hay@, p as int, 0) == first_literal_at(
                    self@,
                    hay@,
                    p as int,
                    i as int,
                ),
                forall|j: int| 0 <= j < i ==> !occurs_at(#[trigger] self@[j], hay@, p as int),
            decreases self@.len() - i,
        {
            assert(self@[i as int] == self.lits@[i as int]@);
            if starts_at(&self.lits[i], hay, p) {
                return Some(p + self.lits[i].len());
            }
            i = i + 1;
        }
        None
    }

    /// Finds the leftmost place of `haystack` at which a literal stands:
    /// the position of its first element and the position after its last.
    pub fn find(&self, haystack: &[I]) -> (found: Option<(usize, usize)>)
        ensures
            match found {
                None => find_spec(self@, haystack@).is_none(),
                Some((start, end)) => {
                    &&& find_spec(self@, haystack@) == Some((start as int, end as int))
                    &&& start <= end <= haystack@.len()
                },
            },
    {
        let mut p: usize = 0;
        while p <= haystack.len()
            invariant
                p <= haystack@.len() + 1,
                first_occurrence(self@, haystack@, 0) == first_occurrence(
                    self@,
                    haystack@,
                    p as int,
                ),
            decreases haystack@.len() + 1 - p,
        {
            match self.find_at(haystack, p) {
                Some(end) => {
                    proof {
                        lemma_first_literal_at(self@, haystack@, p as int, 0);
                    }
                    return Some((p, end));
                },
                None => {},
            }
            if p == haystack.len() {
                assert(first_occurrence(self@, haystack@, p + 1).is_none());
                return None;
            }
            p = p + 1;
        }
        None
    }

    /// The number of elements that the literals hold, all together, or
    /// `usize::MAX` if that is less.
    pub open spec fn size_spec(&self) -> nat {
        if total_len(self@, self@.len()) <= usize::MAX {
            total_len(self@, self@.len())
        } else {
            usize::MAX as nat
        }
    }

    /// Return the approximate heap usage of the literals: the number of
    /// elements that they hold, which stops at `usize::MAX`.
    pub fn approximate_size(&self) -> (size: usize)
        ensures
            size == self.size_spec(),
    {
        let mut size: usize = 0;
        let mut i: usize = 0;
        while i < self.lits.len()
            invariant
                i <= self.lits@.len(),
                self@.len() == self.lits@.len(),
                size == if total_len(self@, i as nat) <= usize::MAX {
                    total_len(self@, i as nat)
                } else {
                    usize::MAX as nat
                },
            decreases self.lits@.len() - i,
        {
            assert(self@[i as int] == self.lits@[i as int]@);
            size = size.saturating_add(self.lits[i].len());
            i = i + 1;
        }
        size
    }
}

} // verus!
