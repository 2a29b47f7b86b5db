//! The algebraic representation of a pattern, and the elements it ranges over.

use vstd::prelude::*;

use crate::interval::Interval;
use crate::literal::Literal;

verus! {

/// A pattern, as a term of an algebra of languages.
#[derive(Debug, PartialEq, Eq)]
pub enum Repr<I: Integral> {
    Zero(Zero),
    One(Literal<I>),
    Interval(Interval<I>),
    /// a & b (additive conjunction/with)
    Mul(Box<Repr<I>>, Box<Repr<I>>),
    /// a ⊕ b (additive disjuction/plus)
    Or(Box<Repr<I>>, Box<Repr<I>>),
    /// a ⊸ b (linear implication)
    Div(Box<Repr<I>>, Box<Repr<I>>),
    Exp(Box<Repr<I>>),
    Not(Box<Repr<I>>),
    /// a ⅋ b (multiplicative disjunction/par)
    Add(Box<Repr<I>>, Box<Repr<I>>),
    /// a ⊗ b (multiplicative conjunction/times)
    And(Box<Repr<I>>, Box<Repr<I>>),
}

/// A pattern as a mathematical term: the term of a `Repr`, with each literal
/// as the sequence of its elements.
pub enum Term<I: Integral> {
    Zero(Zero),
    One(Seq<I>),
    Interval(Interval<I>),
    Mul(Box<Term<I>>, Box<Term<I>>),
    Or(Box<Term<I>>, Box<Term<I>>),
    Div(Box<Term<I>>, Box<Term<I>>),
    Exp(Box<Term<I>>),
    Not(Box<Term<I>>),
    Add(Box<Term<I>>, Box<Term<I>>),
    And(Box<Term<I>>, Box<Term<I>>),
}

/// The four ways of joining two patterns that a list of patterns can be
/// folded with.
#[derive(Clone, Copy, Debug, PartialEq, Eq, Structural)]
pub enum Junction {
    Mul,
    Or,
    Add,
    And,
}

impl<I: Integral> Term<I> {
    /// The term read backwards: literals are turned round and the two sides
    /// of a `Mul` change places. A `Div` and a `Not` are left as they are.
    pub open spec fn rev(self) -> Term<I>
        decreases self,
    {
        match self {
            Term::Zero(zero) => Term::Zero(zero),
            Term::One(lit) => Term::One(lit.reverse()),
            Term::Interval(interval) => Term::Interval(interval),
            Term::Mul(lhs, rhs) => Term::Mul(Box::new(rhs.rev()), Box::new(lhs.rev())),
            Term::Or(lhs, rhs) => Term::Or(Box::new(lhs.rev()), Box::new(rhs.rev())),
            Term::Exp(inner) => Term::Exp(Box::new(inner.rev())),
            Term::Add(lhs, rhs) => Term::Add(Box::new(lhs.rev()), Box::new(rhs.rev())),
            Term::And(lhs, rhs) => Term::And(Box::new(lhs.rev()), Box::new(rhs.rev())),
            Term::Div(lhs, rhs) => Term::Div(lhs, rhs),
            Term::Not(inner) => Term::Not(inner),
        }
    }

    /// Whether the term can be read backwards: whether it holds neither a
    /// `Div` nor a `Not`.
    pub open spec fn reversible(self) -> bool
        decreases self,
    {
        match self {
            Term::Zero(_) => true,
            Term::One(_) => true,
            Term::Interval(_) => true,
            Term::Mul(lhs, rhs) => lhs.reversible() && rhs.reversible(),
            Term::Or(lhs, rhs) => lhs.reversible() && rhs.reversible(),
            Term::Exp(inner) => inner.reversible(),
            Term::Add(lhs, rhs) => lhs.reversible() && rhs.reversible(),
            Term::And(lhs, rhs) => lhs.reversible() && rhs.reversible(),
            Term::Div(_, _) => false,
            Term::Not(_) => false,
        }
    }

    /// Whether the shape of the term shows that it matches the empty
    /// string: it is a `Zero` or an `Exp`, or an `Or` with such a side.
    pub open spec fn is_match_empty(self) -> bool
        decreases self,
    {
        match self {
            Term::Zero(_) => true,
            Term::Or(lhs, rhs) => lhs.is_match_empty() || rhs.is_match_empty(),
            Term::Exp(_) => true,
            _ => false,
        }
    }

    /// The product of two terms: two literals make one literal, any other
    /// two terms an `Or`.
    pub open spec fn mul(self, other: Term<I>) -> Term<I> {
        match (self, other) {
            (Term::One(lhs), Term::One(rhs)) => Term::One(lhs + rhs),
            (lhs, rhs) => Term::Or(Box::new(lhs), Box::new(rhs)),
        }
    }

    /// Two terms joined in the way `how`.
    pub open spec fn join(how: Junction, lhs: Term<I>, rhs: Term<I>) -> Term<I> {
        match how {
            Junction::Mul => Term::Mul(Box::new(lhs), Box::new(rhs)),
            Junction::Or => Term::Or(Box::new(lhs), Box::new(rhs)),
            Junction::Add => Term::Add(Box::new(lhs), Box::new(rhs)),
            Junction::And => Term::And(Box::new(lhs), Box::new(rhs)),
        }
    }

    /// The first `n` of `terms` joined from the left: the first with the
    /// second, what they make with the third, and so on.
    pub open spec fn fold(how: Junction, terms: Seq<Term<I>>, n: nat) -> Term<I>
        decreases n,
    {
        if n <= 1 {
            terms[0]
        } else {
            Term::join(how, Term::fold(how, terms, (n - 1) as nat), terms[n - 1])
        }
    }

    /// The term `n` times, joined by `Mul` from the left.
    pub open spec fn repeat(self, n: nat) -> Term<I>
        decreases n,
    {
        if n <= 1 {
            self
        } else {
            Term::Mul(Box::new(self.repeat((n - 1) as nat)), Box::new(self))
        }
    }
}

/// Reading a reversible term backwards twice gives the term.
pub proof fn lemma_rev_rev<I: Integral>(term: Term<I>)
    requires
        term.reversible(),
    ensures
        term.rev().reversible(),
        term.rev().rev() == term,
    decreases term,
{
    match term {
        Term::One(lit) => {
            assert(lit.reverse().reverse() =~= lit);
        },
        Term::Mul(lhs, rhs) => {
            lemma_rev_rev(*lhs);
            lemma_rev_rev(*rhs);
        },
        Term::Or(lhs, rhs) => {
            lemma_rev_rev(*lhs);
            lemma_rev_rev(*rhs);
        },
        Term::Exp(inner) => {
            lemma_rev_rev(*inner);
        },
        Term::Add(lhs, rhs) => {
            lemma_rev_rev(*lhs);
            lemma_rev_rev(*rhs);
        },
        Term::And(lhs, rhs) => {
            lemma_rev_rev(*lhs);
            lemma_rev_rev(*rhs);
        },
        _ => {},
    }
}

impl<I: Integral> Repr<I> {
    /// The pattern as a mathematical term.
    pub open spec fn term(&self) -> Term<I>
        decreases self,
    {
        match self {
            Repr::Zero(zero) => Term::Zero(*zero),
            Repr::One(lit) => Term::One(lit@),
            Repr::Interval(interval) => Term::Interval(*interval),
            Repr::Mul(lhs, rhs) => Term::Mul(Box::new(lhs.term()), Box::new(rhs.term())),
            Repr::Or(lhs, rhs) => Term::Or(Box::new(lhs.term()), Box::new(rhs.term())),
            Repr::Div(lhs, rhs) => Term::Div(Box::new(lhs.term()), Box::new(rhs.term())),
            Repr::Exp(inner) => Term::Exp(Box::new(inner.term())),
            Repr::Not(inner) => Term::Not(Box::new(inner.term())),
            Repr::Add(lhs, rhs) => Term::Add(Box::new(lhs.term()), Box::new(rhs.term())),
            Repr::And(lhs, rhs) => Term::And(Box::new(lhs.term()), Box::new(rhs.term())),
        }
    }
}

impl<I: Integral> View for Repr<I> {
    type V = Term<I>;

    open spec fn view(&self) -> Term<I> {
        self.term()
    }
}

impl<I: Integral> Clone for Repr<I> {
    fn clone(&self) -> (copy: Self)
        ensures
            copy@ == self@,
        decreases self,
    {
        match self {
            Repr::Zero(zero) => Repr::Zero(*zero),
            Repr::One(lit) => Repr::One(lit.clone()),
            Repr::Interval(interval) => Repr::Interval(*interval),
            Repr::Mul(lhs, rhs) => Repr::Mul(Box::new((&**lhs).clone()), Box::new((&**rhs).clone())),
            Repr::Or(lhs, rhs) => Repr::Or(Box::new((&**lhs).clone()), Box::new((&**rhs).clone())),
            Repr::Div(lhs, rhs) => Repr::Div(Box::new((&**lhs).clone()), Box::new((&**rhs).clone())),
            Repr::Exp(inner) => Repr::Exp(Box::new((&**inner).clone())),
            Repr::Not(inner) => Repr::Not(Box::new((&**inner).clone())),
            Repr::Add(lhs, rhs) => Repr::Add(Box::new((&**lhs).clone()), Box::new((&**rhs).clone())),
            Repr::And(lhs, rhs) => Repr::And(Box::new((&**lhs).clone()), Box::new((&**rhs).clone())),
        }
    }
}

impl<I: Integral> Repr<I> {
    /// The pattern of the default assertion.
    pub fn zero() -> (repr: Self)
        ensures
            repr@ == Term::<I>::Zero(Zero::Any),
    {
        Self::Zero(Default::default())
    }

    /// The pattern that matches the one element `i`.
    pub fn one(i: I) -> (repr: Self)
        ensures
            repr@ == Term::One(seq![i]),
    {
        Self::One(Literal::one(i))
    }

    /// The negation of the pattern.
    pub fn not(self) -> (repr: Self)
        ensures
            repr@ == Term::Not(Box::new(self@)),
    {
        Self::Not(Box::new(self))
    }

    /// The product of two patterns: two literals make one literal, any
    /// other two patterns an `Or`.
    pub fn mul(self, other: Self) -> (repr: Self)
        ensures
            repr@ == self@.mul(other@),
    {
        match (self, other) {
            (Self::One(lhs), Self::One(rhs)) => Self::One(lhs.mul(rhs)),
            (lhs, rhs) => Self::Or(Box::new(lhs), Box::new(rhs)),
        }
    }

    /// a ⊕ b (additive disjuction/plus)
    pub fn or(self, other: Self) -> (repr: Self)
        ensures
            repr@ == Term::Or(Box::new(self@), Box::new(other@)),
    {
        Self::Or(Box::new(self), Box::new(other))
    }

    /// a ⅋ b (multiplicative disjunction/par)
    pub fn add(self, other: Self) -> (repr: Self)
        ensures
            repr@ == Term::Add(Box::new(self@), Box::new(other@)),
    {
        Self::Add(Box::new(self), Box::new(other))
    }

    /// a ⊸ b (linear implication)
    pub fn div(self, other: Self) -> (repr: Self)
        ensures
            repr@ == Term::Div(Box::new(self@), Box::new(other@)),
    {
        Self::Div(Box::new(self), Box::new(other))
    }

    /// The exponential of the pattern.
    pub fn exp(self) -> (repr: Self)
        ensures
            repr@ == Term::Exp(Box::new(self@)),
    {
        Self::Exp(Box::new(self))
    }

    /// a ⊗ b (multiplicative conjunction/times)
    pub fn and(self, other: Self) -> (repr: Self)
        ensures
            repr@ == Term::And(Box::new(self@), Box::new(other@)),
    {
        Self::And(Box::new(self), Box::new(other))
    }

    /// The pattern read backwards. The pattern may hold neither a `Div` nor
    /// a `Not`.
    pub fn rev(self) -> (repr: Self)
        requires
            self@.reversible(),
        ensures
            repr@ == self@.rev(),
        decreases self,
    {
        match self {
            Self::Zero(zero) => Self::Zero(zero),
            Self::One(i) => Self::One(i.rev()),
            Self::Interval(i) => Self::Interval(i),
            Self::Mul(lhs, rhs) => Self::Mul(Box::new((*rhs).rev()), Box::new((*lhs).rev())),
            Self::Or(lhs, rhs) => Self::Or(Box::new((*lhs).rev()), Box::new((*rhs).rev())),
            Self::Exp(repr) => Self::Exp(Box::new((*repr).rev())),
            Self::Add(lhs, rhs) => Self::Add(Box::new((*lhs).rev()), Box::new((*rhs).rev())),
            Self::And(lhs, rhs) => Self::And(Box::new((*lhs).rev()), Box::new((*rhs).rev())),
            Self::Div(lhs, rhs) => Self::Div(lhs, rhs),
            Self::Not(repr) => Self::Not(repr),
        }
    }

    /// Returns true if and only if this repetition operator makes it possible
    /// to match the empty string.
    ///
    /// Note that this is not defined inductively. For example, while `a*`
    /// will report `true`, `()+` will not, even though `()` matches the empty
    /// string and one or more occurrences of something that matches the empty
    /// string will always match the empty string.
    pub fn is_match_empty(&self) -> (empty: bool)
        ensures
            empty == self@.is_match_empty(),
        decreases self,
    {
        match self {
            Self::Zero(_) => true,
            Self::Or(lhs, rhs) => lhs.is_match_empty() || rhs.is_match_empty(),
            Self::Exp(_) => true,
            _ => false,
        }
    }

    /// Returns true if and only if the pattern is the assertion of the start
    /// of the text.
    pub fn is_anchored_start(&self) -> (anchored: bool)
        ensures
            anchored == (self@ == Term::<I>::Zero(Zero::StartText)),
    {
        match self {
            Self::Zero(Zero::StartText) => true,
            _ => false,
        }
    }

    /// Returns true if and only if the pattern is the assertion of the end of
    /// the text.
    pub fn is_anchored_end(&self) -> (anchored: bool)
        ensures
            anchored == (self@ == Term::<I>::Zero(Zero::EndText)),
    {
        match self {
            Self::Zero(Zero::EndText) => true,
            _ => false,
        }
    }

    /// Two patterns joined in the way `how`.
    fn join(how: Junction, lhs: Self, rhs: Self) -> (repr: Self)
        ensures
            repr@ == Term::join(how, lhs@, rhs@),
    {
        match how {
            Junction::Mul => Self::Mul(Box::new(lhs), Box::new(rhs)),
            Junction::Or => Self::Or(Box::new(lhs), Box::new(rhs)),
            Junction::Add => Self::Add(Box::new(lhs), Box::new(rhs)),
            Junction::And => Self::And(Box::new(lhs), Box::new(rhs)),
        }
    }

    /// The patterns of a list joined from the left in the way `how`. The
    /// list may not be empty.
    fn fold(how: Junction, reprs: Vec<Self>) -> (repr: Self)
        requires
            reprs@.len() >= 1,
        ensures
            repr@ == Term::fold(how, terms_of(reprs@), reprs@.len()),
    {
        let ghost all = reprs@;
        let ghost terms = terms_of(all);
        let mut rest = reprs;
        let mut stack: Vec<Self> = Vec::new();
        loop
            invariant
                rest@.len() + stack@.len() == all.len(),
                rest@ == all.subrange(0, rest@.len() as int),
                forall|k: int| 0 <= k < stack@.len() ==> stack@[k] == all[all.len() - 1 - k],
            ensures
                stack@.len() == all.len(),
            decreases rest@.len(),
        {
            match rest.pop() {
                Some(last) => {
                    stack.push(last);
                },
                None => {
                    break ;
                },
            }
        }
        let mut acc = match stack.pop() {
            Some(first) => first,
            None => vstd::pervasive::unreached(),
        };
        let ghost mut done: nat = 1;
        loop
            invariant
                1 <= done,
                done + stack@.len() == all.len(),
                terms == terms_of(all),
                forall|k: int| 0 <= k < stack@.len() ==> stack@[k] == all[all.len() - 1 - k],
                acc@ == Term::fold(how, terms, done),
            ensures
                done == all.len(),
            decreases stack@.len(),
        {
            match stack.pop() {
                Some(next) => {
                    assert(next@ == terms[done as int]);
                    acc = Self::join(how, acc, next);
                    proof {
                        done = done + 1;
                    }
                },
                None => {
                    break ;
                },
            }
        }
        acc
    }

    /// The patterns joined by `Mul`, from the left. There must be one at
    /// least.
    pub fn prod(reprs: Vec<Self>) -> (repr: Self)
        requires
            reprs@.len() >= 1,
        ensures
            repr@ == Term::fold(Junction::Mul, terms_of(reprs@), reprs@.len()),
    {
        Self::fold(Junction::Mul, reprs)
    }

    /// The patterns joined by `Or`, from the left. There must be one at
    /// least.
    pub fn any(reprs: Vec<Self>) -> (repr: Self)
        requires
            reprs@.len() >= 1,
        ensures
            repr@ == Term::fold(Junction::Or, terms_of(reprs@), reprs@.len()),
    {
        Self::fold(Junction::Or, reprs)
    }

    /// The patterns joined by `Add`, from the left. There must be one at
    /// least.
    pub fn sum(reprs: Vec<Self>) -> (repr: Self)
        requires
            reprs@.len() >= 1,
        ensures
            repr@ == Term::fold(Junction::Add, terms_of(reprs@), reprs@.len()),
    {
        Self::fold(Junction::Add, reprs)
    }

    /// The patterns joined by `And`, from the left. There must be one at
    /// least.
    pub fn all(reprs: Vec<Self>) -> (repr: Self)
        requires
            reprs@.len() >= 1,
        ensures
            repr@ == Term::fold(Junction::And, terms_of(reprs@), reprs@.len()),
    {
        Self::fold(Junction::And, reprs)
    }

    /// The pattern `count` times, joined by `Mul` from the left. `count`
    /// must be one at least.
    pub fn repeat(self, count: usize) -> (repr: Self)
        requires
            count >= 1,
        ensures
            repr@ == self@.repeat(count as nat),
    {
        let mut acc = self.clone();
        let mut i: usize = 1;
        while i < count
            invariant
                1 <= i <= count,
                acc@ == self@.repeat(i as nat),
            decreases count - i,
        {
            acc = Self::Mul(Box::new(acc), Box::new(self.clone()));
            i = i + 1;
        }
        acc
    }
}

/// The terms of a list of patterns.
pub open spec fn terms_of<I: Integral>(reprs: Seq<Repr<I>>) -> Seq<Term<I>> {
    Seq::new(reprs.len(), |i: int| reprs[i]@)
}

/// The elements of an input: a totally ordered, discrete type.
///
/// - `Copy`: possibility of `!` exponentiation
/// - the order and the equality of elements are those of their codes
pub trait Integral: Copy {
    /// The number that stands for the element. Elements are ordered as their
    /// codes are.
    spec fn code(self) -> int;

    /// Two elements with one code are one element.
    proof fn lemma_code_injective(a: Self, b: Self)
        requires
            a.code() == b.code(),
        ensures
            a == b,
    ;

    /// The least element.
    const MIN: Self;

    /// The greatest element.
    const MAX: Self;

    /// Every element lies between `MIN` and `MAX`.
    proof fn lemma_code_bounds(x: Self)
        ensures
            Self::MIN.code() <= x.code() <= Self::MAX.code(),
    ;

    /// The element's code, as a machine integer.
    fn to_u32(self) -> (n: u32)
        ensures
            n == self.code(),
    ;

    /// The least element above `self`.
    fn succ(self) -> (next: Self)
        requires
            self.code() < Self::MAX.code(),
        ensures
            self.code() < next.code(),
            forall|x: Self| self.code() < x.code() ==> next.code() <= #[trigger] x.code(),
    ;

    /// The greatest element below `self`.
    fn pred(self) -> (prev: Self)
        requires
            Self::MIN.code() < self.code(),
        ensures
            prev.code() < self.code(),
            forall|x: Self| x.code() < self.code() ==> #[trigger] x.code() <= prev.code(),
    ;
}

/// Tests whether two elements are one and the same.
pub fn same<I: Integral>(a: I, b: I) -> (equal: bool)
    ensures
        equal == (a == b),
{
    let equal = a.to_u32() == b.to_u32();
    proof {
        if equal {
            I::lemma_code_injective(a, b);
        }
    }
    equal
}

/// An anchor assertion. An anchor assertion match always has zero length.
///
/// A word boundary assertion, which may or may not be Unicode aware. A
/// word boundary assertion match always has zero length.
#[derive(Clone, Copy, Debug, PartialEq, Eq, Structural)]
pub enum Zero {
    /// The default value; it asserts nothing, and no program holds it.
    Any,
    /// `^`,  `(?m:^)`
    /// Match the beginning of a line or the beginning of text. Specifically,
    /// this matches at the starting position of the input, or at the position
    /// immediately following a `\n` character.
    StartLine,
    /// `$`, `(?m:$)`
    /// Match the end of a line or the end of text. Specifically,
    /// this matches at the end position of the input, or at the position
    /// immediately preceding a `\n` character.
    EndLine,
    /// `\A`
    /// Match the beginning of text. Specifically, this matches at the starting
    /// position of the input.
    StartText,
    /// `\z`
    /// Match the end of text. Specifically, this matches at the ending
    /// position of the input.
    EndText,
    /// `\b`, `(?-u:\b)`
    /// Match a Unicode-aware word boundary. That is, this matches a position
    /// where the left adjacent character and right adjacent character
    /// correspond to a word and non-word or a non-word and word character.
    WordBoundary,
    /// `\B`, `(?-u:\B)`
    /// Match a Unicode-aware negation of a word boundary.
    NotWordBoundary,
    /// Match an ASCII-only word boundary. That is, this matches a position
    /// where the left adjacent character and right adjacent character
    /// correspond to a word and non-word or a non-word and word character.
    WordBoundaryAscii,
    /// Match an ASCII-only negation of a word boundary.
    NotWordBoundaryAscii,
}

impl Default for Zero {
    fn default() -> (zero: Self)
        ensures
            zero == Zero::Any,
    {
        Zero::Any
    }
}

} // verus!
