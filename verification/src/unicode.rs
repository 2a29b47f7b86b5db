//! Characters as elements: their order, and the classes of characters that
//! the zero-width assertions ask for.

use vstd::prelude::*;

use crate::context::{element_after, element_before, Context};
use crate::interval::Interval;
use crate::literal::{
    first_occurrence, lemma_find_spec, lemma_first_occurrence_in_tail, LiteralSearcher,
};
use crate::repr::{Integral, Repr, Term, Zero};

verus! {

/// The code that stands for "no character": what lies before the first
/// character of an input and after its last.
pub const NONE: u32 = 0xFFFF_FFFF;

/// Whether `n` is a Unicode scalar value: a code point that is no surrogate.
pub open spec fn is_scalar(n: int) -> bool {
    0 <= n <= 0xD7FF || 0xE000 <= n <= 0x10FFFF
}

/// Whether `n` is the code of one of `[_0-9a-zA-Z]`.
pub open spec fn is_ascii_word(n: int) -> bool {
    n == 0x5F || 0x30 <= n <= 0x39 || 0x61 <= n <= 0x7A || 0x41 <= n <= 0x5A
}

/// What `regex_syntax::is_word_character` answers for `c`: whether `c` is a
/// Unicode word character, by the tables of that crate.
pub uninterp spec fn is_unicode_word(c: char) -> bool;

/// `char::from_u32` gives the character with code `n` where `n` is a
/// Unicode scalar value, and nothing elsewhere.
pub assume_specification[ char::from_u32 ](n: u32) -> (c: Option<char>)
    ensures
        is_scalar(n as int) ==> c == Some(n as char),
        !is_scalar(n as int) ==> c.is_none(),
;

/// Calls `regex_syntax::is_word_byte`, which tells whether the byte is one
/// of `[_0-9a-zA-Z]`.
#[verifier::external_body]
fn ascii_word_byte(b: u8) -> (word: bool)
    ensures
        word == is_ascii_word(b as int),
{
    regex_syntax::is_word_byte(b)
}

/// `regex_syntax::is_word_character` looks the character up in the crate's
/// table of Unicode word characters; what it finds is `is_unicode_word`. It
/// answers `true` for the ASCII word characters before it reads the table.
/// With the crate's `unicode-perl` feature on, as here, it never panics.
pub assume_specification[ regex_syntax::is_word_character ](c: char) -> (word: bool)
    ensures
        word == is_unicode_word(c),
        is_ascii_word(c as int) ==> word,
;

/// The code of a character.
fn char_code(c: char) -> (n: u32)
    ensures
        n == c as int,
        is_scalar(n as int),
{
    c as u32
}

/// Every character is a Unicode scalar value.
proof fn lemma_char_is_scalar(c: char)
    ensures
        is_scalar(c as int),
{
}

/// The least character is `'\0'`, the greatest `'\u{10FFFF}'`.
pub proof fn lemma_char_min_max()
    ensures
        <char as Integral>::MIN == '\0',
        <char as Integral>::MAX == '\u{10FFFF}',
{
}

impl Integral for char {
    open spec fn code(self) -> int {
        self as int
    }

    proof fn lemma_code_injective(a: Self, b: Self) {
    }

    const MIN: Self = '\x00';

    const MAX: Self = '\u{10FFFF}';

    proof fn lemma_code_bounds(x: Self) {
        lemma_char_is_scalar(x);
    }

    fn to_u32(self) -> (n: u32)
        ensures
            is_scalar(n as int),
    {
        char_code(self)
    }

    /// The character behind `self`: the one with the next code, and behind
    /// `'\u{D7FF}'` the first behind the surrogates.
    fn succ(self) -> (next: Self)
        ensures
            next as int == (if self as int == 0xD7FF {
                0xE000
            } else {
                self as int + 1
            }),
    {
        let n = char_code(self);
        let next = if n == 0xD7FF {
            '\u{E000}'
        } else {
            match char::from_u32(n + 1) {
                Some(c) => c,
                None => self,
            }
        };
        proof {
            assert forall|x: char| self.code() < x.code() implies next.code() <= #[trigger] x.code() by {
                lemma_char_is_scalar(x);
            }
        }
        next
    }

    /// The character before `self`: the one with the code before, and
    /// before `'\u{E000}'` the last before the surrogates.
    fn pred(self) -> (prev: Self)
        ensures
            prev as int == (if self as int == 0xE000 {
                0xD7FF
            } else {
                self as int - 1
            }),
    {
        let n = char_code(self);
        let prev = if n == 0xE000 {
            '\u{D7FF}'
        } else {
            match char::from_u32(n - 1) {
                Some(c) => c,
                None => self,
            }
        };
        proof {
            assert forall|x: char| x.code() < self.code() implies #[trigger] x.code() <= prev.code() by {
                lemma_char_is_scalar(x);
            }
        }
        prev
    }
}

impl Repr<char> {
    /// `.` expression that matches any character except for `\n`.
    pub fn dot() -> (repr: Self)
        ensures
            repr@ == Term::Or(
                Box::new(Term::Interval(Interval('\0', '\x09'))),
                Box::new(Term::Interval(Interval('\x0B', '\u{10FFFF}'))),
            ),
    {
        let low = Self::Interval(Interval('\0', '\x09'));
        let high = Self::Interval(Interval('\x0B', '\u{10FFFF}'));
        assert(low@ == Term::Interval(Interval('\0', '\x09')));
        assert(high@ == Term::Interval(Interval('\x0B', '\u{10FFFF}')));
        Self::Or(Box::new(low), Box::new(high))
    }
}

/// Whether the code `c` stands for a character that is a Unicode word
/// character.
pub open spec fn is_word_char_spec(c: u32) -> bool {
    is_scalar(c as int) && is_unicode_word(c as char)
}

/// Whether the code `c` stands for one of `[_0-9a-zA-Z]`.
pub open spec fn is_word_byte_spec(c: u32) -> bool {
    is_ascii_word(c as int)
}

/// Returns true iff the character is a word character.
///
/// If the character is absent, then false is returned.
pub fn is_word_char(c: u32) -> (word: bool)
    ensures
        word == is_word_char_spec(c),
        is_ascii_word(c as int) ==> word,
{
    match char::from_u32(c) {
        Some(c) => regex_syntax::is_word_character(c),
        None => false,
    }
}

/// Returns true iff the byte is a word byte.
///
/// If the byte is absent, then false is returned.
pub fn is_word_byte(c: u32) -> (word: bool)
    ensures
        word == is_word_byte_spec(c),
{
    match char::from_u32(c) {
        Some(_) => {
            if c <= 0x7F {
                ascii_word_byte(c as u8)
            } else {
                false
            }
        },
        None => false,
    }
}

/// Returns true iff the character is absent.
#[inline]
pub fn is_none(c: u32) -> (absent: bool)
    ensures
        absent == (c == NONE),
{
    c == NONE
}

/// The code of the character `c`, or `NONE` where there is no character.
pub open spec fn code_or_none(c: Option<char>) -> u32 {
    match c {
        Some(c) => c as u32,
        None => NONE,
    }
}

/// Whether the zero-width assertion `look` holds at position `at` of `input`.
///
/// A position has the character before it on its left and the character
/// after it on its right; at the two ends of the input one of them is
/// absent, and an absent character is no word character. `Zero::Any` holds
/// nowhere.
pub open spec fn empty_match(input: Seq<char>, at: int, look: Zero) -> bool {
    let left = code_or_none(element_before(input, at));
    let right = code_or_none(element_after(input, at));
    match look {
        Zero::StartLine => at == 0 || left == '\n' as u32,
        Zero::EndLine => at == input.len() || right == '\n' as u32,
        Zero::StartText => at == 0,
        Zero::EndText => at == input.len(),
        Zero::WordBoundary => is_word_char_spec(left) != is_word_char_spec(right),
        Zero::NotWordBoundary => is_word_char_spec(left) == is_word_char_spec(right),
        Zero::WordBoundaryAscii => is_word_byte_spec(left) != is_word_byte_spec(right),
        Zero::NotWordBoundaryAscii => is_word_byte_spec(left) == is_word_byte_spec(right),
        Zero::Any => false,
    }
}

/// The code of a character that may be absent.
fn code_of(c: Option<char>) -> (n: u32)
    ensures
        n == code_or_none(c),
{
    match c {
        Some(c) => char_code(c),
        None => NONE,
    }
}

/// An abstraction over input used in the matching engines.
impl Context<char> {
    /// Return true if the given empty width instruction matches at the
    /// input position given.
    pub fn is_empty_match(&self, at: usize, look: &Zero) -> (holds: bool)
        requires
            *look != Zero::Any,
        ensures
            holds == empty_match(self@, at as int, *look),
    {
        match look {
            Zero::StartLine => {
                let c = code_of(self.before(at));
                at == 0 || c == 0x0A
            },
            Zero::EndLine => {
                let c = code_of(self.get(at));
                at == self.len() || c == 0x0A
            },
            Zero::StartText => at == 0,
            Zero::EndText => at == self.len(),
            Zero::WordBoundary => {
                let (c1, c2) = (code_of(self.before(at)), code_of(self.get(at)));
                is_word_char(c1) != is_word_char(c2)
            },
            Zero::NotWordBoundary => {
                let (c1, c2) = (code_of(self.before(at)), code_of(self.get(at)));
                is_word_char(c1) == is_word_char(c2)
            },
            Zero::WordBoundaryAscii => {
                let (c1, c2) = (code_of(self.before(at)), code_of(self.get(at)));
                is_word_byte(c1) != is_word_byte(c2)
            },
            Zero::NotWordBoundaryAscii => {
                let (c1, c2) = (code_of(self.before(at)), code_of(self.get(at)));
                is_word_byte(c1) == is_word_byte(c2)
            },
            Zero::Any => false,
        }
    }

    /// Scan the input for a matching prefix: the first position, from `at`
    /// on, at which one of the literals of `prefixes` stands.
    pub fn prefix_at(&self, prefixes: &LiteralSearcher<char>, at: usize) -> (next: Option<usize>)
        requires
            at <= self@.len(),
        ensures
            match next {
                None => first_occurrence(prefixes@, self@, at as int).is_none(),
                Some(p) => first_occurrence(prefixes@, self@, at as int) == Some(p as int),
            },
    {
        let items = self.as_slice();
        let tail = vstd::slice::slice_subrange(items, at, items.len());
        proof {
            lemma_find_spec(prefixes@, tail@);
            lemma_first_occurrence_in_tail(prefixes@, self@, at as int, 0);
        }
        match prefixes.find(tail) {
            Some((s, _)) => Some(at + s),
            None => None,
        }
    }
}

} // verus!
