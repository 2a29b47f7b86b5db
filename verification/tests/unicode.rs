use repr::context::Context;
use repr::literal::{Literal, LiteralSearcher};
use repr::repr::{same, Integral, Zero};
use repr::unicode::{is_none, is_word_byte, is_word_char, NONE};

fn input(text: &str) -> Context<char> {
    Context::new(text.chars().collect())
}

#[test]
fn char_bounds() {
    assert_eq!(<char as Integral>::MIN, '\0');
    assert_eq!(<char as Integral>::MAX, '\u{10FFFF}');
    assert_eq!('a'.to_u32(), 97);
    assert_eq!('\u{10FFFF}'.to_u32(), 0x10FFFF);
    assert!(same('a', 'a'));
    assert!(!same('a', 'b'));
}

#[test]
fn succ_steps_over_the_surrogates() {
    assert_eq!(Integral::succ('a'), 'b');
    assert_eq!(Integral::succ('\0'), '\x01');
    assert_eq!(Integral::succ('\u{D7FE}'), '\u{D7FF}');
    assert_eq!(Integral::succ('\u{D7FF}'), '\u{E000}');
    assert_eq!(Integral::succ('\u{E000}'), '\u{E001}');
    assert_eq!(Integral::succ('\u{10FFFE}'), '\u{10FFFF}');
}

#[test]
fn pred_steps_over_the_surrogates() {
    assert_eq!(Integral::pred('b'), 'a');
    assert_eq!(Integral::pred('\x01'), '\0');
    assert_eq!(Integral::pred('\u{E000}'), '\u{D7FF}');
    assert_eq!(Integral::pred('\u{E001}'), '\u{E000}');
    assert_eq!(Integral::pred('\u{D7FF}'), '\u{D7FE}');
    assert_eq!(Integral::pred('\u{10FFFF}'), '\u{10FFFE}');
}

#[test]
fn word_characters() {
    assert!(is_word_char('a' as u32));
    assert!(is_word_char('Z' as u32));
    assert!(is_word_char('0' as u32));
    assert!(is_word_char('_' as u32));
    assert!(is_word_char('é' as u32));
    assert!(is_word_char('δ' as u32));
    assert!(is_word_char('日' as u32));
    assert!(!is_word_char(' ' as u32));
    assert!(!is_word_char('-' as u32));
    assert!(!is_word_char('\n' as u32));
    assert!(!is_word_char('€' as u32));
    // No character at all, and codes that are no characters.
    assert!(!is_word_char(NONE));
    assert!(!is_word_char(0xD800));
    assert!(!is_word_char(0x110000));
}

#[test]
fn word_bytes() {
    for c in ['a', 'z', 'A', 'Z', '0', '9', '_', 'm', 'Q', '5'] {
        assert!(is_word_byte(c as u32), "{:?}", c);
    }
    for c in ['`', '{', '@', '[', '/', ':', ' ', '-', '\0', '\x7F', 'é', 'δ', '日'] {
        assert!(!is_word_byte(c as u32), "{:?}", c);
    }
    assert!(!is_word_byte(NONE));
    assert!(!is_word_byte(0xD800));
    // A code whose low byte is a word byte is none.
    assert!(!is_word_byte(0x161));
}

#[test]
fn none_is_the_absent_character() {
    assert_eq!(NONE, u32::MAX);
    assert!(is_none(NONE));
    assert!(!is_none(0));
    assert!(!is_none('a' as u32));
    assert!(!is_none(0x10FFFF));
}

#[test]
fn context_reads_by_position() {
    let context = input("ab");
    assert_eq!(context.len(), 2);
    assert_eq!(context.as_slice(), &['a', 'b']);
    assert_eq!(context.get(0), Some('a'));
    assert_eq!(context.get(1), Some('b'));
    assert_eq!(context.get(2), None);
    assert_eq!(context.get(3), None);
    assert_eq!(context.before(0), None);
    assert_eq!(context.before(1), Some('a'));
    assert_eq!(context.before(2), Some('b'));
    assert_eq!(context.before(3), None);
    assert_eq!(input("").get(0), None);
    assert_eq!(input("").before(0), None);
}

#[test]
fn text_anchors() {
    let context = input("ab");
    assert!(context.is_empty_match(0, &Zero::StartText));
    assert!(!context.is_empty_match(1, &Zero::StartText));
    assert!(!context.is_empty_match(2, &Zero::StartText));
    assert!(!context.is_empty_match(0, &Zero::EndText));
    assert!(!context.is_empty_match(1, &Zero::EndText));
    assert!(context.is_empty_match(2, &Zero::EndText));
    let empty = input("");
    assert!(empty.is_empty_match(0, &Zero::StartText));
    assert!(empty.is_empty_match(0, &Zero::EndText));
    assert!(empty.is_empty_match(0, &Zero::StartLine));
    assert!(empty.is_empty_match(0, &Zero::EndLine));
}

#[test]
fn line_anchors() {
    let context = input("a\nb");
    assert!(context.is_empty_match(0, &Zero::StartLine));
    assert!(!context.is_empty_match(1, &Zero::StartLine));
    assert!(context.is_empty_match(2, &Zero::StartLine));
    assert!(!context.is_empty_match(3, &Zero::StartLine));
    assert!(!context.is_empty_match(0, &Zero::EndLine));
    assert!(context.is_empty_match(1, &Zero::EndLine));
    assert!(!context.is_empty_match(2, &Zero::EndLine));
    assert!(context.is_empty_match(3, &Zero::EndLine));
}

#[test]
fn word_boundaries() {
    let context = input("ab cd");
    let expected = [true, false, true, true, false, true];
    for (at, boundary) in expected.iter().enumerate() {
        assert_eq!(context.is_empty_match(at, &Zero::WordBoundary), *boundary, "{}", at);
        assert_eq!(context.is_empty_match(at, &Zero::NotWordBoundary), !*boundary, "{}", at);
        assert_eq!(context.is_empty_match(at, &Zero::WordBoundaryAscii), *boundary, "{}", at);
        assert_eq!(context.is_empty_match(at, &Zero::NotWordBoundaryAscii), !*boundary, "{}", at);
    }
    let empty = input("");
    assert!(!empty.is_empty_match(0, &Zero::WordBoundary));
    assert!(empty.is_empty_match(0, &Zero::NotWordBoundary));
    assert!(!empty.is_empty_match(0, &Zero::WordBoundaryAscii));
    assert!(empty.is_empty_match(0, &Zero::NotWordBoundaryAscii));
}

#[test]
fn unicode_and_ascii_boundaries_differ() {
    // Between `é` and `a`: two word characters for Unicode, a boundary for ASCII.
    let context = input("éa");
    assert!(!context.is_empty_match(1, &Zero::WordBoundary));
    assert!(context.is_empty_match(1, &Zero::NotWordBoundary));
    assert!(context.is_empty_match(1, &Zero::WordBoundaryAscii));
    assert!(!context.is_empty_match(1, &Zero::NotWordBoundaryAscii));
    // Before `é`: a boundary for Unicode, none for ASCII.
    assert!(context.is_empty_match(0, &Zero::WordBoundary));
    assert!(!context.is_empty_match(0, &Zero::WordBoundaryAscii));
}

#[test]
fn prefix_at_finds_the_next_candidate() {
    let context = input("abcabc");
    let prefixes = LiteralSearcher::new(vec![vec!['b', 'c'], vec!['c', 'a']]);
    assert_eq!(context.prefix_at(&prefixes, 0), Some(1));
    assert_eq!(context.prefix_at(&prefixes, 1), Some(1));
    assert_eq!(context.prefix_at(&prefixes, 2), Some(2));
    assert_eq!(context.prefix_at(&prefixes, 3), Some(4));
    assert_eq!(context.prefix_at(&prefixes, 5), None);
    assert_eq!(context.prefix_at(&prefixes, 6), None);
    assert_eq!(context.prefix_at(&LiteralSearcher::empty(), 0), None);
}

#[test]
fn searcher_finds_the_leftmost_literal() {
    let hay: Vec<char> = "xxabcxx".chars().collect();
    let searcher = LiteralSearcher::new(vec![vec!['b', 'c'], vec!['a', 'b', 'c'], vec!['a']]);
    // At position 2 two literals stand: the first of the list gives the end.
    assert_eq!(searcher.find(&hay), Some((2, 5)));
    let searcher = LiteralSearcher::new(vec![vec!['a'], vec!['a', 'b', 'c']]);
    assert_eq!(searcher.find(&hay), Some((2, 3)));
    let searcher = LiteralSearcher::new(vec![vec!['c', 'x', 'x']]);
    assert_eq!(searcher.find(&hay), Some((4, 7)));
    assert_eq!(searcher.find(&hay[..6]), None);
    let searcher = LiteralSearcher::new(vec![vec!['z']]);
    assert_eq!(searcher.find(&hay), None);
    // The empty literal stands everywhere, also in nothing.
    let searcher = LiteralSearcher::new(vec![vec!['z'], vec![]]);
    assert_eq!(searcher.find(&hay), Some((0, 0)));
    assert_eq!(searcher.find(&[]), Some((0, 0)));
    let none: LiteralSearcher<char> = LiteralSearcher::empty();
    assert_eq!(none.find(&hay), None);
}

#[test]
fn searcher_sizes() {
    let none: LiteralSearcher<char> = LiteralSearcher::empty();
    assert!(none.is_empty());
    assert_eq!(none.len(), 0);
    assert_eq!(none.approximate_size(), 0);
    let searcher = LiteralSearcher::new(vec![vec!['b', 'c'], vec![], vec!['a', 'b', 'c']]);
    assert!(!searcher.is_empty());
    assert_eq!(searcher.len(), 3);
    assert_eq!(searcher.approximate_size(), 5);
}

#[test]
fn literals() {
    let abc = Literal::new(vec!['a', 'b', 'c']);
    assert_eq!(abc.len(), 3);
    assert_eq!(abc.as_slice(), &['a', 'b', 'c']);
    assert_eq!(Literal::one('x').as_slice(), &['x']);
    assert_eq!(abc.clone().rev().as_slice(), &['c', 'b', 'a']);
    assert_eq!(abc.clone().mul(Literal::one('d')).as_slice(), &['a', 'b', 'c', 'd']);
    assert_eq!(abc.clone(), abc);
    let empty: Literal<char> = Literal::new(vec![]);
    assert_eq!(empty.clone().rev(), empty);
    assert_eq!(empty.len(), 0);
}
