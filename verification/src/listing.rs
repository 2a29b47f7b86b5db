//! Programs as text, one instruction to a line.

use vstd::prelude::*;
use vstd::string::StringExecFns;

use crate::program::{Inst, Program};
use crate::repr::Zero;

verus! {

/// What `{:?}` writes for the character `c`: the character between single
/// quotes, escaped where it cannot stand for itself.
pub uninterp spec fn char_debug(c: char) -> Seq<char>;

/// `String::push` appends the character to the end of the string.
pub assume_specification[ String::push ](text: &mut String, c: char)
    ensures
        final(text)@ == old(text)@.push(c),
;

/// Formats the character `c` with `{:?}`.
#[verifier::external_body]
fn debug_char(c: char) -> (text: String)
    ensures
        text@ == char_debug(c),
{
    format!("{:?}", c)
}

/// The digit that stands for `d`, a number below ten.
pub open spec fn digit(d: int) -> char {
    ('0' as int + d) as char
}

/// The number `n` in decimal digits.
pub open spec fn decimal(n: nat) -> Seq<char>
    decreases n,
{
    if n < 10 {
        seq![digit(n as int)]
    } else {
        decimal(n / 10).push(digit((n % 10) as int))
    }
}

/// The number `n` in decimal digits, with zeros before them where they are
/// fewer than four.
pub open spec fn padded(n: nat) -> Seq<char> {
    if decimal(n).len() >= 4 {
        decimal(n)
    } else {
        Seq::new((4 - decimal(n).len()) as nat, |i: int| '0') + decimal(n)
    }
}

/// The name of the assertion `look`.
pub open spec fn zero_name(look: Zero) -> Seq<char> {
    match look {
        Zero::Any => "Any"@,
        Zero::StartLine => "StartLine"@,
        Zero::EndLine => "EndLine"@,
        Zero::StartText => "StartText"@,
        Zero::EndText => "EndText"@,
        Zero::WordBoundary => "WordBoundary"@,
        Zero::NotWordBoundary => "NotWordBoundary"@,
        Zero::WordBoundaryAscii => "WordBoundaryAscii"@,
        Zero::NotWordBoundaryAscii => "NotWordBoundaryAscii"@,
    }
}

/// The text `text` of the instruction `cur`, with the instruction that
/// follows it where that is not the next one.
pub open spec fn with_goto(cur: int, goto: int, text: Seq<char>) -> Seq<char> {
    if goto == cur + 1 {
        text
    } else {
        text + " (goto: "@ + decimal(goto as nat) + ")"@
    }
}

/// What is written of the instruction `inst` at index `pc` behind its
/// index.
pub open spec fn inst_text(pc: int, inst: Inst<char>) -> Seq<char> {
    match inst {
        Inst::Match(slot) => " Match("@ + decimal(slot as nat) + ")"@,
        Inst::Split(split) => " Split("@ + decimal(split.goto1 as nat) + ", "@ + decimal(
            split.goto2 as nat,
        ) + ")"@,
        Inst::Zero(zero) => " "@ + with_goto(pc, zero.goto as int, zero_name(zero.look)),
        Inst::One(one) => " "@ + with_goto(pc, one.goto as int, char_debug(one.c)),
        Inst::Interval(interval) => " "@ + with_goto(
            pc,
            interval.goto as int,
            char_debug(interval.seq.0) + "-"@ + char_debug(interval.seq.1),
        ),
    }
}

/// The line of the instruction `inst` at index `pc`: its index in four
/// digits at least, the instruction, a mark where it is the start
/// instruction, and a line feed.
pub open spec fn line(pc: int, inst: Inst<char>, start: int) -> Seq<char> {
    padded(pc as nat) + inst_text(pc, inst) + (if pc == start {
        " (start)"@
    } else {
        Seq::<char>::empty()
    }) + "\n"@
}

/// The lines of the first `n` instructions of `insts`.
pub open spec fn lines(insts: Seq<Inst<char>>, start: int, n: nat) -> Seq<char>
    decreases n,
{
    if n == 0 {
        Seq::<char>::empty()
    } else {
        lines(insts, start, (n - 1) as nat) + line(n - 1, insts[n - 1], start)
    }
}

/// The digit that stands for `d`.
fn digit_char(d: usize) -> (c: char)
    requires
        d < 10,
    ensures
        c == digit(d as int),
{
    let c = match d {
        0 => '0',
        1 => '1',
        2 => '2',
        3 => '3',
        4 => '4',
        5 => '5',
        6 => '6',
        7 => '7',
        8 => '8',
        _ => '9',
    };
    c
}

/// Appends the number `n` in decimal digits.
fn push_decimal(text: &mut String, n: usize)
    ensures
        final(text)@ == old(text)@ + decimal(n as nat),
    decreases n,
{
    if n >= 10 {
        push_decimal(text, n / 10);
    }
    text.push(digit_char(n % 10));
}

/// A number below ten has one digit, one below a hundred two, one below
/// a thousand three, and any other four at least.
proof fn lemma_decimal_len(n: nat)
    ensures
        n < 10 ==> decimal(n).len() == 1,
        10 <= n < 100 ==> decimal(n).len() == 2,
        100 <= n < 1000 ==> decimal(n).len() == 3,
        1000 <= n ==> decimal(n).len() >= 4,
{
    reveal_with_fuel(decimal, 5);
}

/// Appends the number `n` in decimal digits, with zeros before them where
/// they are fewer than four.
fn push_padded(text: &mut String, n: usize)
    ensures
        final(text)@ == old(text)@ + padded(n as nat),
{
    proof {
        lemma_decimal_len(n as nat);
    }
    let ghost before = text@;
    let zeros: usize = if n < 10 {
        3
    } else if n < 100 {
        2
    } else if n < 1000 {
        1
    } else {
        0
    };
    let mut i: usize = 0;
    while i < zeros
        invariant
            i <= zeros,
            text@ == before + Seq::new(i as nat, |k: int| '0'),
        decreases zeros - i,
    {
        text.push('0');
        i = i + 1;
        assert(text@ =~= before + Seq::new(i as nat, |k: int| '0'));
    }
    push_decimal(text, n);
    assert(text@ =~= before + padded(n as nat));
}

/// The name of the assertion `look`.
fn name_of(look: Zero) -> (name: &'static str)
    ensures
        name@ == zero_name(look),
{
    match look {
        Zero::Any => "Any",
        Zero::StartLine => "StartLine",
        Zero::EndLine => "EndLine",
        Zero::StartText => "StartText",
        Zero::EndText => "EndText",
        Zero::WordBoundary => "WordBoundary",
        Zero::NotWordBoundary => "NotWordBoundary",
        Zero::WordBoundaryAscii => "WordBoundaryAscii",
        Zero::NotWordBoundaryAscii => "NotWordBoundaryAscii",
    }
}

/// Appends `text`, and the instruction `goto` that follows the instruction
/// `cur` where that is not the next one.
fn push_with_goto(out: &mut String, cur: usize, goto: usize, text: &str)
    requires
        cur < usize::MAX,
    ensures
        final(out)@ == old(out)@ + with_goto(cur as int, goto as int, text@),
{
    let ghost before = out@;
    out.append(text);
    if goto != cur + 1 {
        out.append(" (goto: ");
        push_decimal(out, goto);
        out.append(")");
    }
    assert(out@ =~= before + with_goto(cur as int, goto as int, text@));
}

/// Appends what is written of the instruction `inst` at index `pc` behind
/// its index.
fn push_inst(out: &mut String, pc: usize, inst: &Inst<char>)
    requires
        pc < usize::MAX,
    ensures
        final(out)@ == old(out)@ + inst_text(pc as int, *inst),
{
    let ghost before = out@;
    match *inst {
        Inst::Match(slot) => {
            out.append(" Match(");
            push_decimal(out, slot);
            out.append(")");
        },
        Inst::Split(split) => {
            out.append(" Split(");
            push_decimal(out, split.goto1);
            out.append(", ");
            push_decimal(out, split.goto2);
            out.append(")");
        },
        Inst::Zero(zero) => {
            out.append(" ");
            push_with_goto(out, pc, zero.goto, name_of(zero.look));
        },
        Inst::One(one) => {
            let s = debug_char(one.c);
            out.append(" ");
            push_with_goto(out, pc, one.goto, s.as_str());
        },
        Inst::Interval(interval) => {
            let mut ranges = debug_char(interval.seq.0);
            ranges.append("-");
            ranges.append(debug_char(interval.seq.1).as_str());
            out.append(" ");
            push_with_goto(out, pc, interval.goto, ranges.as_str());
        },
    }
    assert(out@ =~= before + inst_text(pc as int, *inst));
}

impl Program<char> {
    /// The program as text, a line for each instruction: its index, the
    /// instruction, and a mark at the start instruction.
    pub fn listing(&self) -> (text: String)
        ensures
            text@ == lines(self.insts@, self.start as int, self.insts@.len()),
    {
        let mut text = String::new();
        let n = self.insts.len();
        let mut pc: usize = 0;
        while pc < n
            invariant
                pc <= n == self.insts@.len(),
                text@ == lines(self.insts@, self.start as int, pc as nat),
            decreases n - pc,
        {
            let ghost before = text@;
            push_padded(&mut text, pc);
            push_inst(&mut text, pc, &self.insts[pc]);
            if pc == self.start {
                text.append(" (start)");
            }
            text.append("\n");
            assert(text@ =~= before + line(pc as int, self.insts@[pc as int], self.start as int));
            pc = pc + 1;
        }
        text
    }
}

} // verus!
