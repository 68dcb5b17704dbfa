//! Text as bytes and numbers as text.
use crate::utils::chars_of;
use vstd::prelude::*;
use vstd::string::*;
use vstd::utf8::*;

verus! {

/// `std::str::from_utf8` accepts exactly the UTF-8 byte sequences, and gives the text
/// that they encode.
#[verifier::external_body]
pub(crate) fn utf8_text(data: &[u8]) -> (r: Option<String>)
    ensures
        r is Some <==> valid_utf8(data@),
        r is Some ==> r->0@ == decode_utf8(data@),
{
    match std::str::from_utf8(data) {
        Ok(s) => Some(s.to_string()),
        Err(_) => None,
    }
}

/// The character for a digit below sixteen.
pub open spec fn digit(d: nat) -> char {
    if d == 0 {
        '0'
    } else if d == 1 {
        '1'
    } else if d == 2 {
        '2'
    } else if d == 3 {
        '3'
    } else if d == 4 {
        '4'
    } else if d == 5 {
        '5'
    } else if d == 6 {
        '6'
    } else if d == 7 {
        '7'
    } else if d == 8 {
        '8'
    } else if d == 9 {
        '9'
    } else if d == 10 {
        'a'
    } else if d == 11 {
        'b'
    } else if d == 12 {
        'c'
    } else if d == 13 {
        'd'
    } else if d == 14 {
        'e'
    } else {
        'f'
    }
}

/// A number in a base up to sixteen, without leading zeros.
pub open spec fn digits(n: nat, base: nat) -> Seq<char>
    decreases n,
    via lemma_quotient
{
    if base < 2 || n < base {
        seq![digit(n)]
    } else {
        digits(n / base, base).push(digit(n % base))
    }
}

#[via_fn]
proof fn lemma_quotient(n: nat, base: nat) {
    if base >= 2 && n >= base {
        assert(n / base < n) by (nonlinear_arith)
            requires
                n >= base,
                base >= 2,
        ;
    }
}

/// A number as decimal text.
pub open spec fn decimal(n: nat) -> Seq<char> {
    digits(n, 10)
}

/// `width` times the same character.
pub open spec fn repeated(c: char, width: nat) -> Seq<char> {
    Seq::new(width, |i: int| c)
}

/// Text that is filled up on the left to a width.
pub open spec fn right_aligned(s: Seq<char>, width: nat, fill: char) -> Seq<char> {
    if s.len() < width {
        repeated(fill, (width - s.len()) as nat) + s
    } else {
        s
    }
}

/// Text that is filled up on the right to a width.
pub open spec fn left_aligned(s: Seq<char>, width: nat, fill: char) -> Seq<char> {
    if s.len() < width {
        s + repeated(fill, (width - s.len()) as nat)
    } else {
        s
    }
}

/// A number as at least eight hexadecimal digits.
pub open spec fn hex8(n: nat) -> Seq<char> {
    right_aligned(digits(n, 16), 8, '0')
}

/// The character for a digit below sixteen.
pub fn digit_char(d: u64) -> (r: char)
    requires
        d < 16,
    ensures
        r == digit(d as nat),
{
    match d {
        0 => '0',
        1 => '1',
        2 => '2',
        3 => '3',
        4 => '4',
        5 => '5',
        6 => '6',
        7 => '7',
        8 => '8',
        9 => '9',
        10 => 'a',
        11 => 'b',
        12 => 'c',
        13 => 'd',
        14 => 'e',
        _ => 'f',
    }
}

/// A number in a base up to sixteen, without leading zeros.
pub fn number_text(n: u64, base: u64) -> (r: String)
    requires
        2 <= base <= 16,
    ensures
        r@ == digits(n as nat, base as nat),
    decreases n,
{
    if n < base {
        let mut out = String::new();
        out.push(digit_char(n));
        assert(out@ =~= seq![digit(n as nat)]);
        out
    } else {
        assert(n / base < n) by (nonlinear_arith)
            requires
                n >= base,
                base >= 2,
        ;
        let mut out = number_text(n / base, base);
        out.push(digit_char(n % base));
        out
    }
}

/// `width` times the same character.
pub fn repeat_char(c: char, width: usize) -> (r: String)
    ensures
        r@ == repeated(c, width as nat),
{
    let mut out = String::new();
    let mut i: usize = 0;
    assert(out@ =~= repeated(c, 0));
    while i < width
        invariant
            i <= width,
            out@ == repeated(c, i as nat),
        decreases width - i,
    {
        out.push(c);
        i = i + 1;
        assert(out@ =~= repeated(c, i as nat));
    }
    out
}

/// Text that is filled up on the left to a width.
pub fn align_right(s: &str, width: usize, fill: char) -> (r: String)
    ensures
        r@ == right_aligned(s@, width as nat, fill),
{
    let len: usize = chars_of(s).len();
    if len < width {
        let mut out = repeat_char(fill, width - len);
        out.append(s);
        out
    } else {
        s.to_owned()
    }
}

/// Text that is filled up on the right to a width.
pub fn align_left(s: &str, width: usize, fill: char) -> (r: String)
    ensures
        r@ == left_aligned(s@, width as nat, fill),
{
    let len: usize = chars_of(s).len();
    let mut out: String = s.to_owned();
    if len < width {
        out.append(repeat_char(fill, width - len).as_str());
    }
    out
}

/// Appends a decimal number.
pub fn push_decimal(out: &mut String, n: u64)
    ensures
        final(out)@ == old(out)@ + decimal(n as nat),
{
    out.append(number_text(n, 10).as_str());
}

/// Appends a decimal number that is filled up with spaces on the left to a width.
pub fn push_aligned(out: &mut String, n: u64, width: usize)
    ensures
        final(out)@ == old(out)@ + right_aligned(decimal(n as nat), width as nat, ' '),
{
    out.append(align_right(number_text(n, 10).as_str(), width, ' ').as_str());
}

/// Appends a number as at least eight hexadecimal digits.
pub fn push_hex8(out: &mut String, n: u64)
    ensures
        final(out)@ == old(out)@ + hex8(n as nat),
{
    out.append(align_right(number_text(n, 16).as_str(), 8, '0').as_str());
}

} // verus!
