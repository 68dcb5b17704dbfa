//! Numbers that are typed in, and bytes as a table of hexadecimal digits.
use crate::text::{
    align_right, digits, hex8, number_text, push_hex8, repeat_char, repeated, right_aligned,
};
use crate::utils::chars_of;
use vstd::prelude::*;
use vstd::string::*;

verus! {

/// Reason for which a text is not accepted.
#[derive(Debug, Clone, Copy, PartialEq, Eq, Structural)]
pub enum InputFault {
    /// Not a hexadecimal number of at most 64 bits.
    InvalidHex,
    /// Not a decimal number of at most 64 bits.
    InvalidNumber,
    /// A table needs columns.
    NoColumns,
}

/// Characters that count as white space.
pub open spec fn is_space(c: char) -> bool {
    ||| '\u{9}' <= c <= '\u{d}'
    ||| c == ' '
    ||| c == '\u{85}'
    ||| c == '\u{a0}'
    ||| c == '\u{1680}'
    ||| '\u{2000}' <= c <= '\u{200a}'
    ||| c == '\u{2028}'
    ||| c == '\u{2029}'
    ||| c == '\u{202f}'
    ||| c == '\u{205f}'
    ||| c == '\u{3000}'
}

/// The text without white space at its start.
pub open spec fn trimmed_start(s: Seq<char>) -> Seq<char>
    decreases s.len(),
{
    if s.len() > 0 && is_space(s[0]) {
        trimmed_start(s.drop_first())
    } else {
        s
    }
}

/// The text without white space at its end.
pub open spec fn trimmed_end(s: Seq<char>) -> Seq<char>
    decreases s.len(),
{
    if s.len() > 0 && is_space(s.last()) {
        trimmed_end(s.drop_last())
    } else {
        s
    }
}

/// The text without white space around it.
pub open spec fn trimmed(s: Seq<char>) -> Seq<char> {
    trimmed_end(trimmed_start(s))
}

/// The value of a digit of a base up to sixteen.
pub open spec fn digit_value(c: char, base: nat) -> Option<nat> {
    let v = if '0' <= c <= '9' {
        (c as int - '0' as int) as nat
    } else if 'a' <= c <= 'f' {
        (c as int - 'a' as int + 10) as nat
    } else if 'A' <= c <= 'F' {
        (c as int - 'A' as int + 10) as nat
    } else {
        16
    };
    if v < base {
        Some(v)
    } else {
        None
    }
}

/// The number that digits stand for.
pub open spec fn digits_value(s: Seq<char>, base: nat) -> Option<nat>
    decreases s.len(),
{
    if s.len() == 0 {
        Some(0)
    } else {
        match (digits_value(s.drop_last(), base), digit_value(s.last(), base)) {
            (Some(n), Some(d)) => Some(n * base + d),
            _ => None,
        }
    }
}

/// The number that a text stands for: digits, with or without a plus sign.
pub open spec fn number_of(s: Seq<char>, base: nat) -> Option<u64> {
    let t = if s.len() > 0 && s[0] == '+' {
        s.drop_first()
    } else {
        s
    };
    if t.len() == 0 {
        None
    } else {
        match digits_value(t, base) {
            Some(n) => if n <= u64::MAX {
                Some(n as u64)
            } else {
                None
            },
            None => None,
        }
    }
}

/// The number that is typed in: hexadecimal behind `0x` or `0X`, else decimal.
pub open spec fn typed_number(s: Seq<char>) -> Result<u64, InputFault> {
    let t = trimmed(s);
    if t.len() >= 2 && t[0] == '0' && (t[1] == 'x' || t[1] == 'X') {
        match number_of(t.subrange(2, t.len() as int), 16) {
            Some(n) => Ok(n),
            None => Err(InputFault::InvalidHex),
        }
    } else {
        match number_of(t, 10) {
            Some(n) => Ok(n),
            None => Err(InputFault::InvalidNumber),
        }
    }
}

/// True for characters that count as white space.
fn space(c: char) -> (r: bool)
    ensures
        r == is_space(c),
{
    ('\u{9}' <= c && c <= '\u{d}') || c == ' ' || c == '\u{85}' || c == '\u{a0}' || c == '\u{1680}'
        || ('\u{2000}' <= c && c <= '\u{200a}') || c == '\u{2028}' || c == '\u{2029}' || c
        == '\u{202f}' || c == '\u{205f}' || c == '\u{3000}'
}

/// The text without white space around it.
pub fn trim_text(s: &str) -> (r: Vec<char>)
    ensures
        r@ == trimmed(s@),
{
    let all = chars_of(s);
    let n: usize = all.len();
    let mut i: usize = 0;
    assert(all@.subrange(0, n as int) =~= s@);
    while i < n && space(all[i])
        invariant
            i <= n,
            n == all@.len(),
            trimmed_start(s@) == trimmed_start(all@.subrange(i as int, n as int)),
        decreases n - i,
    {
        assert(all@.subrange(i as int, n as int).drop_first() =~= all@.subrange(i + 1, n as int));
        i = i + 1;
    }
    let ghost t = trimmed_start(s@);
    assert(t == all@.subrange(i as int, n as int)) by {
        let rest = all@.subrange(i as int, n as int);
        if rest.len() > 0 {
            assert(rest[0] == all@[i as int]);
        }
    }
    let mut j: usize = n;
    while j > i && space(all[j - 1])
        invariant
            i <= j <= n,
            n == all@.len(),
            trimmed_end(t) == trimmed_end(all@.subrange(i as int, j as int)),
        decreases j,
    {
        assert(all@.subrange(i as int, j as int).drop_last() =~= all@.subrange(
            i as int,
            j - 1,
        ));
        j = j - 1;
    }
    let mut out: Vec<char> = Vec::new();
    let mut k: usize = i;
    while k < j
        invariant
            i <= k <= j <= n,
            n == all@.len(),
            out@ == all@.subrange(i as int, k as int),
        decreases j - k,
    {
        out.push(all[k]);
        k = k + 1;
        assert(out@ =~= all@.subrange(i as int, k as int));
    }
    out
}

/// The value of a digit of a base up to sixteen.
fn value_of_digit(c: char, base: u64) -> (r: Option<u64>)
    requires
        base <= 16,
    ensures
        match r {
            Some(v) => digit_value(c, base as nat) == Some(v as nat) && v < 16,
            None => digit_value(c, base as nat) is None,
        },
{
    let v: u64 = if '0' <= c && c <= '9' {
        c as u64 - '0' as u64
    } else if 'a' <= c && c <= 'f' {
        c as u64 - 'a' as u64 + 10
    } else if 'A' <= c && c <= 'F' {
        c as u64 - 'A' as u64 + 10
    } else {
        16
    };
    if v < base {
        Some(v)
    } else {
        None
    }
}

/// Digits that fail, or stand for too much, do so however they go on.
proof fn lemma_digits_prefix(s: Seq<char>, base: nat, k: int)
    requires
        0 <= k <= s.len(),
        base >= 1,
    ensures
        digits_value(s.subrange(0, k), base) is None ==> digits_value(s, base) is None,
        digits_value(s, base) is Some && digits_value(s.subrange(0, k), base) is Some
            ==> digits_value(s, base)->0 >= digits_value(s.subrange(0, k), base)->0,
    decreases s.len() - k,
{
    if k < s.len() {
        let a = s.subrange(0, k);
        let b = s.subrange(0, k + 1);
        assert(b.drop_last() =~= a);
        lemma_digits_prefix(s, base, k + 1);
        if digits_value(a, base) is Some && digits_value(b, base) is Some {
            let n = digits_value(a, base)->0;
            assert(n * base >= n) by (nonlinear_arith)
                requires
                    base >= 1,
                    n >= 0,
            ;
        }
    } else {
        assert(s.subrange(0, k) =~= s);
    }
}

/// The number that the characters from `from` on stand for.
fn parse_number(s: &Vec<char>, from: usize, base: u64) -> (r: Option<u64>)
    requires
        from <= s@.len(),
        2 <= base <= 16,
    ensures
        r == number_of(s@.subrange(from as int, s@.len() as int), base as nat),
{
    let n: usize = s.len();
    let ghost whole = s@.subrange(from as int, n as int);
    let start: usize = if from < n && s[from] == '+' {
        from + 1
    } else {
        from
    };
    let ghost t = s@.subrange(start as int, n as int);
    proof {
        if from < n && s@[from as int] == '+' {
            assert(whole[0] == '+');
            assert(whole.drop_first() =~= t);
        } else if whole.len() > 0 {
            assert(whole[0] == s@[from as int]);
        }
    }
    if start == n {
        return None;
    }
    let mut value: u64 = 0;
    let mut i: usize = start;
    assert(t.subrange(0, 0) =~= Seq::empty());
    while i < n
        invariant
            start <= i <= n,
            n == s@.len(),
            2 <= base <= 16,
            t == s@.subrange(start as int, n as int),
            whole == s@.subrange(from as int, n as int),
            t.len() > 0,
            number_of(whole, base as nat) == (match digits_value(t, base as nat) {
                Some(v) => if v <= u64::MAX {
                    Some(v as u64)
                } else {
                    None
                },
                None => None,
            }),
            digits_value(t.subrange(0, i - start), base as nat) == Some(value as nat),
        decreases n - i,
    {
        let ghost a = t.subrange(0, i - start);
        let ghost b = t.subrange(0, i + 1 - start);
        proof {
            assert(b.drop_last() =~= a);
            assert(b.last() == s@[i as int]);
            lemma_digits_prefix(t, base as nat, i + 1 - start);
        }
        let d: u64 = match value_of_digit(s[i], base) {
            Some(d) => d,
            None => return None,
        };
        let m: u64 = match value.checked_mul(base) {
            Some(m) => m,
            None => return None,
        };
        if d > u64::MAX - m {
            return None;
        }
        value = m + d;
        i = i + 1;
    }
    assert(t.subrange(0, i - start) =~= t);
    Some(value)
}

/// The number that is typed in: hexadecimal behind `0x` or `0X`, else decimal.
pub fn parse_hex_or_decimal(s: &str) -> (r: Result<u64, InputFault>)
    ensures
        r == typed_number(s@),
{
    let t = trim_text(s);
    assert(t@.subrange(0, t@.len() as int) =~= t@);
    if t.len() >= 2 && t[0] == '0' && (t[1] == 'x' || t[1] == 'X') {
        match parse_number(&t, 2, 16) {
            Some(n) => Ok(n),
            None => Err(InputFault::InvalidHex),
        }
    } else {
        match parse_number(&t, 0, 10) {
            Some(n) => Ok(n),
            None => Err(InputFault::InvalidNumber),
        }
    }
}

/// `y` or `yes` in any case, with white space around it or not.
pub open spec fn is_yes(s: Seq<char>) -> bool {
    let t = trimmed(s);
    let y = t.len() > 0 && (t[0] == 'y' || t[0] == 'Y');
    ||| t.len() == 1 && y
    ||| t.len() == 3 && y && (t[1] == 'e' || t[1] == 'E') && (t[2] == 's' || t[2] == 'S')
}

/// True if the answer agrees to what destroys data.
pub fn confirms(answer: &str) -> (r: bool)
    ensures
        r == is_yes(answer@),
{
    let t = trim_text(answer);
    let n: usize = t.len();
    if n == 0 || !(t[0] == 'y' || t[0] == 'Y') {
        return false;
    }
    if n == 1 {
        return true;
    }
    n == 3 && (t[1] == 'e' || t[1] == 'E') && (t[2] == 's' || t[2] == 'S')
}

/// The character that is shown for a byte.
pub open spec fn shown_char(b: u8) -> char {
    if 0x20 <= b <= 0x7e {
        b as char
    } else {
        '.'
    }
}

/// Bytes as pairs of hexadecimal digits, each with a space behind it.
pub open spec fn hex_pairs(data: Seq<u8>) -> Seq<char>
    decreases data.len(),
{
    if data.len() == 0 {
        Seq::empty()
    } else {
        hex_pairs(data.drop_last()) + right_aligned(digits(data.last() as nat, 16), 2, '0') + " "@
    }
}

/// Bytes as the characters that are shown for them.
pub open spec fn shown(data: Seq<u8>) -> Seq<char> {
    Seq::new(data.len(), |i: int| shown_char(data[i]))
}

/// One row of a table: the offset, the digits, and the characters.
pub open spec fn hex_row(offset: int, row: Seq<u8>, cols: int) -> Seq<char> {
    hex8(offset as nat) + ": "@ + hex_pairs(row) + repeated(' ', ((cols - row.len()) * 3) as nat)
        + "| "@ + shown(row) + "\n"@
}

/// The rows of a table from `offset` on.
pub open spec fn hex_rows(data: Seq<u8>, cols: int, offset: int) -> Seq<char>
    decreases data.len() - offset,
{
    if cols <= 0 || offset >= data.len() {
        Seq::empty()
    } else {
        let end = if offset + cols < data.len() {
            offset + cols
        } else {
            data.len() as int
        };
        hex_row(offset, data.subrange(offset, end), cols) + hex_rows(data, cols, end)
    }
}

/// The character that is shown for a byte.
fn shown_byte(b: u8) -> (r: char)
    ensures
        r == shown_char(b),
{
    if 0x20 <= b && b <= 0x7e {
        b as char
    } else {
        '.'
    }
}

/// One row of a table.
fn push_hex_row(out: &mut String, data: &[u8], offset: usize, end: usize, cols: usize)
    requires
        offset < end <= data@.len(),
        end - offset <= cols,
        cols <= usize::MAX / 3,
    ensures
        final(out)@ == old(out)@ + hex_row(
            offset as int,
            data@.subrange(offset as int, end as int),
            cols as int,
        ),
{
    let ghost before = out@;
    let ghost row = data@.subrange(offset as int, end as int);
    push_hex8(out, offset as u64);
    out.append(": ");
    let ghost head = out@;
    let mut i: usize = offset;
    assert(row.subrange(0, 0) =~= Seq::empty());
    assert(out@ =~= head + hex_pairs(row.subrange(0, 0)));
    while i < end
        invariant
            offset <= i <= end <= data@.len(),
            row == data@.subrange(offset as int, end as int),
            out@ == head + hex_pairs(row.subrange(0, i - offset)),
        decreases end - i,
    {
        let ghost had = out@;
        proof {
            assert(row.subrange(0, i + 1 - offset).drop_last() =~= row.subrange(0, i - offset));
            assert(row.subrange(0, i + 1 - offset).last() == data@[i as int]);
        }
        let pair = align_right(number_text(data[i] as u64, 16).as_str(), 2, '0');
        out.append(pair.as_str());
        out.append(" ");
        i = i + 1;
        assert(out@ =~= head + hex_pairs(row.subrange(0, i - offset)));
    }
    assert(row.subrange(0, i - offset) =~= row);
    let padding: usize = (cols - (end - offset)) * 3;
    out.append(repeat_char(' ', padding).as_str());
    out.append("| ");
    let ghost middle = out@;
    let mut j: usize = offset;
    assert(out@ =~= middle + shown(row.subrange(0, 0)));
    while j < end
        invariant
            offset <= j <= end <= data@.len(),
            row == data@.subrange(offset as int, end as int),
            out@ == middle + shown(row.subrange(0, j - offset)),
        decreases end - j,
    {
        out.push(shown_byte(data[j]));
        j = j + 1;
        assert(out@ =~= middle + shown(row.subrange(0, j - offset)));
    }
    assert(row.subrange(0, j - offset) =~= row);
    out.append("\n");
    assert(out@ =~= before + hex_row(offset as int, row, cols as int));
}

/// Bytes as a table of hexadecimal digits and characters with `cols` bytes in each row.
pub fn hex_view(data: &[u8], cols: usize) -> (r: Result<String, InputFault>)
    requires
        cols <= usize::MAX / 3,
    ensures
        cols == 0 ==> r == Err::<String, InputFault>(InputFault::NoColumns),
        cols > 0 ==> r is Ok && r->Ok_0@ == hex_rows(data@, cols as int, 0),
{
    if cols == 0 {
        return Err(InputFault::NoColumns);
    }
    let n: usize = data.len();
    let mut out = String::new();
    let mut offset: usize = 0;
    assert(out@ + hex_rows(data@, cols as int, 0) =~= hex_rows(data@, cols as int, 0));
    while offset < n
        invariant
            offset <= n,
            n == data@.len(),
            0 < cols <= usize::MAX / 3,
            hex_rows(data@, cols as int, 0) == out@ + hex_rows(
                data@,
                cols as int,
                offset as int,
            ),
        decreases n - offset,
    {
        let end: usize = if cols < n - offset {
            offset + cols
        } else {
            n
        };
        let ghost had = out@;
        let ghost row = hex_row(
            offset as int,
            data@.subrange(offset as int, end as int),
            cols as int,
        );
        push_hex_row(&mut out, data, offset, end, cols);
        proof {
            let rest = hex_rows(data@, cols as int, end as int);
            assert(had + (row + rest) =~= out@ + rest);
        }
        offset = end;
    }
    assert(out@ + Seq::<char>::empty() =~= out@);
    Ok(out)
}

} // verus!
