//! What numbers, tables and answers promise.
use crate::interface::number::{
    digits_value, hex_pairs, hex_row, hex_rows, is_space, is_yes, shown, trimmed, trimmed_end,
    trimmed_start, typed_number, InputFault,
};
use crate::report_laws::says;
use crate::text::{digit, digits, hex8, left_aligned, repeated, right_aligned};
use vstd::prelude::*;

verus! {

/// The digits of a number stand for it, and are digits.
proof fn lemma_digits(n: nat, base: nat)
    requires
        2 <= base <= 16,
    ensures
        digits_value(digits(n, base), base) == Some(n),
        digits(n, base).len() > 0,
        !is_space(digits(n, base)[0]),
        !is_space(digits(n, base).last()),
        digits(n, base)[0] != '+',
        base == 10 && digits(n, base).len() > 1 ==> digits(n, base)[1] != 'x' && digits(
            n,
            base,
        )[1] != 'X',
    decreases n,
{
    if n < base {
        let s = digits(n, base);
        assert(s.drop_last() =~= Seq::<char>::empty());
        assert(digits_value(s.drop_last(), base) == Some(0nat));
        assert(0nat * base == 0) by (nonlinear_arith);
    } else {
        let q = n / base;
        let r = n % base;
        assert(q < n && q * base + r == n && r < base) by (nonlinear_arith)
            requires
                q == n / base,
                r == n % base,
                n >= base,
                base >= 2,
        ;
        lemma_digits(q, base);
        let s = digits(n, base);
        assert(s.drop_last() =~= digits(q, base));
        assert(s.last() == digit(r));
        if s.len() > 2 {
            assert(s[1] == digits(q, base)[1]);
        }
    }
}

/// Text without white space at its ends is left as it is.
proof fn lemma_trimmed(s: Seq<char>)
    requires
        s.len() > 0,
        !is_space(s[0]),
        !is_space(s.last()),
    ensures
        trimmed(s) == s,
{
}

/// A number that is typed in decimal digits, or behind `0x` in hexadecimal ones, is that number.
pub proof fn typed_digits_are_the_number(n: u64)
    ensures
        typed_number(digits(n as nat, 10)) == Ok::<u64, InputFault>(n),
        typed_number(seq!['0', 'x'] + digits(n as nat, 16)) == Ok::<u64, InputFault>(n),
        typed_number(seq!['0', 'X'] + digits(n as nat, 16)) == Ok::<u64, InputFault>(n),
        typed_number(seq!['+'] + digits(n as nat, 10)) == Ok::<u64, InputFault>(n),
{
    let d = digits(n as nat, 10);
    let h = digits(n as nat, 16);
    lemma_digits(n as nat, 10);
    lemma_digits(n as nat, 16);
    lemma_trimmed(d);
    let p = seq!['+'] + d;
    lemma_trimmed(p);
    assert(p.drop_first() =~= d);
    let a = seq!['0', 'x'] + h;
    let b = seq!['0', 'X'] + h;
    lemma_trimmed(a);
    lemma_trimmed(b);
    assert(a.subrange(2, a.len() as int) =~= h);
    assert(b.subrange(2, b.len() as int) =~= h);
}

/// Different numbers have different digits.
pub proof fn digits_tell_numbers_apart(a: nat, b: nat, base: nat)
    requires
        2 <= base <= 16,
        digits(a, base) == digits(b, base),
    ensures
        a == b,
{
    lemma_digits(a, base);
    lemma_digits(b, base);
}

/// White space in front of a text and behind it does not count.
pub proof fn space_around_does_not_count(s: Seq<char>, c: char)
    requires
        is_space(c),
    ensures
        trimmed(seq![c] + s) == trimmed(s),
        trimmed(s.push(c)) == trimmed(s),
        typed_number(seq![c] + s) == typed_number(s),
        typed_number(s.push(c)) == typed_number(s),
        is_yes(seq![c] + s) == is_yes(s),
        is_yes(s.push(c)) == is_yes(s),
{
    let a = seq![c] + s;
    assert(a.drop_first() =~= s);
    lemma_space_behind(s, c);
}

proof fn lemma_space_behind(s: Seq<char>, c: char)
    requires
        is_space(c),
    ensures
        trimmed(s.push(c)) == trimmed(s),
    decreases s.len(),
{
    let t = s.push(c);
    if s.len() == 0 {
        assert(t.drop_first() =~= s);
        assert(trimmed_start(s) == s);
        assert(trimmed_end(s) == s);
    } else if is_space(s[0]) {
        assert(t.drop_first() =~= s.drop_first().push(c));
        lemma_space_behind(s.drop_first(), c);
    } else {
        assert(t.drop_last() =~= s);
        assert(trimmed_start(t) == t);
        assert(trimmed_start(s) == s);
    }
}

/// What is no number is refused: nothing at all, a mere sign, and what is too large.
pub proof fn what_is_no_number_is_refused(n: nat)
    ensures
        typed_number(Seq::empty()) is Err,
        typed_number(seq!['+']) is Err,
        typed_number(seq!['0', 'x']) is Err,
        n > u64::MAX ==> typed_number(digits(n, 10)) is Err,
{
    let e = Seq::<char>::empty();
    assert(trimmed_start(e) == e && trimmed_end(e) == e);
    let p = seq!['+'];
    lemma_trimmed(p);
    assert(p.drop_first() =~= e);
    let x = seq!['0', 'x'];
    lemma_trimmed(x);
    assert(x.subrange(2, 2) =~= e);
    lemma_digits(n, 10);
    lemma_trimmed(digits(n, 10));
}

/// The small letter for a capital one.
pub open spec fn small(c: char) -> char {
    if 'A' <= c <= 'Z' {
        (c as int + 32) as char
    } else {
        c
    }
}

/// Only `y` and `yes`, in letters of any size, are agreement.
pub proof fn only_yes_is_agreement(s: Seq<char>)
    ensures
        is_yes(s) <==> trimmed(s).map_values(|c: char| small(c)) == seq!['y'] || trimmed(
            s,
        ).map_values(|c: char| small(c)) == seq!['y', 'e', 's'],
{
    let t = trimmed(s);
    let l = t.map_values(|c: char| small(c));
    assert(l.len() == t.len());
    if is_yes(s) {
        if t.len() == 1 {
            assert(l =~= seq!['y']);
        } else {
            assert(l =~= seq!['y', 'e', 's']);
        }
    }
    if l == seq!['y'] {
        assert(l[0] == 'y');
        assert(small(t[0]) == 'y');
    }
    if l == seq!['y', 'e', 's'] {
        assert(l[0] == 'y' && l[1] == 'e' && l[2] == 's');
        assert(small(t[0]) == 'y' && small(t[1]) == 'e' && small(t[2]) == 's');
    }
}

/// Text that is filled up keeps its characters, at the end or at the start, and gets the width.
pub proof fn filling_keeps_the_text(s: Seq<char>, width: nat, fill: char)
    ensures
        ({
            let r = right_aligned(s, width, fill);
            let l = left_aligned(s, width, fill);
            &&& r.len() == (if s.len() < width { width } else { s.len() })
            &&& l.len() == r.len()
            &&& r.subrange(r.len() - s.len(), r.len() as int) == s
            &&& l.subrange(0, s.len() as int) == s
            &&& forall|i: int| 0 <= i < r.len() - s.len() ==> #[trigger] r[i] == fill
            &&& forall|i: int| s.len() <= i < l.len() ==> #[trigger] l[i] == fill
        }),
{
    let r = right_aligned(s, width, fill);
    let l = left_aligned(s, width, fill);
    assert(r.subrange(r.len() - s.len(), r.len() as int) =~= s);
    assert(l.subrange(0, s.len() as int) =~= s);
}

/// Leading zeros do not change the value of digits.
proof fn lemma_zeros(k: nat, s: Seq<char>, base: nat)
    requires
        2 <= base <= 16,
    ensures
        digits_value(repeated('0', k) + s, base) == digits_value(s, base),
    decreases k + s.len(),
{
    let t = repeated('0', k) + s;
    if s.len() > 0 {
        assert(t.drop_last() =~= repeated('0', k) + s.drop_last());
        assert(t.last() == s.last());
        lemma_zeros(k, s.drop_last(), base);
    } else if k > 0 {
        assert(t.drop_last() =~= repeated('0', (k - 1) as nat) + s);
        assert(t.last() == '0');
        lemma_zeros((k - 1) as nat, s, base);
        assert(0nat * base + 0 == 0) by (nonlinear_arith);
    } else {
        assert(t =~= s);
    }
}

/// An address is shown as its hexadecimal digits, at least eight of them.
pub proof fn shown_address_is_the_address(n: nat)
    ensures
        hex8(n).len() >= 8,
        digits_value(hex8(n), 16) == Some(n),
{
    let d = digits(n, 16);
    lemma_digits(n, 16);
    if d.len() < 8 {
        lemma_zeros((8 - d.len()) as nat, d, 16);
    }
}

/// Below a power of the base there are no more digits than its exponent.
proof fn lemma_two_digits(n: nat)
    requires
        n < 256,
    ensures
        digits(n, 16).len() <= 2,
{
    if n >= 16 {
        assert(n / 16 < 16);
        assert(digits(n / 16, 16).len() == 1);
    }
}

/// Each byte of a table is spelled by two hexadecimal digits with a space behind them.
pub proof fn pairs_spell_the_bytes(data: Seq<u8>, i: int)
    requires
        0 <= i < data.len(),
    ensures
        hex_pairs(data).len() == 3 * data.len(),
        digits_value(hex_pairs(data).subrange(3 * i, 3 * i + 2), 16) == Some(data[i] as nat),
        hex_pairs(data)[3 * i + 2] == ' ',
    decreases data.len(),
{
    reveal_strlit(" ");
    let d = data.drop_last();
    let b = data.last() as nat;
    let pair = right_aligned(digits(b, 16), 2, '0');
    lemma_digits(b, 16);
    lemma_two_digits(b);
    if digits(b, 16).len() < 2 {
        lemma_zeros((2 - digits(b, 16).len()) as nat, digits(b, 16), 16);
    }
    assert(pair.len() == 2);
    let before = hex_pairs(d);
    let all = hex_pairs(data);
    if d.len() > 0 {
        pairs_spell_the_bytes(
            d,
            if i < d.len() {
                i
            } else {
                0
            },
        );
    }
    assert(before.len() == 3 * d.len());
    assert(all =~= before + pair + " "@);
    if i < d.len() {
        assert(all.subrange(3 * i, 3 * i + 2) =~= before.subrange(3 * i, 3 * i + 2));
        assert(all[3 * i + 2] == before[3 * i + 2]);
    } else {
        assert(all.subrange(3 * i, 3 * i + 2) =~= pair);
    }
}

/// Printable characters are shown as they are, all others as dots.
pub proof fn characters_are_shown(data: Seq<u8>, i: int)
    requires
        0 <= i < data.len(),
    ensures
        shown(data).len() == data.len(),
        0x20 <= data[i] <= 0x7e ==> shown(data)[i] as int == data[i],
        !(0x20 <= data[i] <= 0x7e) ==> shown(data)[i] == '.',
{
}

/// In a table the characters stand below one another, also in a row that is not full.
pub proof fn rows_are_aligned(offset: int, row: Seq<u8>, cols: int)
    requires
        0 < row.len() <= cols,
        0 <= offset,
    ensures
        ({
            let r = hex_row(offset, row, cols);
            let at = hex8(offset as nat).len() + 2 + 3 * cols + 2;
            &&& r.len() == at + row.len() + 1
            &&& r.subrange(at as int, at + row.len()) == shown(row)
            &&& r.subrange(0, hex8(offset as nat).len() as int) == hex8(offset as nat)
            &&& r.last() == '\n'
        }),
{
    reveal_strlit(": ");
    reveal_strlit("| ");
    reveal_strlit("\n");
    pairs_spell_the_bytes(row, 0);
    let r = hex_row(offset, row, cols);
    let at = hex8(offset as nat).len() + 2 + 3 * cols + 2;
    assert(r.subrange(at as int, at + row.len()) =~= shown(row));
    assert(r.subrange(0, hex8(offset as nat).len() as int) =~= hex8(offset as nat));
}

/// A table holds a row for every stretch of as many bytes as it has columns, with the place of the
/// stretch and its bytes.
pub proof fn table_has_every_row(data: Seq<u8>, cols: int, from: int, at: int)
    requires
        cols > 0,
        0 <= from <= at < data.len(),
        (at - from) % cols == 0,
    ensures
        says(
            hex_rows(data, cols, from),
            hex_row(
                at,
                data.subrange(
                    at,
                    if at + cols < data.len() {
                        at + cols
                    } else {
                        data.len() as int
                    },
                ),
                cols,
            ),
        ),
    decreases at - from,
{
    let all = hex_rows(data, cols, from);
    let end = if from + cols < data.len() {
        from + cols
    } else {
        data.len() as int
    };
    let row = hex_row(from, data.subrange(from, end), cols);
    let rest = hex_rows(data, cols, end);
    assert(all == row + rest);
    if at == from {
        let zero: int = 0;
        assert(all.subrange(zero, zero + row.len()) =~= row);
    } else {
        assert(at - from >= cols && (at - (from + cols)) % cols == 0) by (nonlinear_arith)
            requires
                (at - from) % cols == 0,
                at > from,
                cols > 0,
        ;
        table_has_every_row(data, cols, from + cols, at);
        let last = if at + cols < data.len() {
            at + cols
        } else {
            data.len() as int
        };
        let p = hex_row(at, data.subrange(at, last), cols);
        let i = choose|i: int|
            0 <= i && i + p.len() <= rest.len() && #[trigger] rest.subrange(i, i + p.len()) == p;
        let j = row.len() + i;
        assert(all.subrange(j, j + p.len()) =~= rest.subrange(i, i + p.len()));
    }
}

} // verus!
