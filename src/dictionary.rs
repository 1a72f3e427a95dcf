//! Lines of a resource-path dictionary: a path, a comma, and the decimal FNV-1a/64 hash of the
//! path.
use vstd::prelude::*;

use crate::io::{lossy_text_of, text_from_bytes};

verus! {

/// The first position at or after `i` where `b` holds `x`, or `b.len()` when there is none.
pub open spec fn byte_index_from(b: Seq<u8>, x: u8, i: int) -> int
    decreases b.len() - i,
{
    if i < 0 || i >= b.len() {
        b.len() as int
    } else if b[i] == x {
        i
    } else {
        byte_index_from(b, x, i + 1)
    }
}

/// Whether every byte of `s` is an ASCII digit.
pub open spec fn all_digits(s: Seq<u8>) -> bool {
    forall|i: int| 0 <= i < s.len() ==> 48 <= #[trigger] s[i] <= 57
}

/// The value of the decimal digits `s`.
pub open spec fn decimal_value(s: Seq<u8>) -> nat
    decreases s.len(),
{
    if s.len() == 0 {
        0
    } else {
        decimal_value(s.drop_last()) * 10 + (s.last() - 48) as nat
    }
}

/// What a dictionary line holds: the path before the first comma, and the hash written in
/// decimal between that comma and the next one (or the end); `None` when there is no comma,
/// or the hash field is empty, holds a byte that is not a digit, or exceeds 64 bits.
pub open spec fn line_entry(line: Seq<u8>) -> Option<(u64, Seq<char>)> {
    let c = byte_index_from(line, 44, 0);
    let e = byte_index_from(line, 44, c + 1);
    let field = line.subrange(c + 1, e);
    if c >= line.len() || field.len() == 0 || !all_digits(field) || decimal_value(field)
        > u64::MAX {
        None
    } else {
        Some((decimal_value(field) as u64, lossy_text_of(line.subrange(0, c))))
    }
}

proof fn lemma_index_bounds(b: Seq<u8>, x: u8, i: int)
    requires
        0 <= i <= b.len(),
    ensures
        i <= byte_index_from(b, x, i) <= b.len(),
        byte_index_from(b, x, i) < b.len() ==> b[byte_index_from(b, x, i)] == x,
    decreases b.len() - i,
{
    if i < b.len() && b[i] != x {
        lemma_index_bounds(b, x, i + 1);
    }
}

proof fn lemma_decimal_grows(s: Seq<u8>, k: int)
    requires
        0 <= k <= s.len(),
        all_digits(s),
    ensures
        decimal_value(s.take(k)) <= decimal_value(s),
    decreases s.len() - k,
{
    if k < s.len() {
        lemma_decimal_grows(s, k + 1);
        assert(s.take(k + 1).drop_last() =~= s.take(k));
        assert(decimal_value(s.take(k)) <= decimal_value(s.take(k)) * 10);
    } else {
        assert(s.take(k) =~= s);
    }
}

/// The first position at or after `i` where `b` holds `x`, or `b.len()`.
fn find_byte(b: &[u8], x: u8, i: usize) -> (r: usize)
    requires
        i <= b@.len(),
    ensures
        r == byte_index_from(b@, x, i as int),
{
    let mut j = i;
    while j < b.len() && b[j] != x
        invariant
            i <= j <= b@.len(),
            byte_index_from(b@, x, i as int) == byte_index_from(b@, x, j as int),
        decreases b@.len() - j,
    {
        j = j + 1;
    }
    j
}

/// Parses one dictionary line into a hash and a path.
pub fn parse_hash_line(line: &[u8]) -> (r: Option<(u64, String)>)
    ensures
        match line_entry(line@) {
            Some((h, p)) => r matches Some((h2, p2)) && h2 == h && p2@ == p,
            None => r is None,
        },
{
    let c = find_byte(line, 44, 0);
    if c >= line.len() {
        return None;
    }
    let e = find_byte(line, 44, c + 1);
    proof {
        lemma_index_bounds(line@, 44, c + 1);
    }
    let ghost field = line@.subrange(c + 1, e as int);
    if e == c + 1 {
        return None;
    }
    let mut v: u64 = 0;
    let mut j: usize = c + 1;
    while j < e
        invariant
            c + 1 <= j <= e <= line@.len(),
            c < line@.len(),
            c == byte_index_from(line@, 44, 0),
            e == byte_index_from(line@, 44, c + 1),
            field == line@.subrange(c + 1, e as int),
            all_digits(field.take(j - c - 1)),
            v == decimal_value(field.take(j - c - 1)),
        decreases e - j,
    {
        let d = line[j];
        assert(field.take(j - c) =~= field.take(j - c - 1).push(d));
        assert(field[j - c - 1] == d);
        assert(field.take(j - c).drop_last() =~= field.take(j - c - 1));
        assert(field.take(j - c).last() == d);
        if d < 48 || d > 57 {
            assert(!(48 <= field[j - c - 1] <= 57));
            assert(!all_digits(field));
            return None;
        }
        assert(all_digits(field.take(j - c)));
        if v > (u64::MAX - (d - 48) as u64) / 10 {
            proof {
                assert(decimal_value(field.take(j - c)) == v * 10 + (d - 48) as nat);
                assert(v * 10 + (d - 48) > u64::MAX) by (nonlinear_arith)
                    requires
                        v > (u64::MAX - (d - 48) as u64) / 10,
                        48 <= d <= 57,
                ;
                if all_digits(field) {
                    lemma_decimal_grows(field, j - c);
                }
            }
            return None;
        }
        v = v * 10 + (d - 48) as u64;
        j = j + 1;
    }
    assert(field.take(j - c - 1) =~= field);
    let mut head: Vec<u8> = Vec::new();
    let mut k: usize = 0;
    while k < c
        invariant
            k <= c < line@.len(),
            head@ == line@.subrange(0, k as int),
        decreases c - k,
    {
        head.push(line[k]);
        assert(head@ =~= line@.subrange(0, k + 1));
        k = k + 1;
    }
    let name = text_from_bytes(head.as_slice());
    Some((v, name))
}

} // verus!
