//! Small verified helpers on byte vectors: equality, ASCII case folding,
//! decimal rendering/parsing, and CRLF scanning used by the wire codec.

use vstd::prelude::*;

verus! {

pub const CR: u8 = 13;
pub const LF: u8 = 10;

/// The UTF-8 bytes of a string slice (for the ASCII literals used by the
/// protocol, one byte per character).
pub open spec fn str_bytes(s: &str) -> Seq<u8> {
    vstd::utf8::encode_utf8(s@)
}

/// The bytes of a string slice as a fresh vector.
pub fn lit_vec(s: &str) -> (r: Vec<u8>)
    ensures
        r@ == str_bytes(s),
{
    vstd::slice::slice_to_vec(s.as_bytes())
}

/// Byte-for-byte equality of two byte vectors.
pub fn bytes_eq(a: &Vec<u8>, b: &Vec<u8>) -> (r: bool)
    ensures
        r == (a@ == b@),
{
    if a.len() != b.len() {
        assert(a@ != b@);
        return false;
    }
    let mut i: usize = 0;
    while i < a.len()
        invariant
            0 <= i <= a.len(),
            a.len() == b.len(),
            forall|j: int| 0 <= j < i ==> a@[j] == b@[j],
        decreases a.len() - i,
    {
        if a[i] != b[i] {
            assert(a@ != b@);
            return false;
        }
        i += 1;
    }
    assert(a@ =~= b@);
    true
}

/// Copy of `buf[start..end]` as a fresh vector.
pub fn copy_range(buf: &Vec<u8>, start: usize, end: usize) -> (r: Vec<u8>)
    requires
        start <= end <= buf.len(),
    ensures
        r@ == buf@.subrange(start as int, end as int),
{
    let mut out: Vec<u8> = Vec::new();
    let mut i: usize = start;
    while i < end
        invariant
            start <= i <= end <= buf.len(),
            out@ =~= buf@.subrange(start as int, i as int),
        decreases end - i,
    {
        out.push(buf[i]);
        i += 1;
        assert(out@ =~= buf@.subrange(start as int, i as int));
    }
    out
}

/// A fresh copy of a byte vector.
pub fn clone_vec(v: &Vec<u8>) -> (r: Vec<u8>)
    ensures
        r@ == v@,
{
    let r = copy_range(v, 0, v.len());
    assert(r@ =~= v@);
    r
}

/// An ASCII uppercase letter mapped to lowercase; anything else unchanged.
pub open spec fn fold_byte(b: u8) -> u8 {
    if 65 <= b && b <= 90 {
        (b + 32) as u8
    } else {
        b
    }
}

/// Case-folded image of a byte sequence.
pub open spec fn fold_bytes(s: Seq<u8>) -> Seq<u8> {
    s.map_values(|b: u8| fold_byte(b))
}

/// ASCII case-insensitive equality of two byte vectors.
pub fn eq_ignore_case(a: &Vec<u8>, b: &Vec<u8>) -> (r: bool)
    ensures
        r == (fold_bytes(a@) == fold_bytes(b@)),
{
    if a.len() != b.len() {
        assert(fold_bytes(a@).len() != fold_bytes(b@).len());
        return false;
    }
    let mut i: usize = 0;
    while i < a.len()
        invariant
            0 <= i <= a.len(),
            a.len() == b.len(),
            forall|j: int| 0 <= j < i ==> fold_byte(a@[j]) == fold_byte(b@[j]),
        decreases a.len() - i,
    {
        let x = a[i];
        let y = b[i];
        let fx = if 65 <= x && x <= 90 { x + 32 } else { x };
        let fy = if 65 <= y && y <= 90 { y + 32 } else { y };
        if fx != fy {
            assert(fold_bytes(a@)[i as int] != fold_bytes(b@)[i as int]);
            return false;
        }
        i += 1;
    }
    assert(fold_bytes(a@) =~= fold_bytes(b@));
    true
}

/// An ASCII decimal digit.
pub open spec fn is_digit(b: u8) -> bool {
    48 <= b && b <= 57
}

/// Every byte of the sequence is a decimal digit.
pub open spec fn all_digits(s: Seq<u8>) -> bool {
    forall|i: int| 0 <= i < s.len() ==> is_digit(#[trigger] s[i])
}

/// Value of a digit sequence read as a decimal number.
pub open spec fn dec_val(s: Seq<u8>) -> int
    decreases s.len(),
{
    if s.len() == 0 {
        0
    } else {
        dec_val(s.drop_last()) * 10 + (s.last() - 48)
    }
}

/// Decimal rendering of a natural number, most significant digit first,
/// without leading zeros (a single `0` for zero).
pub open spec fn dec_of(n: nat) -> Seq<u8>
    decreases n,
{
    if n < 10 {
        seq![(48 + n) as u8]
    } else {
        dec_of(n / 10).push((48 + n % 10) as u8)
    }
}

/// The decimal rendering is a non-empty digit run that reads back as `n`.
pub proof fn lemma_dec_of(n: nat)
    ensures
        all_digits(dec_of(n)),
        dec_val(dec_of(n)) == n,
        dec_of(n).len() >= 1,
    decreases n,
{
    if n < 10 {
        let s = dec_of(n);
        assert(s =~= seq![(48 + n) as u8]);
        assert(s.drop_last() =~= Seq::<u8>::empty());
        assert(dec_val(s) == dec_val(s.drop_last()) * 10 + (s.last() - 48));
    } else {
        lemma_dec_of(n / 10);
        let s = dec_of(n);
        assert(s == dec_of(n / 10).push((48 + n % 10) as u8));
        assert(s.drop_last() =~= dec_of(n / 10));
        assert(s.last() == (48 + n % 10) as u8);
        assert(dec_val(s) == (n / 10) * 10 + n % 10);
        assert((n / 10) * 10 + n % 10 == n) by (nonlinear_arith);
        assert forall|i: int| 0 <= i < s.len() implies is_digit(s[i]) by {
            if i < s.len() - 1 {
                assert(s[i] == dec_of(n / 10)[i]);
            } else {
                assert(s[i] == (48 + n % 10) as u8);
            }
        }
    }
}

/// Appends the decimal rendering of `n` to `out`.
pub fn push_dec(out: &mut Vec<u8>, n: u64)
    ensures
        final(out)@ == old(out)@ + dec_of(n as nat),
    decreases n,
{
    if n < 10 {
        out.push((48 + n) as u8);
    } else {
        push_dec(out, n / 10);
        out.push((48 + n % 10) as u8);
        assert(out@ =~= old(out)@ + dec_of(n as nat));
    }
}

/// The decimal rendering of `n` as a fresh vector.
pub fn render_dec(n: u64) -> (r: Vec<u8>)
    ensures
        r@ == dec_of(n as nat),
{
    let mut out: Vec<u8> = Vec::new();
    push_dec(&mut out, n);
    out
}

/// Extending a digit sequence can only increase its decimal value.
proof fn lemma_dec_val_prefix(s: Seq<u8>, j: int)
    requires
        all_digits(s),
        0 <= j <= s.len(),
    ensures
        dec_val(s) >= dec_val(s.take(j)) >= 0,
    decreases s.len() - j,
{
    if j == s.len() {
        assert(s.take(j) =~= s);
        lemma_dec_val_nonneg(s);
    } else {
        lemma_dec_val_prefix(s, j + 1);
        assert(s.take(j + 1).drop_last() =~= s.take(j));
        assert(s.take(j + 1).last() == s[j]);
        lemma_dec_val_nonneg(s.take(j));
    }
}

proof fn lemma_dec_val_nonneg(s: Seq<u8>)
    requires
        all_digits(s),
    ensures
        dec_val(s) >= 0,
    decreases s.len(),
{
    if s.len() > 0 {
        assert(all_digits(s.drop_last()));
        lemma_dec_val_nonneg(s.drop_last());
    }
}

/// Parses `buf[start..end]` as a decimal number. Returns the value exactly
/// when the range is a non-empty run of digits whose value fits in `u64`.
pub fn parse_dec(buf: &Vec<u8>, start: usize, end: usize) -> (r: Option<u64>)
    requires
        start <= end <= buf.len(),
    ensures
        ({
            let s = buf@.subrange(start as int, end as int);
            match r {
                Some(v) => start < end && all_digits(s) && v == dec_val(s),
                None => !(start < end && all_digits(s) && dec_val(s) <= u64::MAX),
            }
        }),
{
    let ghost s = buf@.subrange(start as int, end as int);
    if start == end {
        return None;
    }
    let mut acc: u64 = 0;
    let mut i: usize = start;
    while i < end
        invariant
            start <= i <= end <= buf.len(),
            s == buf@.subrange(start as int, end as int),
            all_digits(s.take(i - start)),
            acc == dec_val(s.take(i - start)),
        decreases end - i,
    {
        let b = buf[i];
        if b < 48 || b > 57 {
            assert(s[i - start] == b);
            return None;
        }
        let d = b - 48;
        if acc > (u64::MAX - d as u64) / 10 {
            // The value no longer fits: the full run can only be larger.
            proof {
                assert(s.take(i - start + 1).drop_last() =~= s.take(i - start));
                assert(s.take(i - start + 1).last() == s[i - start]);
                assert(acc * 10 + d > u64::MAX) by (nonlinear_arith)
                    requires
                        acc > (u64::MAX - d as u64) / 10,
                        0 <= d <= 9,
                {}
                assert(dec_val(s.take(i - start + 1)) == acc * 10 + d);
                if all_digits(s) {
                    lemma_dec_val_prefix(s, i - start + 1);
                }
            }
            return None;
        }
        proof {
            assert(acc * 10 + d <= u64::MAX) by (nonlinear_arith)
                requires
                    acc <= (u64::MAX - d as u64) / 10,
                    0 <= d <= 9,
            {}
            assert(s.take(i - start + 1).drop_last() =~= s.take(i - start));
            assert(s.take(i - start + 1).last() == s[i - start]);
            assert(s[i - start] == b);
        }
        acc = acc * 10 + d as u64;
        i += 1;
    }
    proof {
        assert(s.take(end - start) =~= s);
    }
    Some(acc)
}

/// Position of the first CRLF pair at or after `from`, if any.
pub open spec fn spec_find_crlf(s: Seq<u8>, from: nat) -> Option<nat>
    decreases s.len() - from,
{
    if from + 2 > s.len() {
        None
    } else if s[from as int] == CR && s[from as int + 1] == LF {
        Some(from)
    } else {
        spec_find_crlf(s, from + 1)
    }
}

/// Scans forward for the first CRLF pair at or after `from`.
pub fn find_crlf(buf: &Vec<u8>, from: usize) -> (r: Option<usize>)
    requires
        from <= buf.len(),
    ensures
        match r {
            Some(i) => spec_find_crlf(buf@, from as nat) == Some(i as nat),
            None => spec_find_crlf(buf@, from as nat) is None,
        },
{
    let mut i: usize = from;
    while buf.len() >= 2 && i <= buf.len() - 2
        invariant
            from <= i <= buf.len(),
            spec_find_crlf(buf@, from as nat) == spec_find_crlf(buf@, i as nat),
        decreases buf.len() - i,
    {
        if buf[i] == CR && buf[i + 1] == LF {
            return Some(i);
        }
        i += 1;
    }
    None
}

} // verus!
