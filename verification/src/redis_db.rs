//! The binary snapshot reader: decodes a dump file image into a keyspace.
//!
//! The file is a 5-byte magic `REDIS` and a 4-byte version, then a stream
//! of opcode-tagged sections ending at an EOF opcode. Lengths use a
//! variable-width encoding picked by the top two bits of the first byte;
//! strings are length-prefixed bytes or a special integer form rendered in
//! decimal. Entries live inside a SelectDB section, each optionally
//! preceded by an expiry opcode; only string-typed values are supported.
//! Entries whose expiry lies in the past are omitted from the result.

use vstd::prelude::*;

use vstd::utf8::valid_utf8;

use crate::bytes::{copy_range, dec_of, render_dec};
use crate::store::{spec_set_exps, spec_set_vals, Keyspace};

verus! {

pub const OP_EOF: u8 = 0xFF;
pub const OP_SELECT_DB: u8 = 0xFE;
pub const OP_EXPIRE_TIME: u8 = 0xFD;
pub const OP_EXPIRE_TIME_MS: u8 = 0xFC;
pub const OP_RESIZE_DB: u8 = 0xFB;
pub const OP_AUX: u8 = 0xFA;

/// Why a snapshot image was rejected.
#[derive(Clone, Copy, PartialEq, Eq, Structural, Debug)]
pub enum RdbError {
    /// The image does not begin with the 5-byte magic.
    BadMagic,
    /// The image ended where more bytes were required.
    Truncated,
    /// A byte in opcode position names no known opcode.
    BadOpcode,
    /// A known opcode stands where it is not allowed.
    UnexpectedOpcode,
    /// A length encoding names a compressed form, which is not supported.
    UnsupportedEncoding,
    /// A value type other than a plain string.
    UnsupportedValueType,
    /// A length-prefixed string whose bytes are not valid UTF-8.
    InvalidUtf8,
}

/// The section opcodes.
pub enum RDBOpCodes {
    Eof,
    SelectDB,
    ExpireTime,
    ExpireTimeMs,
    ResizeDB,
    Aux,
}

/// The opcode a byte names, if any.
pub open spec fn spec_opcode(value: u8) -> Option<RDBOpCodes> {
    if value == OP_EOF {
        Some(RDBOpCodes::Eof)
    } else if value == OP_SELECT_DB {
        Some(RDBOpCodes::SelectDB)
    } else if value == OP_EXPIRE_TIME {
        Some(RDBOpCodes::ExpireTime)
    } else if value == OP_EXPIRE_TIME_MS {
        Some(RDBOpCodes::ExpireTimeMs)
    } else if value == OP_RESIZE_DB {
        Some(RDBOpCodes::ResizeDB)
    } else if value == OP_AUX {
        Some(RDBOpCodes::Aux)
    } else {
        None
    }
}

/// Whether a byte names any section-starting opcode.
pub open spec fn is_section_byte(b: u8) -> bool {
    b == OP_EOF || b == OP_SELECT_DB || b == OP_RESIZE_DB || b == OP_AUX
}

impl RDBOpCodes {
    /// Decodes an opcode byte.
    pub fn from_u8(value: u8) -> (r: Option<RDBOpCodes>)
        ensures
            match r {
                Some(op) => spec_opcode(value) == Some(op),
                None => spec_opcode(value) is None,
            },
    {
        if value == OP_EOF {
            Some(RDBOpCodes::Eof)
        } else if value == OP_SELECT_DB {
            Some(RDBOpCodes::SelectDB)
        } else if value == OP_EXPIRE_TIME {
            Some(RDBOpCodes::ExpireTime)
        } else if value == OP_EXPIRE_TIME_MS {
            Some(RDBOpCodes::ExpireTimeMs)
        } else if value == OP_RESIZE_DB {
            Some(RDBOpCodes::ResizeDB)
        } else if value == OP_AUX {
            Some(RDBOpCodes::Aux)
        } else {
            None
        }
    }

    /// The byte an opcode is written as; decoding it gives the opcode back.
    pub fn to_u8(&self) -> (r: u8)
        ensures
            spec_opcode(r) == Some(*self),
    {
        match self {
            RDBOpCodes::Eof => OP_EOF,
            RDBOpCodes::SelectDB => OP_SELECT_DB,
            RDBOpCodes::ExpireTime => OP_EXPIRE_TIME,
            RDBOpCodes::ExpireTimeMs => OP_EXPIRE_TIME_MS,
            RDBOpCodes::ResizeDB => OP_RESIZE_DB,
            RDBOpCodes::Aux => OP_AUX,
        }
    }
}

/// Big-endian value of a byte run.
pub open spec fn be_val(s: Seq<u8>) -> int
    decreases s.len(),
{
    if s.len() == 0 {
        0
    } else {
        be_val(s.drop_last()) * 256 + s.last()
    }
}

/// Little-endian value of a byte run.
pub open spec fn le_val(s: Seq<u8>) -> int
    decreases s.len(),
{
    if s.len() == 0 {
        0
    } else {
        s[0] + le_val(s.drop_first()) * 256
    }
}

pub open spec fn pow256(n: nat) -> int
    decreases n,
{
    if n == 0 {
        1
    } else {
        256 * pow256((n - 1) as nat)
    }
}

proof fn lemma_pow256_vals()
    ensures
        pow256(0) == 1,
        pow256(1) == 0x100,
        pow256(2) == 0x10000,
        pow256(3) == 0x1000000,
        pow256(4) == 0x100000000,
        pow256(5) == 0x10000000000,
        pow256(6) == 0x1000000000000,
        pow256(7) == 0x100000000000000,
        pow256(8) == 0x10000000000000000,
{
    assert(pow256(0) == 1);
    assert(pow256(1) == 0x100);
    assert(pow256(2) == 0x10000);
    assert(pow256(3) == 0x1000000);
    assert(pow256(4) == 0x100000000);
    assert(pow256(5) == 0x10000000000);
    assert(pow256(6) == 0x1000000000000);
    assert(pow256(7) == 0x100000000000000);
    assert(pow256(8) == 0x10000000000000000);
}

proof fn lemma_be_val_bound(s: Seq<u8>)
    ensures
        0 <= be_val(s) < pow256(s.len()),
    decreases s.len(),
{
    if s.len() > 0 {
        lemma_be_val_bound(s.drop_last());
        assert(be_val(s.drop_last()) * 256 <= (pow256((s.len() - 1) as nat) - 1) * 256)
            by (nonlinear_arith)
            requires
                be_val(s.drop_last()) <= pow256((s.len() - 1) as nat) - 1,
        {}
    }
}

proof fn lemma_le_val_bound(s: Seq<u8>)
    ensures
        0 <= le_val(s) < pow256(s.len()),
    decreases s.len(),
{
    if s.len() > 0 {
        lemma_le_val_bound(s.drop_first());
        assert(le_val(s.drop_first()) * 256 <= (pow256((s.len() - 1) as nat) - 1) * 256)
            by (nonlinear_arith)
            requires
                le_val(s.drop_first()) <= pow256((s.len() - 1) as nat) - 1,
        {}
    }
}

/// Reads `n` big-endian bytes at `pos`.
fn read_be(buf: &Vec<u8>, pos: usize, n: usize) -> (r: u64)
    requires
        pos + n <= buf.len(),
        n <= 4,
    ensures
        r == be_val(buf@.subrange(pos as int, pos + n)),
{
    proof {
        lemma_pow256_vals();
    }
    let mut r: u64 = 0;
    let mut i: usize = 0;
    assert(buf@.subrange(pos as int, pos as int) =~= Seq::<u8>::empty());
    while i < n
        invariant
            0 <= i <= n,
            n <= 4,
            pos + n <= buf.len(),
            r == be_val(buf@.subrange(pos as int, pos + i)),
            r < pow256(i as nat),
            pow256(4) == 0x100000000,
        decreases n - i,
    {
        proof {
            lemma_pow256_vals();
            let sub = buf@.subrange(pos as int, pos + i + 1);
            assert(sub.drop_last() =~= buf@.subrange(pos as int, pos + i));
            assert(sub.last() == buf@[pos + i]);
            assert(r * 256 + 255 < pow256(i as nat + 1)) by (nonlinear_arith)
                requires
                    r < pow256(i as nat),
                    pow256(i as nat + 1) == 256 * pow256(i as nat),
            {}
        }
        r = r * 256 + buf[i + pos] as u64;
        i += 1;
    }
    r
}

/// Reads `n` little-endian bytes at `pos`.
fn read_le(buf: &Vec<u8>, pos: usize, n: usize) -> (r: u64)
    requires
        pos + n <= buf.len(),
        n <= 8,
    ensures
        r == le_val(buf@.subrange(pos as int, pos + n)),
{
    proof {
        lemma_pow256_vals();
    }
    let mut r: u64 = 0;
    let mut i: usize = n;
    assert(buf@.subrange(pos + n, pos + n) =~= Seq::<u8>::empty());
    assert(buf@.subrange(pos as int, pos + n).skip(n as int) =~= Seq::<u8>::empty());
    while i > 0
        invariant
            0 <= i <= n,
            n <= 8,
            pos + n <= buf.len(),
            r == le_val(buf@.subrange(pos as int, pos + n).skip(i as int)),
            r < pow256((n - i) as nat),
            pow256(8) == 0x10000000000000000,
        decreases i,
    {
        proof {
            lemma_pow256_vals();
            let whole = buf@.subrange(pos as int, pos + n);
            let sub = whole.skip(i as int - 1);
            assert(sub[0] == buf@[pos + i - 1]);
            assert(sub.drop_first() =~= whole.skip(i as int));
            assert(r * 256 + 255 < pow256((n - i) as nat + 1)) by (nonlinear_arith)
                requires
                    r < pow256((n - i) as nat),
                    pow256((n - i) as nat + 1) == 256 * pow256((n - i) as nat),
            {}
            assert(pow256((n - i) as nat + 1) <= pow256(8)) by {
                lemma_pow256_mono((n - i) as nat + 1, 8);
            }
        }
        r = r * 256 + buf[pos + i - 1] as u64;
        i -= 1;
    }
    assert(buf@.subrange(pos as int, pos + n).skip(0) =~= buf@.subrange(pos as int, pos + n));
    r
}

proof fn lemma_pow256_mono(a: nat, b: nat)
    requires
        a <= b,
    ensures
        pow256(a) <= pow256(b),
    decreases b,
{
    if a < b {
        lemma_pow256_mono(a, (b - 1) as nat);
        assert(pow256(b) == 256 * pow256((b - 1) as nat));
        assert(pow256((b - 1) as nat) >= 1) by {
            lemma_pow256_pos((b - 1) as nat);
        }
    }
}

proof fn lemma_pow256_pos(n: nat)
    ensures
        pow256(n) >= 1,
    decreases n,
{
    if n > 0 {
        lemma_pow256_pos((n - 1) as nat);
    }
}

/// A decoded length field.
pub enum RDBLenEncodings {
    SixBit(u64),
    FourteenBit(u64),
    SixtyFourBit(u64),
    SpecialEncoding(u32),
}

/// Decodes the length field at `pos`: the top two bits of the first byte
/// select a 6-bit, 14-bit (big-endian), or 32-bit (next four bytes,
/// big-endian) length, or a special integer of 1, 2 or 4 big-endian bytes;
/// any other special form is a compression encoding and is rejected.
pub open spec fn spec_read_len(s: Seq<u8>, pos: nat) -> Result<
    (RDBLenEncodings, nat),
    RdbError,
> {
    if pos >= s.len() {
        Err(RdbError::Truncated)
    } else {
        let b = s[pos as int];
        let tag = b / 64;
        let low = b % 64;
        if tag == 0 {
            Ok((RDBLenEncodings::SixBit(b as u64), pos + 1))
        } else if tag == 1 {
            if pos + 2 <= s.len() {
                Ok(
                    (
                        RDBLenEncodings::FourteenBit(
                            (low * 256 + s[pos as int + 1]) as u64,
                        ),
                        pos + 2,
                    ),
                )
            } else {
                Err(RdbError::Truncated)
            }
        } else if tag == 2 {
            if pos + 5 <= s.len() {
                Ok(
                    (
                        RDBLenEncodings::SixtyFourBit(
                            be_val(s.subrange(pos as int + 1, pos as int + 5)) as u64,
                        ),
                        pos + 5,
                    ),
                )
            } else {
                Err(RdbError::Truncated)
            }
        } else {
            if low == 0 {
                if pos + 2 <= s.len() {
                    Ok((RDBLenEncodings::SpecialEncoding(s[pos as int + 1] as u32), pos + 2))
                } else {
                    Err(RdbError::Truncated)
                }
            } else if low == 1 {
                if pos + 3 <= s.len() {
                    Ok(
                        (
                            RDBLenEncodings::SpecialEncoding(
                                be_val(s.subrange(pos as int + 1, pos as int + 3)) as u32,
                            ),
                            pos + 3,
                        ),
                    )
                } else {
                    Err(RdbError::Truncated)
                }
            } else if low == 2 {
                if pos + 5 <= s.len() {
                    Ok(
                        (
                            RDBLenEncodings::SpecialEncoding(
                                be_val(s.subrange(pos as int + 1, pos as int + 5)) as u32,
                            ),
                            pos + 5,
                        ),
                    )
                } else {
                    Err(RdbError::Truncated)
                }
            } else {
                Err(RdbError::UnsupportedEncoding)
            }
        }
    }
}

impl RDBLenEncodings {
    /// Decodes the length field at `pos`, returning it with the position
    /// just past it.
    pub fn read(buf: &Vec<u8>, pos: usize) -> (r: Result<(RDBLenEncodings, usize), RdbError>)
        requires
            pos <= buf.len(),
        ensures
            match r {
                Ok((enc, p)) => spec_read_len(buf@, pos as nat) == Ok::<_, RdbError>(
                    (enc, p as nat),
                ) && pos < p <= buf.len(),
                Err(e) => spec_read_len(buf@, pos as nat) == Err::<(RDBLenEncodings, nat), _>(
                    e,
                ),
            },
    {
        if pos >= buf.len() {
            return Err(RdbError::Truncated);
        }
        let b = buf[pos];
        let tag = b / 64;
        let low = b % 64;
        if tag == 0 {
            Ok((RDBLenEncodings::SixBit(b as u64), pos + 1))
        } else if tag == 1 {
            if buf.len() - pos >= 2 {
                let v = (low as u64) * 256 + (buf[pos + 1] as u64);
                Ok((RDBLenEncodings::FourteenBit(v), pos + 2))
            } else {
                Err(RdbError::Truncated)
            }
        } else if tag == 2 {
            if buf.len() - pos >= 5 {
                let v = read_be(buf, pos + 1, 4);
                Ok((RDBLenEncodings::SixtyFourBit(v), pos + 5))
            } else {
                Err(RdbError::Truncated)
            }
        } else {
            if low == 0 {
                if buf.len() - pos >= 2 {
                    Ok((RDBLenEncodings::SpecialEncoding(buf[pos + 1] as u32), pos + 2))
                } else {
                    Err(RdbError::Truncated)
                }
            } else if low == 1 {
                if buf.len() - pos >= 3 {
                    let v = read_be(buf, pos + 1, 2);
                    proof {
                        lemma_pow256_vals();
                        lemma_be_val_bound(buf@.subrange(pos as int + 1, pos as int + 3));
                    }
                    Ok((RDBLenEncodings::SpecialEncoding(v as u32), pos + 3))
                } else {
                    Err(RdbError::Truncated)
                }
            } else if low == 2 {
                if buf.len() - pos >= 5 {
                    let v = read_be(buf, pos + 1, 4);
                    proof {
                        lemma_pow256_vals();
                        lemma_be_val_bound(buf@.subrange(pos as int + 1, pos as int + 5));
                    }
                    Ok((RDBLenEncodings::SpecialEncoding(v as u32), pos + 5))
                } else {
                    Err(RdbError::Truncated)
                }
            } else {
                Err(RdbError::UnsupportedEncoding)
            }
        }
    }

    /// The number this length field denotes, rendered in decimal.
    pub fn to_bytes(&self) -> (r: Vec<u8>)
        ensures
            r@ == match *self {
                RDBLenEncodings::SixBit(n) => dec_of(n as nat),
                RDBLenEncodings::FourteenBit(n) => dec_of(n as nat),
                RDBLenEncodings::SixtyFourBit(n) => dec_of(n as nat),
                RDBLenEncodings::SpecialEncoding(n) => dec_of(n as nat),
            },
    {
        match self {
            RDBLenEncodings::SixBit(n) => render_dec(*n),
            RDBLenEncodings::FourteenBit(n) => render_dec(*n),
            RDBLenEncodings::SixtyFourBit(n) => render_dec(*n),
            RDBLenEncodings::SpecialEncoding(n) => render_dec(*n as u64),
        }
    }
}

/// The string at `pos`: a plain length brings that many bytes, which
/// must form valid UTF-8; a special integer form reads as its decimal
/// rendering.
pub open spec fn spec_read_string(s: Seq<u8>, pos: nat) -> Result<(Seq<u8>, nat), RdbError> {
    match spec_read_len(s, pos) {
        Err(e) => Err(e),
        Ok((enc, p)) => match enc {
            RDBLenEncodings::SixBit(n) => spec_take_raw(s, p, n),
            RDBLenEncodings::FourteenBit(n) => spec_take_raw(s, p, n),
            RDBLenEncodings::SixtyFourBit(n) => spec_take_raw(s, p, n),
            RDBLenEncodings::SpecialEncoding(v) => Ok((dec_of(v as nat), p)),
        },
    }
}

pub open spec fn spec_take_raw(s: Seq<u8>, p: nat, n: u64) -> Result<(Seq<u8>, nat), RdbError> {
    if p + n > s.len() {
        Err(RdbError::Truncated)
    } else if !valid_utf8(s.subrange(p as int, p + n)) {
        Err(RdbError::InvalidUtf8)
    } else {
        Ok((s.subrange(p as int, p + n), (p + n) as nat))
    }
}

/// Relies on core::str::from_utf8: it accepts a byte slice exactly when
/// the bytes are a valid UTF-8 encoding.
#[verifier::external_body]
fn is_valid_utf8(v: &Vec<u8>) -> (r: bool)
    ensures
        r == valid_utf8(v@),
{
    core::str::from_utf8(v).is_ok()
}

/// Reads the string at `pos`, returning its bytes with the position just
/// past it.
pub fn read_string(buf: &Vec<u8>, pos: usize) -> (r: Result<(Vec<u8>, usize), RdbError>)
    requires
        pos <= buf.len(),
    ensures
        match r {
            Ok((v, p)) => spec_read_string(buf@, pos as nat) == Ok::<_, RdbError>(
                (v@, p as nat),
            ) && pos < p <= buf.len(),
            Err(e) => spec_read_string(buf@, pos as nat) == Err::<(Seq<u8>, nat), _>(e),
        },
{
    let (enc, p) = match RDBLenEncodings::read(buf, pos) {
        Ok(x) => x,
        Err(e) => {
            return Err(e);
        }
    };
    let n: u64 = match &enc {
        RDBLenEncodings::SixBit(n) => *n,
        RDBLenEncodings::FourteenBit(n) => *n,
        RDBLenEncodings::SixtyFourBit(n) => *n,
        RDBLenEncodings::SpecialEncoding(v) => {
            return Ok((render_dec(*v as u64), p));
        }
    };
    if n > (buf.len() - p) as u64 {
        return Err(RdbError::Truncated);
    }
    let end = p + (n as usize);
    let v = copy_range(buf, p, end);
    if !is_valid_utf8(&v) {
        return Err(RdbError::InvalidUtf8);
    }
    Ok((v, end))
}

pub proof fn lemma_read_len_bounds(s: Seq<u8>, pos: nat)
    ensures
        match spec_read_len(s, pos) {
            Ok((enc, p)) => pos < p <= s.len(),
            Err(e) => true,
        },
{
}

pub proof fn lemma_read_string_bounds(s: Seq<u8>, pos: nat)
    ensures
        match spec_read_string(s, pos) {
            Ok((v, p)) => pos < p <= s.len(),
            Err(e) => true,
        },
{
    lemma_read_len_bounds(s, pos);
}

/// The optional expiry opcode before an entry: four little-endian bytes
/// of seconds, or eight of milliseconds; anything else leaves the cursor
/// in place and means no expiry.
pub open spec fn spec_read_expiry(s: Seq<u8>, pos: nat) -> Result<(Option<u64>, nat), RdbError> {
    if pos >= s.len() {
        Err(RdbError::Truncated)
    } else if s[pos as int] == OP_EXPIRE_TIME {
        if pos + 5 <= s.len() {
            Ok(
                (
                    Some((le_val(s.subrange(pos as int + 1, pos as int + 5)) * 1000) as u64),
                    pos + 5,
                ),
            )
        } else {
            Err(RdbError::Truncated)
        }
    } else if s[pos as int] == OP_EXPIRE_TIME_MS {
        if pos + 9 <= s.len() {
            Ok((Some(le_val(s.subrange(pos as int + 1, pos as int + 9)) as u64), pos + 9))
        } else {
            Err(RdbError::Truncated)
        }
    } else {
        Ok((None, pos))
    }
}

pub proof fn lemma_read_expiry_bounds(s: Seq<u8>, pos: nat)
    ensures
        match spec_read_expiry(s, pos) {
            Ok((e, p)) => pos <= p <= s.len(),
            Err(e) => true,
        },
{
}

/// One entry's payload: a value-type byte (only the plain string type 0
/// is supported), then the key string, then the value string.
pub open spec fn spec_load_key_val(s: Seq<u8>, pos: nat) -> Result<
    ((Seq<u8>, Seq<u8>), nat),
    RdbError,
> {
    if pos >= s.len() {
        Err(RdbError::Truncated)
    } else if s[pos as int] != 0 {
        Err(RdbError::UnsupportedValueType)
    } else {
        match spec_read_string(s, pos + 1) {
            Err(e) => Err(e),
            Ok((k, q1)) => match spec_read_string(s, q1) {
                Err(e) => Err(e),
                Ok((v, q2)) => Ok(((k, v), q2)),
            },
        }
    }
}

pub proof fn lemma_load_key_val_bounds(s: Seq<u8>, pos: nat)
    ensures
        match spec_load_key_val(s, pos) {
            Ok((kv, p)) => pos < p <= s.len(),
            Err(e) => true,
        },
{
    if pos < s.len() && s[pos as int] == 0 {
        lemma_read_string_bounds(s, pos + 1);
        match spec_read_string(s, pos + 1) {
            Ok((k, q1)) => {
                lemma_read_string_bounds(s, q1);
            }
            Err(e) => {}
        }
    }
}

/// The entries of one SelectDB section, read until the next byte in
/// opcode position starts a new section; each is an optional expiry, the
/// key, and the value. The section must end inside the buffer.
pub open spec fn spec_rdb_entries(s: Seq<u8>, pos: nat) -> Result<
    (Seq<(Seq<u8>, Seq<u8>, Option<u64>)>, nat),
    RdbError,
>
    decreases s.len() - pos,
{
    match spec_read_expiry(s, pos) {
        Err(e) => Err(e),
        Ok((exp, q1)) => match spec_load_key_val(s, q1) {
            Err(e) => Err(e),
            Ok(((k, v), q2)) => {
                if q2 >= s.len() {
                    Err(RdbError::Truncated)
                } else if is_section_byte(s[q2 as int]) {
                    Ok((seq![(k, v, exp)], q2))
                } else {
                    proof {
                        lemma_read_expiry_bounds(s, pos);
                        lemma_load_key_val_bounds(s, q1);
                    }
                    match spec_rdb_entries(s, q2) {
                        Err(e) => Err(e),
                        Ok((rest, pe)) => Ok((seq![(k, v, exp)] + rest, pe)),
                    }
                }
            }
        },
    }
}

pub proof fn lemma_entries_bounds(s: Seq<u8>, pos: nat)
    ensures
        match spec_rdb_entries(s, pos) {
            Ok((es, pe)) => pos < pe < s.len() && is_section_byte(s[pe as int]),
            Err(e) => true,
        },
    decreases s.len() - pos,
{
    match spec_read_expiry(s, pos) {
        Err(e) => {}
        Ok((exp, q1)) => {
            lemma_read_expiry_bounds(s, pos);
            match spec_load_key_val(s, q1) {
                Err(e) => {}
                Ok(((k, v), q2)) => {
                    lemma_load_key_val_bounds(s, q1);
                    if q2 < s.len() && !is_section_byte(s[q2 as int]) {
                        lemma_entries_bounds(s, q2);
                    }
                }
            }
        }
    }
}

/// Where an Aux section ends: pairs of strings are read until the byte in
/// opcode position is SelectDB (left in place) or Aux (consumed, and the
/// pairs continue); any other byte is read as the start of another pair.
pub open spec fn spec_aux_end(s: Seq<u8>, pos: nat) -> Result<nat, RdbError>
    decreases s.len() - pos,
{
    match spec_read_string(s, pos) {
        Err(e) => Err(e),
        Ok((k, q1)) => match spec_read_string(s, q1) {
            Err(e) => Err(e),
            Ok((v, q2)) => {
                if q2 >= s.len() {
                    Err(RdbError::Truncated)
                } else if s[q2 as int] == OP_SELECT_DB {
                    Ok(q2)
                } else if s[q2 as int] == OP_AUX {
                    proof {
                        lemma_read_string_bounds(s, pos);
                        lemma_read_string_bounds(s, q1);
                    }
                    spec_aux_end(s, q2 + 1)
                } else {
                    proof {
                        lemma_read_string_bounds(s, pos);
                        lemma_read_string_bounds(s, q1);
                    }
                    spec_aux_end(s, q2)
                }
            }
        },
    }
}

pub proof fn lemma_aux_end_bounds(s: Seq<u8>, pos: nat)
    ensures
        match spec_aux_end(s, pos) {
            Ok(p) => pos < p < s.len() && s[p as int] == OP_SELECT_DB,
            Err(e) => true,
        },
    decreases s.len() - pos,
{
    match spec_read_string(s, pos) {
        Err(e) => {}
        Ok((k, q1)) => {
            lemma_read_string_bounds(s, pos);
            match spec_read_string(s, q1) {
                Err(e) => {}
                Ok((v, q2)) => {
                    lemma_read_string_bounds(s, q1);
                    if q2 < s.len() {
                        if s[q2 as int] == OP_AUX {
                            lemma_aux_end_bounds(s, q2 + 1);
                        } else if s[q2 as int] != OP_SELECT_DB {
                            lemma_aux_end_bounds(s, q2);
                        }
                    }
                }
            }
        }
    }
}

/// The entry stream of the whole image from `pos` on: opcode-tagged
/// sections up to the EOF opcode. Aux sections are read and dropped; a
/// SelectDB opcode brings a database number, a mandatory ResizeDB opcode
/// with two sizes, and then the entries.
pub open spec fn spec_rdb_sections(s: Seq<u8>, pos: nat) -> Result<
    Seq<(Seq<u8>, Seq<u8>, Option<u64>)>,
    RdbError,
>
    decreases s.len() - pos,
{
    if pos >= s.len() {
        Err(RdbError::Truncated)
    } else {
        match spec_opcode(s[pos as int]) {
            None => Err(RdbError::BadOpcode),
            Some(op) => match op {
                RDBOpCodes::Eof => Ok(Seq::<(Seq<u8>, Seq<u8>, Option<u64>)>::empty()),
                RDBOpCodes::SelectDB => match spec_read_len(s, pos + 1) {
                    Err(e) => Err(e),
                    Ok((dbnum, p1)) => {
                        if p1 >= s.len() {
                            Err(RdbError::Truncated)
                        } else if s[p1 as int] != OP_RESIZE_DB {
                            Err(RdbError::UnexpectedOpcode)
                        } else {
                            match spec_read_len(s, p1 + 1) {
                                Err(e) => Err(e),
                                Ok((dbsz, p2)) => match spec_read_len(s, p2) {
                                    Err(e) => Err(e),
                                    Ok((expsz, p3)) => match spec_rdb_entries(s, p3) {
                                        Err(e) => Err(e),
                                        Ok((es, p4)) => {
                                            proof {
                                                lemma_read_len_bounds(s, pos + 1);
                                                lemma_read_len_bounds(s, p1 + 1);
                                                lemma_read_len_bounds(s, p2);
                                                lemma_entries_bounds(s, p3);
                                            }
                                            match spec_rdb_sections(s, p4) {
                                                Err(e) => Err(e),
                                                Ok(rest) => Ok(es + rest),
                                            }
                                        }
                                    },
                                },
                            }
                        }
                    }
                },
                RDBOpCodes::Aux => match spec_aux_end(s, pos + 1) {
                    Err(e) => Err(e),
                    Ok(p) => {
                        proof {
                            lemma_aux_end_bounds(s, pos + 1);
                        }
                        spec_rdb_sections(s, p)
                    }
                },
                RDBOpCodes::ExpireTime => Err(RdbError::UnexpectedOpcode),
                RDBOpCodes::ExpireTimeMs => Err(RdbError::UnexpectedOpcode),
                RDBOpCodes::ResizeDB => Err(RdbError::UnexpectedOpcode),
            },
        }
    }
}

/// The entry stream of a whole image: the 5-byte magic, a 4-byte version,
/// then the sections.
pub open spec fn spec_parse_rdb(s: Seq<u8>) -> Result<
    Seq<(Seq<u8>, Seq<u8>, Option<u64>)>,
    RdbError,
> {
    if s.len() < 5 || s.subrange(0, 5) != crate::bytes::str_bytes("REDIS") {
        Err(RdbError::BadMagic)
    } else if s.len() < 9 {
        Err(RdbError::Truncated)
    } else {
        spec_rdb_sections(s, 9)
    }
}

/// The two maps an entry stream loads into a starting state at instant
/// `now`: entries are applied in order as writes; one whose expiry lies
/// in the past is dropped entirely.
pub open spec fn spec_load_from(
    vals: Map<Seq<u8>, Seq<u8>>,
    exps: Map<Seq<u8>, u64>,
    es: Seq<(Seq<u8>, Seq<u8>, Option<u64>)>,
    now: u64,
) -> (Map<Seq<u8>, Seq<u8>>, Map<Seq<u8>, u64>)
    decreases es,
{
    if es.len() == 0 {
        (vals, exps)
    } else {
        let r = spec_load_from(vals, exps, es.drop_last(), now);
        let t = es.last();
        if match t.2 {
            Some(e) => e < now,
            None => false,
        } {
            r
        } else {
            (spec_set_vals(r.0, t.0, t.1), spec_set_exps(r.1, t.0, t.2))
        }
    }
}

/// The two maps an entry stream loads to from empty at instant `now`.
pub open spec fn spec_load(
    es: Seq<(Seq<u8>, Seq<u8>, Option<u64>)>,
    now: u64,
) -> (Map<Seq<u8>, Seq<u8>>, Map<Seq<u8>, u64>) {
    spec_load_from(Map::<Seq<u8>, Seq<u8>>::empty(), Map::<Seq<u8>, u64>::empty(), es, now)
}

/// Loading a concatenation loads the first part, then the second from
/// where the first left off.
pub proof fn lemma_load_concat(
    vals: Map<Seq<u8>, Seq<u8>>,
    exps: Map<Seq<u8>, u64>,
    a: Seq<(Seq<u8>, Seq<u8>, Option<u64>)>,
    b: Seq<(Seq<u8>, Seq<u8>, Option<u64>)>,
    now: u64,
)
    ensures
        spec_load_from(vals, exps, a + b, now) == spec_load_from(
            spec_load_from(vals, exps, a, now).0,
            spec_load_from(vals, exps, a, now).1,
            b,
            now,
        ),
    decreases b,
{
    if b.len() == 0 {
        assert(a + b =~= a);
    } else {
        assert((a + b).drop_last() =~= a + b.drop_last());
        assert((a + b).last() == b.last());
        lemma_load_concat(vals, exps, a, b.drop_last(), now);
    }
}

/// The entries of a section, prefixed by those already gathered.
pub open spec fn entries_with(
    s: Seq<u8>,
    done: Seq<(Seq<u8>, Seq<u8>, Option<u64>)>,
    pos: nat,
) -> Result<(Seq<(Seq<u8>, Seq<u8>, Option<u64>)>, nat), RdbError> {
    match spec_rdb_entries(s, pos) {
        Ok((rest, pe)) => Ok((done + rest, pe)),
        Err(e) => Err(e),
    }
}

/// The entries of the remaining sections, prefixed by those already
/// gathered.
pub open spec fn sections_with(
    s: Seq<u8>,
    done: Seq<(Seq<u8>, Seq<u8>, Option<u64>)>,
    pos: nat,
) -> Result<Seq<(Seq<u8>, Seq<u8>, Option<u64>)>, RdbError> {
    match spec_rdb_sections(s, pos) {
        Ok(rest) => Ok(done + rest),
        Err(e) => Err(e),
    }
}

fn read_expiry(buf: &Vec<u8>, pos: usize) -> (r: Result<(Option<u64>, usize), RdbError>)
    requires
        pos <= buf.len(),
    ensures
        match r {
            Ok((e, p)) => spec_read_expiry(buf@, pos as nat) == Ok::<_, RdbError>(
                (e, p as nat),
            ) && pos <= p <= buf.len(),
            Err(e) => spec_read_expiry(buf@, pos as nat) == Err::<(Option<u64>, nat), _>(e),
        },
{
    if pos >= buf.len() {
        return Err(RdbError::Truncated);
    }
    let b = buf[pos];
    if b == OP_EXPIRE_TIME {
        if buf.len() - pos >= 5 {
            let secs = read_le(buf, pos + 1, 4);
            proof {
                lemma_pow256_vals();
                lemma_le_val_bound(buf@.subrange(pos as int + 1, pos as int + 5));
            }
            Ok((Some(secs * 1000), pos + 5))
        } else {
            Err(RdbError::Truncated)
        }
    } else if b == OP_EXPIRE_TIME_MS {
        if buf.len() - pos >= 9 {
            let ms = read_le(buf, pos + 1, 8);
            Ok((Some(ms), pos + 9))
        } else {
            Err(RdbError::Truncated)
        }
    } else {
        Ok((None, pos))
    }
}

/// Reads one entry's value-type byte, key and value.
fn load_key_val(buf: &Vec<u8>, pos: usize) -> (r: Result<((Vec<u8>, Vec<u8>), usize), RdbError>)
    requires
        pos <= buf.len(),
    ensures
        match r {
            Ok(((k, v), p)) => spec_load_key_val(buf@, pos as nat) == Ok::<_, RdbError>(
                ((k@, v@), p as nat),
            ) && pos < p <= buf.len(),
            Err(e) => spec_load_key_val(buf@, pos as nat) == Err::<((Seq<u8>, Seq<u8>), nat), _>(
                e,
            ),
        },
{
    if pos >= buf.len() {
        return Err(RdbError::Truncated);
    }
    if buf[pos] != 0 {
        return Err(RdbError::UnsupportedValueType);
    }
    let (k, q1) = match read_string(buf, pos + 1) {
        Ok(x) => x,
        Err(e) => {
            return Err(e);
        }
    };
    let (v, q2) = match read_string(buf, q1) {
        Ok(x) => x,
        Err(e) => {
            return Err(e);
        }
    };
    Ok(((k, v), q2))
}

fn aux_end(buf: &Vec<u8>, pos: usize) -> (r: Result<usize, RdbError>)
    requires
        pos <= buf.len(),
    ensures
        match r {
            Ok(p) => spec_aux_end(buf@, pos as nat) == Ok::<_, RdbError>(p as nat) && pos < p
                < buf.len(),
            Err(e) => spec_aux_end(buf@, pos as nat) == Err::<nat, _>(e),
        },
{
    let mut cur = pos;
    loop
        invariant
            pos <= cur <= buf.len(),
            spec_aux_end(buf@, pos as nat) == spec_aux_end(buf@, cur as nat),
            cur == pos || pos < cur,
        ensures
            ({
                match spec_aux_end(buf@, pos as nat) {
                    Ok(p) => pos < p < buf.len(),
                    Err(e) => true,
                }
            }),
        decreases buf@.len() - cur,
    {
        proof {
            lemma_aux_end_bounds(buf@, pos as nat);
        }
        let (k, q1) = match read_string(buf, cur) {
            Ok(x) => x,
            Err(e) => {
                return Err(e);
            }
        };
        let (v, q2) = match read_string(buf, q1) {
            Ok(x) => x,
            Err(e) => {
                return Err(e);
            }
        };
        if q2 >= buf.len() {
            return Err(RdbError::Truncated);
        }
        if buf[q2] == OP_SELECT_DB {
            proof {
                lemma_aux_end_bounds(buf@, pos as nat);
            }
            return Ok(q2);
        }
        if buf[q2] == OP_AUX {
            cur = q2 + 1;
        } else {
            cur = q2;
        }
    }
}

/// Reads the entries of one SelectDB section into the keyspace, applying
/// each in order and dropping those already expired at `now`; returns the
/// position of the section byte that ended the run, and the entry stream
/// read. On an error the keyspace may hold a prefix of the section.
#[verifier::rlimit(60)]
fn load_entries(buf: &Vec<u8>, pos: usize, now: u64, ks: &mut Keyspace) -> (r: Result<
    (usize, Ghost<Seq<(Seq<u8>, Seq<u8>, Option<u64>)>>),
    RdbError,
>)
    requires
        pos <= buf.len(),
        old(ks).wf(),
    ensures
        final(ks).wf(),
        match r {
            Ok((pe, g)) => spec_rdb_entries(buf@, pos as nat) == Ok::<_, RdbError>(
                (g@, pe as nat),
            ) && pos < pe < buf.len() && final(ks).vals() == spec_load_from(
                old(ks).vals(),
                old(ks).exps(),
                g@,
                now,
            ).0 && final(ks).exps() == spec_load_from(
                old(ks).vals(),
                old(ks).exps(),
                g@,
                now,
            ).1,
            Err(e) => spec_rdb_entries(buf@, pos as nat) == Err::<
                (Seq<(Seq<u8>, Seq<u8>, Option<u64>)>, nat),
                _,
            >(e),
        },
{
    let ghost b0v = old(ks).vals();
    let ghost b0e = old(ks).exps();
    let ghost mut done: Seq<(Seq<u8>, Seq<u8>, Option<u64>)> = Seq::empty();
    let mut epos = pos;
    assert(Seq::<(Seq<u8>, Seq<u8>, Option<u64>)>::empty() + Seq::<
        (Seq<u8>, Seq<u8>, Option<u64>),
    >::empty() =~= Seq::<(Seq<u8>, Seq<u8>, Option<u64>)>::empty());
    proof {
        if spec_rdb_entries(buf@, pos as nat) is Ok {
            let (rest, pe) = spec_rdb_entries(buf@, pos as nat)->Ok_0;
            assert(done + rest =~= rest);
        }
    }
    loop
        invariant_except_break
            spec_rdb_entries(buf@, pos as nat) == entries_with(buf@, done, epos as nat),
        invariant
            pos <= epos <= buf.len(),
            ks.wf(),
            ks.vals() == spec_load_from(b0v, b0e, done, now).0,
            ks.exps() == spec_load_from(b0v, b0e, done, now).1,
        ensures
            pos < epos < buf.len(),
            ks.wf(),
            ks.vals() == spec_load_from(b0v, b0e, done, now).0,
            ks.exps() == spec_load_from(b0v, b0e, done, now).1,
            spec_rdb_entries(buf@, pos as nat) == Ok::<_, RdbError>((done, epos as nat)),
        decreases buf@.len() - epos,
    {
        let (exp, q1) = match read_expiry(buf, epos) {
            Ok(x) => x,
            Err(e) => {
                return Err(e);
            }
        };
        let (kv, q2) = match load_key_val(buf, q1) {
            Ok(x) => x,
            Err(e) => {
                return Err(e);
            }
        };
        let (k, v) = kv;
        let ghost t = (k@, v@, exp);
        let skip_entry = match exp {
            Some(x) => x < now,
            None => false,
        };
        let ghost prev_done = done;
        if !skip_entry {
            ks.set(&k, v, exp);
        }
        proof {
            done = done.push(t);
            assert(done.drop_last() =~= prev_done);
            assert(done.last() == t);
        }
        if q2 >= buf.len() {
            return Err(RdbError::Truncated);
        }
        let nb = buf[q2];
        if nb == OP_EOF || nb == OP_SELECT_DB || nb == OP_RESIZE_DB || nb == OP_AUX {
            proof {
                assert(spec_rdb_entries(buf@, epos as nat) == Ok::<_, RdbError>(
                    (seq![t], q2 as nat),
                ));
                assert(prev_done + seq![t] =~= done);
            }
            epos = q2;
            break;
        }
        proof {
            match spec_rdb_entries(buf@, q2 as nat) {
                Ok((rest2, pe2)) => {
                    assert(spec_rdb_entries(buf@, epos as nat) == Ok::<_, RdbError>(
                        (seq![t] + rest2, pe2),
                    ));
                    assert(prev_done + (seq![t] + rest2) =~= done + rest2);
                }
                Err(e) => {
                    assert(spec_rdb_entries(buf@, epos as nat) == Err::<
                        (Seq<(Seq<u8>, Seq<u8>, Option<u64>)>, nat),
                        _,
                    >(e));
                }
            }
        }
        epos = q2;
    }
    Ok((epos, Ghost(done)))
}

/// Locates the snapshot file by directory and file name; the bytes are
/// read outside and handed to [`RedisDB::read_rdb`].
pub struct RedisDB {
    dir: String,
    file_name: String,
}

impl RedisDB {
    /// The directory the snapshot lives in.
    pub closed spec fn spec_dir(self) -> Seq<char> {
        self.dir@
    }

    /// The snapshot's file name.
    pub closed spec fn spec_file_name(self) -> Seq<char> {
        self.file_name@
    }

    pub fn new(dir: String, file_name: String) -> (r: Self)
        ensures
            r.spec_dir() == dir@,
            r.spec_file_name() == file_name@,
    {
        Self { dir, file_name }
    }

    /// The directory, for composing the file path.
    pub fn dir(&self) -> (r: &String)
        ensures
            r@ == self.spec_dir(),
    {
        &self.dir
    }

    /// The file name, for composing the file path.
    pub fn file_name(&self) -> (r: &String)
        ensures
            r@ == self.spec_file_name(),
    {
        &self.file_name
    }

    /// Decodes a snapshot image into a keyspace, as of clock instant
    /// `now`: exactly the entry stream of the image, applied in order,
    /// with entries already expired at `now` omitted.
    #[verifier::rlimit(60)]
    pub fn read_rdb(&self, bytes: &Vec<u8>, now: u64) -> (r: Result<Keyspace, RdbError>)
        ensures
            match r {
                Ok(ks) => spec_parse_rdb(bytes@) is Ok && ks.wf() && ks.vals() == spec_load(
                    spec_parse_rdb(bytes@)->Ok_0,
                    now,
                ).0 && ks.exps() == spec_load(spec_parse_rdb(bytes@)->Ok_0, now).1,
                Err(e) => spec_parse_rdb(bytes@) == Err::<
                    Seq<(Seq<u8>, Seq<u8>, Option<u64>)>,
                    _,
                >(e),
            },
    {
        if bytes.len() < 5 {
            assert(bytes@.len() < 5);
            return Err(RdbError::BadMagic);
        }
        let magic = copy_range(bytes, 0, 5);
        if !crate::bytes::bytes_eq(&magic, &crate::bytes::lit_vec("REDIS")) {
            return Err(RdbError::BadMagic);
        }
        if bytes.len() < 9 {
            return Err(RdbError::Truncated);
        }
        let mut ks = Keyspace::new();
        let ghost mut done: Seq<(Seq<u8>, Seq<u8>, Option<u64>)> = Seq::empty();
        let mut pos: usize = 9;
        proof {
            assert(spec_load(done, now).0 =~= ks.vals());
            assert(spec_load(done, now).1 =~= ks.exps());
            if spec_rdb_sections(bytes@, 9) is Ok {
                assert(done + spec_rdb_sections(bytes@, 9)->Ok_0 =~= spec_rdb_sections(
                    bytes@,
                    9,
                )->Ok_0);
            }
        }
        loop
            invariant
                9 <= pos <= bytes@.len(),
                bytes@.len() >= 9,
                bytes@.subrange(0, 5) == crate::bytes::str_bytes("REDIS"),
                ks.wf(),
                ks.vals() == spec_load(done, now).0,
                ks.exps() == spec_load(done, now).1,
                spec_rdb_sections(bytes@, 9) == sections_with(bytes@, done, pos as nat),
            decreases bytes@.len() - pos,
        {
            if pos >= bytes.len() {
                return Err(RdbError::Truncated);
            }
            let b = bytes[pos];
            let op = match RDBOpCodes::from_u8(b) {
                Some(op) => op,
                None => {
                    return Err(RdbError::BadOpcode);
                }
            };
            match op {
                RDBOpCodes::Eof => {
                    proof {
                        assert(done + Seq::<(Seq<u8>, Seq<u8>, Option<u64>)>::empty() =~= done);
                    }
                    return Ok(ks);
                }
                RDBOpCodes::ExpireTime => {
                    return Err(RdbError::UnexpectedOpcode);
                }
                RDBOpCodes::ExpireTimeMs => {
                    return Err(RdbError::UnexpectedOpcode);
                }
                RDBOpCodes::ResizeDB => {
                    return Err(RdbError::UnexpectedOpcode);
                }
                RDBOpCodes::Aux => {
                    let p = match aux_end(bytes, pos + 1) {
                        Ok(p) => p,
                        Err(e) => {
                            return Err(e);
                        }
                    };
                    proof {
                        assert(spec_aux_end(bytes@, pos as nat + 1) == Ok::<nat, RdbError>(
                            p as nat,
                        ));
                        assert(spec_rdb_sections(bytes@, pos as nat) == spec_rdb_sections(
                            bytes@,
                            p as nat,
                        ));
                    }
                    pos = p;
                }
                RDBOpCodes::SelectDB => {
                    let p1 = match RDBLenEncodings::read(bytes, pos + 1) {
                        Ok(x) => x.1,
                        Err(e) => {
                            return Err(e);
                        }
                    };
                    if p1 >= bytes.len() {
                        return Err(RdbError::Truncated);
                    }
                    if bytes[p1] != OP_RESIZE_DB {
                        return Err(RdbError::UnexpectedOpcode);
                    }
                    let p2 = match RDBLenEncodings::read(bytes, p1 + 1) {
                        Ok(x) => x.1,
                        Err(e) => {
                            return Err(e);
                        }
                    };
                    let p3 = match RDBLenEncodings::read(bytes, p2) {
                        Ok(x) => x.1,
                        Err(e) => {
                            return Err(e);
                        }
                    };
                    let (p4, es) = match load_entries(bytes, p3, now, &mut ks) {
                        Ok(x) => x,
                        Err(e) => {
                            return Err(e);
                        }
                    };
                    proof {
                        lemma_load_concat(
                            Map::<Seq<u8>, Seq<u8>>::empty(),
                            Map::<Seq<u8>, u64>::empty(),
                            done,
                            es@,
                            now,
                        );
                        assert(done + es@ =~= (done + es@));
                        let prev_done = done;
                        done = done + es@;
                        match spec_rdb_sections(bytes@, p4 as nat) {
                            Ok(srest) => {
                                assert(spec_rdb_sections(bytes@, pos as nat) == Ok::<
                                    _,
                                    RdbError,
                                >(es@ + srest));
                                assert(prev_done + (es@ + srest) =~= done + srest);
                            }
                            Err(e) => {
                                assert(spec_rdb_sections(bytes@, pos as nat) == Err::<
                                    Seq<(Seq<u8>, Seq<u8>, Option<u64>)>,
                                    _,
                                >(e));
                            }
                        }
                    }
                    pos = p4;
                }
            }
        }
    }
}

} // verus!
