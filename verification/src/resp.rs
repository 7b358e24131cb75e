//! The RESP wire codec: typed frames, a serializer, and a framed decoder.
//!
//! Every frame begins with a type byte (`+` simple string, `$` bulk string,
//! `*` array); lines end with CRLF; length fields are ASCII decimal; a bulk
//! length of `-1` encodes the null bulk. Bulk payloads are read by byte
//! count, so they may contain any bytes.

use vstd::prelude::*;

use crate::bytes::{
    all_digits, copy_range, dec_of, dec_val, find_crlf, is_digit, lemma_dec_of,
    parse_dec, push_dec,
    spec_find_crlf, CR, LF,
};

verus! {

pub const PLUS: u8 = 43;
pub const DOLLAR: u8 = 36;
pub const STAR: u8 = 42;
pub const MINUS: u8 = 45;
pub const ONE: u8 = 49;

/// One structured message of the wire protocol.
pub enum Frame {
    Simple(Vec<u8>),
    Bulk(Vec<u8>),
    NullBulk,
    Array(Vec<Frame>),
}

/// The mathematical shape of a frame.
pub enum FrameV {
    Simple(Seq<u8>),
    Bulk(Seq<u8>),
    NullBulk,
    Array(Seq<FrameV>),
}

/// The frame a byte-level `Frame` stands for.
pub open spec fn frame_view(f: Frame) -> FrameV
    decreases f,
{
    match f {
        Frame::Simple(s) => FrameV::Simple(s@),
        Frame::Bulk(s) => FrameV::Bulk(s@),
        Frame::NullBulk => FrameV::NullBulk,
        Frame::Array(items) => FrameV::Array(frames_view(items@)),
    }
}

/// Element-wise view of a sequence of frames.
pub open spec fn frames_view(v: Seq<Frame>) -> Seq<FrameV>
    decreases v,
{
    if v.len() == 0 {
        Seq::<FrameV>::empty()
    } else {
        frames_view(v.drop_last()).push(frame_view(v.last()))
    }
}

pub proof fn lemma_frames_view(v: Seq<Frame>)
    ensures
        frames_view(v).len() == v.len(),
        forall|i: int| 0 <= i < v.len() ==> frames_view(v)[i] == frame_view(v[i]),
    decreases v,
{
    if v.len() > 0 {
        lemma_frames_view(v.drop_last());
    }
}

impl View for Frame {
    type V = FrameV;

    open spec fn view(&self) -> FrameV {
        frame_view(*self)
    }
}

/// The two-byte line terminator.
pub open spec fn crlf() -> Seq<u8> {
    seq![CR, LF]
}

/// Serialized form of a frame.
pub open spec fn encode_frame(f: FrameV) -> Seq<u8>
    decreases f,
{
    match f {
        FrameV::Simple(s) => seq![PLUS] + s + crlf(),
        FrameV::Bulk(s) => seq![DOLLAR] + dec_of(s.len()) + crlf() + s + crlf(),
        FrameV::NullBulk => seq![DOLLAR, MINUS, ONE] + crlf(),
        FrameV::Array(items) => seq![STAR] + dec_of(items.len()) + crlf() + encode_frames(items),
    }
}

/// Serialized frames, concatenated in order.
pub open spec fn encode_frames(items: Seq<FrameV>) -> Seq<u8>
    decreases items,
{
    if items.len() == 0 {
        Seq::<u8>::empty()
    } else {
        encode_frame(items[0]) + encode_frames(items.drop_first())
    }
}

proof fn lemma_encode_frames_snoc(items: Seq<FrameV>, x: FrameV)
    ensures
        encode_frames(items.push(x)) == encode_frames(items) + encode_frame(x),
    decreases items,
{
    if items.len() == 0 {
        assert(items.push(x)[0] == x);
        assert(items.push(x).drop_first() =~= Seq::<FrameV>::empty());
        assert(encode_frames(items.push(x)) == encode_frame(x) + encode_frames(
            Seq::<FrameV>::empty(),
        ));
        assert(encode_frames(items.push(x)) =~= encode_frames(items) + encode_frame(x));
    } else {
        assert(items.push(x).drop_first() =~= items.drop_first().push(x));
        lemma_encode_frames_snoc(items.drop_first(), x);
        assert(encode_frames(items.push(x)) =~= encode_frames(items) + encode_frame(x));
    }
}

fn push_all(out: &mut Vec<u8>, s: &Vec<u8>)
    ensures
        final(out)@ == old(out)@ + s@,
{
    let mut i: usize = 0;
    while i < s.len()
        invariant
            0 <= i <= s.len(),
            out@ =~= old(out)@ + s@.take(i as int),
        decreases s.len() - i,
    {
        out.push(s[i]);
        i += 1;
        assert(out@ =~= old(out)@ + s@.take(i as int));
    }
    assert(s@.take(s@.len() as int) =~= s@);
}

/// Appends the serialized form of `f` to `out`.
pub fn encode_into(out: &mut Vec<u8>, f: &Frame)
    ensures
        final(out)@ == old(out)@ + encode_frame(f@),
    decreases *f,
{
    match f {
        Frame::Simple(s) => {
            out.push(PLUS);
            push_all(out, s);
            out.push(CR);
            out.push(LF);
            assert(out@ =~= old(out)@ + encode_frame(f@));
        }
        Frame::Bulk(s) => {
            out.push(DOLLAR);
            push_dec(out, s.len() as u64);
            out.push(CR);
            out.push(LF);
            push_all(out, s);
            out.push(CR);
            out.push(LF);
            assert(out@ =~= old(out)@ + encode_frame(f@));
        }
        Frame::NullBulk => {
            out.push(DOLLAR);
            out.push(MINUS);
            out.push(ONE);
            out.push(CR);
            out.push(LF);
            assert(out@ =~= old(out)@ + encode_frame(f@));
        }
        Frame::Array(items) => {
            out.push(STAR);
            push_dec(out, items.len() as u64);
            out.push(CR);
            out.push(LF);
            let ghost views = frames_view(items@);
            let ghost header = old(out)@ + seq![STAR] + dec_of(items@.len() as nat) + crlf();
            proof {
                lemma_frames_view(items@);
            }
            assert(out@ =~= header);
            let mut i: usize = 0;
            while i < items.len()
                invariant
                    0 <= i <= items.len(),
                    f is Array,
                    f->Array_0 == *items,
                    views == frames_view(items@),
                    views.len() == items@.len(),
                    forall|j: int| 0 <= j < items@.len() ==> views[j] == frame_view(items@[j]),
                    header == old(out)@ + seq![STAR] + dec_of(items@.len() as nat) + crlf(),
                    out@ =~= header + encode_frames(views.take(i as int)),
                decreases items.len() - i,
            {
                proof {
                    assert(decreases_to!(*f => f->Array_0));
                    assert(decreases_to!(items@ => items@[i as int]));
                    assert(decreases_to!(*f => items@[i as int]));
                }
                encode_into(out, &items[i]);
                proof {
                    lemma_encode_frames_snoc(views.take(i as int), views[i as int]);
                    assert(views.take(i as int + 1) =~= views.take(i as int).push(views[i as int]));
                }
                i += 1;
            }
            proof {
                assert(views.take(items@.len() as int) =~= views);
                assert(out@ =~= old(out)@ + encode_frame(f@));
            }
        }
    }
}

/// Serialized form of a frame as a fresh vector.
pub fn encode(f: &Frame) -> (r: Vec<u8>)
    ensures
        r@ == encode_frame(f@),
{
    let mut out: Vec<u8> = Vec::new();
    encode_into(&mut out, f);
    out
}

pub proof fn lemma_find_crlf_props(s: Seq<u8>, from: nat)
    ensures
        match spec_find_crlf(s, from) {
            Some(e) => from <= e && e + 2 <= s.len() && s[e as int] == CR && s[e as int + 1] == LF,
            None => true,
        },
    decreases s.len() - from,
{
    if from + 2 > s.len() {
    } else if s[from as int] == CR && s[from as int + 1] == LF {
    } else {
        lemma_find_crlf_props(s, from + 1);
    }
}

/// A CRLF pair whose start is the first in sight is the one the scan finds.
proof fn lemma_find_crlf_at(s: Seq<u8>, from: nat, e: nat)
    requires
        from <= e,
        e + 2 <= s.len(),
        s[e as int] == CR,
        s[e as int + 1] == LF,
        forall|i: int| from <= i < e ==> #[trigger] s[i] != CR || s[i + 1] != LF,
    ensures
        spec_find_crlf(s, from) == Some(e),
    decreases e - from,
{
    if from < e {
        lemma_find_crlf_at(s, from + 1, e);
    }
}

/// A length token: a non-empty digit run whose value fits in `usize`.
pub open spec fn valid_len_token(tok: Seq<u8>) -> bool {
    tok.len() > 0 && all_digits(tok) && dec_val(tok) <= usize::MAX
}

/// The result of parsing one frame at `pos`: the frame and the position
/// just past it. Bulk payloads are read by byte count and must be followed
/// by CRLF; a `$-1` token is the null bulk; an unknown type byte, a bad
/// length, or a truncated buffer is a parse failure.
pub open spec fn spec_parse_frame(s: Seq<u8>, pos: nat) -> Option<(FrameV, nat)>
    decreases s.len() - pos, 0nat,
{
    if pos >= s.len() {
        None
    } else if s[pos as int] == PLUS {
        match spec_find_crlf(s, pos + 1) {
            Some(e) => Some((FrameV::Simple(s.subrange(pos as int + 1, e as int)), e + 2)),
            None => None,
        }
    } else if s[pos as int] == DOLLAR {
        match spec_find_crlf(s, pos + 1) {
            Some(e) => {
                let tok = s.subrange(pos as int + 1, e as int);
                if tok == seq![MINUS, ONE] {
                    Some((FrameV::NullBulk, e + 2))
                } else if valid_len_token(tok) {
                    let n = dec_val(tok);
                    if e + 2 + n + 2 <= s.len() && s[e + 2 + n] == CR && s[e + 2 + n + 1] == LF {
                        Some((FrameV::Bulk(s.subrange(e as int + 2, e + 2 + n)), (e + 2 + n + 2) as nat))
                    } else {
                        None
                    }
                } else {
                    None
                }
            }
            None => None,
        }
    } else if s[pos as int] == STAR {
        match spec_find_crlf(s, pos + 1) {
            Some(e) => {
                let tok = s.subrange(pos as int + 1, e as int);
                if valid_len_token(tok) {
                    proof {
                        lemma_find_crlf_props(s, pos + 1);
                    }
                    match spec_parse_frames(s, (e + 2) as nat, dec_val(tok) as nat) {
                        Some((items, p)) => Some((FrameV::Array(items), p)),
                        None => None,
                    }
                } else {
                    None
                }
            }
            None => None,
        }
    } else {
        None
    }
}

/// Exactly `n` frames parsed back to back starting at `pos`.
pub open spec fn spec_parse_frames(s: Seq<u8>, pos: nat, n: nat) -> Option<(Seq<FrameV>, nat)>
    decreases s.len() - pos, n,
{
    if n == 0 {
        Some((Seq::<FrameV>::empty(), pos))
    } else {
        match spec_parse_frame(s, pos) {
            Some((f, p)) => {
                if pos < p <= s.len() {
                    match spec_parse_frames(s, p, (n - 1) as nat) {
                        Some((items, p2)) => Some((seq![f] + items, p2)),
                        None => None,
                    }
                } else {
                    None
                }
            }
            None => None,
        }
    }
}

/// All frames at the head of the buffer: parsing stops at the first
/// failure, abandoning the remainder.
pub open spec fn spec_decode_all(s: Seq<u8>, pos: nat) -> Seq<FrameV>
    decreases s.len() - pos,
{
    if pos >= s.len() {
        Seq::<FrameV>::empty()
    } else {
        match spec_parse_frame(s, pos) {
            Some((f, p)) => {
                if pos < p <= s.len() {
                    seq![f] + spec_decode_all(s, p)
                } else {
                    seq![f]
                }
            }
            None => Seq::<FrameV>::empty(),
        }
    }
}

/// Parses one frame at `pos`, returning it with the position just past it.
pub fn parse_frame(buf: &Vec<u8>, pos: usize) -> (r: Option<(Frame, usize)>)
    requires
        pos <= buf.len(),
    ensures
        match r {
            Some((f, p)) => spec_parse_frame(buf@, pos as nat) == Some((f@, p as nat)) && pos < p
                <= buf.len(),
            None => spec_parse_frame(buf@, pos as nat) is None,
        },
    decreases buf.len() - pos, 0nat,
{
    if pos >= buf.len() {
        return None;
    }
    let tag = buf[pos];
    if tag == PLUS {
        match find_crlf(buf, pos + 1) {
            Some(e) => {
                proof {
                    lemma_find_crlf_props(buf@, pos as nat + 1);
                }
                let payload = copy_range(buf, pos + 1, e);
                Some((Frame::Simple(payload), e + 2))
            }
            None => None,
        }
    } else if tag == DOLLAR {
        match find_crlf(buf, pos + 1) {
            Some(e) => {
                proof {
                    lemma_find_crlf_props(buf@, pos as nat + 1);
                }
                let ghost tok = buf@.subrange(pos as int + 1, e as int);
                if e == pos + 3 && buf[pos + 1] == MINUS && buf[pos + 2] == ONE {
                    assert(tok =~= seq![MINUS, ONE]);
                    return Some((Frame::NullBulk, e + 2));
                }
                proof {
                    if tok == seq![MINUS, ONE] {
                        assert(tok.len() == 2);
                        assert(buf@[pos as int + 1] == MINUS && buf@[pos as int + 2] == ONE);
                        assert(false);
                    }
                }
                match parse_dec(buf, pos + 1, e) {
                    Some(v) => {
                        if v > (usize::MAX as u64) {
                            assert(!valid_len_token(tok));
                            return None;
                        }
                        let n = v as usize;
                        assert(valid_len_token(tok) && dec_val(tok) == n);
                        let rem = buf.len() - (e + 2);
                        if n > rem || rem - n < 2 {
                            assert((e + 2 + n + 2) as int > buf@.len());
                            return None;
                        }
                        if buf[e + 2 + n] == CR && buf[e + 2 + n + 1] == LF {
                            let payload = copy_range(buf, e + 2, e + 2 + n);
                            Some((Frame::Bulk(payload), e + 2 + n + 2))
                        } else {
                            None
                        }
                    }
                    None => {
                        assert(!valid_len_token(tok));
                        None
                    }
                }
            }
            None => None,
        }
    } else if tag == STAR {
        match find_crlf(buf, pos + 1) {
            Some(e) => {
                proof {
                    lemma_find_crlf_props(buf@, pos as nat + 1);
                }
                let ghost tok = buf@.subrange(pos as int + 1, e as int);
                match parse_dec(buf, pos + 1, e) {
                    Some(v) => {
                        if v > (usize::MAX as u64) {
                            assert(!valid_len_token(tok));
                            return None;
                        }
                        let n = v as usize;
                        assert(valid_len_token(tok) && dec_val(tok) == n);
                        match parse_frames(buf, e + 2, n) {
                            Some((items, p)) => Some((Frame::Array(items), p)),
                            None => None,
                        }
                    }
                    None => {
                        assert(!valid_len_token(tok));
                        None
                    }
                }
            }
            None => None,
        }
    } else {
        None
    }
}

/// Parses exactly `n` frames back to back starting at `pos`.
fn parse_frames(buf: &Vec<u8>, pos: usize, n: usize) -> (r: Option<(Vec<Frame>, usize)>)
    requires
        pos <= buf.len(),
    ensures
        match r {
            Some((items, p)) => spec_parse_frames(buf@, pos as nat, n as nat) == Some(
                (frames_view(items@), p as nat),
            ) && pos <= p <= buf.len(),
            None => spec_parse_frames(buf@, pos as nat, n as nat) is None,
        },
    decreases buf.len() - pos, n,
{
    if n == 0 {
        let items: Vec<Frame> = Vec::new();
        assert(frames_view(items@) =~= Seq::<FrameV>::empty());
        return Some((items, pos));
    }
    match parse_frame(buf, pos) {
        Some((f, p)) => {
            match parse_frames(buf, p, n - 1) {
                Some((rest, p2)) => {
                    let mut items: Vec<Frame> = Vec::new();
                    items.push(f);
                    let mut rest = rest;
                    let ghost rest_snap = rest@;
                    let ghost one = items@;
                    items.append(&mut rest);
                    proof {
                        assert(items@ =~= one + rest_snap);
                        lemma_frames_view_concat(one, rest_snap);
                        assert(one.drop_last() =~= Seq::<Frame>::empty());
                        assert(one.last() == f);
                        assert(frames_view(one) == frames_view(one.drop_last()).push(
                            frame_view(f),
                        ));
                        assert(frames_view(one) =~= seq![f@]);
                        assert(frames_view(items@) =~= seq![f@] + frames_view(rest_snap));
                    }
                    Some((items, p2))
                }
                None => None,
            }
        }
        None => None,
    }
}

proof fn lemma_frames_view_concat(a: Seq<Frame>, b: Seq<Frame>)
    ensures
        frames_view(a + b) == frames_view(a) + frames_view(b),
    decreases b,
{
    if b.len() == 0 {
        assert(a + b =~= a);
        assert(frames_view(a) + frames_view(b) =~= frames_view(a));
    } else {
        assert((a + b).drop_last() =~= a + b.drop_last());
        assert((a + b).last() == b.last());
        lemma_frames_view_concat(a, b.drop_last());
        lemma_frames_view(b.drop_last());
        lemma_frames_view(b);
        assert(frames_view(b).drop_last() =~= frames_view(b.drop_last()));
        assert(frames_view(a + b) =~= frames_view(a) + frames_view(b));
    }
}

/// A frame whose serialized form parses back without ambiguity: simple
/// strings carry neither CR nor LF, and every length fits in `usize`.
pub open spec fn wf_frame(f: FrameV) -> bool
    decreases f,
{
    match f {
        FrameV::Simple(s) => s.len() <= usize::MAX && forall|i: int|
            0 <= i < s.len() ==> #[trigger] s[i] != CR && s[i] != LF,
        FrameV::Bulk(s) => s.len() <= usize::MAX,
        FrameV::NullBulk => true,
        FrameV::Array(items) => items.len() <= usize::MAX && wf_frames(items),
    }
}

/// Every frame of the sequence is well formed.
pub open spec fn wf_frames(items: Seq<FrameV>) -> bool
    decreases items,
{
    items.len() == 0 || (wf_frame(items[0]) && wf_frames(items.drop_first()))
}

pub proof fn lemma_encode_len(f: FrameV)
    ensures
        encode_frame(f).len() >= 3,
{
    match f {
        FrameV::Simple(s) => {}
        FrameV::Bulk(s) => {
            lemma_dec_of(s.len());
        }
        FrameV::NullBulk => {}
        FrameV::Array(items) => {
            lemma_dec_of(items.len());
        }
    }
}

/// Parsing undoes serialization: the serialized form of a well-formed
/// frame, read in place, gives back exactly that frame.
pub proof fn lemma_parse_encode(s: Seq<u8>, pos: nat, f: FrameV)
    requires
        wf_frame(f),
        pos + encode_frame(f).len() <= s.len(),
        s.subrange(pos as int, pos as int + encode_frame(f).len() as int) == encode_frame(f),
    ensures
        spec_parse_frame(s, pos) == Some((f, (pos + encode_frame(f).len()) as nat)),
    decreases f,
{
    let enc = encode_frame(f);
    let ln = enc.len() as int;
    assert forall|k: int| 0 <= k < ln implies s[pos + k] == enc[k] by {
        assert(s.subrange(pos as int, pos + ln)[k] == enc[k]);
    }
    match f {
        FrameV::Simple(t) => {
            let e = (pos + 1 + t.len()) as nat;
            assert(enc[0] == PLUS);
            assert forall|i: int| pos + 1 <= i < e implies #[trigger] s[i] != CR || s[i + 1] != LF by {
                assert(s[i] == enc[i - pos]);
                assert(enc[i - pos] == t[i - pos - 1]);
            }
            assert(s[e as int] == enc[e - pos] && enc[e - pos] == CR);
            assert(s[e as int + 1] == enc[e + 1 - pos] && enc[e + 1 - pos] == LF);
            lemma_find_crlf_at(s, pos + 1, e);
            assert forall|j: int| 0 <= j < t.len() implies s.subrange(
                pos as int + 1,
                e as int,
            )[j] == t[j] by {
                assert(s[pos + 1 + j] == enc[1 + j]);
                assert(enc[1 + j] == t[j]);
            }
            assert(s.subrange(pos as int + 1, e as int) =~= t);
        }
        FrameV::Bulk(t) => {
            let n = t.len();
            let d = dec_of(n);
            lemma_dec_of(n);
            let e = (pos + 1 + d.len()) as nat;
            assert(enc[0] == DOLLAR);
            assert forall|i: int| pos + 1 <= i < e implies #[trigger] s[i] != CR || s[i + 1] != LF by {
                assert(s[i] == enc[i - pos]);
                assert(enc[i - pos] == d[i - pos - 1]);
                assert(is_digit(d[i - pos - 1]));
            }
            assert(s[e as int] == enc[e - pos] && enc[e - pos] == CR);
            assert(s[e as int + 1] == enc[e + 1 - pos] && enc[e + 1 - pos] == LF);
            lemma_find_crlf_at(s, pos + 1, e);
            let tok = s.subrange(pos as int + 1, e as int);
            assert forall|j: int| 0 <= j < d.len() implies tok[j] == d[j] by {
                assert(s[pos + 1 + j] == enc[1 + j]);
                assert(enc[1 + j] == d[j]);
            }
            assert(tok =~= d);
            assert(is_digit(tok[0]));
            assert(tok != seq![MINUS, ONE]) by {
                if tok == seq![MINUS, ONE] {
                    assert(tok[0] == MINUS);
                }
            }
            assert(valid_len_token(tok));
            assert(dec_val(tok) == n);
            let ei = e as int;
            let ni = n as int;
            let di = d.len() as int;
            assert(ei + 2 + ni + 2 == pos + ln);
            assert(s[ei + 2 + ni] == enc[1 + di + 2 + ni] && enc[1 + di + 2 + ni] == CR);
            assert(s[ei + 2 + ni + 1] == enc[1 + di + 2 + ni + 1] && enc[1 + di + 2 + ni + 1]
                == LF);
            assert forall|j: int| 0 <= j < ni implies s.subrange(ei + 2, ei + 2 + ni)[j] == t[j] by {
                assert(s[ei + 2 + j] == enc[1 + di + 2 + j]);
                assert(enc[1 + di + 2 + j] == t[j]);
            }
            assert(s.subrange(ei + 2, ei + 2 + ni) =~= t);
        }
        FrameV::NullBulk => {
            let e = (pos + 3) as nat;
            assert(enc[0] == DOLLAR);
            assert(enc[1] == MINUS && enc[2] == ONE);
            assert(enc[3] == CR && enc[4] == LF);
            assert forall|i: int| pos + 1 <= i < e implies #[trigger] s[i] != CR || s[i + 1] != LF by {
                assert(s[i] == enc[i - pos]);
            }
            lemma_find_crlf_at(s, pos + 1, e);
            assert(s[pos as int + 1] == enc[1] && s[pos as int + 2] == enc[2]);
            assert(s.subrange(pos as int + 1, e as int) =~= seq![MINUS, ONE]);
        }
        FrameV::Array(items) => {
            let m = items.len();
            let d = dec_of(m);
            lemma_dec_of(m);
            let e = (pos + 1 + d.len()) as nat;
            assert(enc[0] == STAR);
            assert forall|i: int| pos + 1 <= i < e implies #[trigger] s[i] != CR || s[i + 1] != LF by {
                assert(s[i] == enc[i - pos]);
                assert(enc[i - pos] == d[i - pos - 1]);
                assert(is_digit(d[i - pos - 1]));
            }
            assert(s[e as int] == enc[e - pos] && enc[e - pos] == CR);
            assert(s[e as int + 1] == enc[e + 1 - pos] && enc[e + 1 - pos] == LF);
            lemma_find_crlf_at(s, pos + 1, e);
            let tok = s.subrange(pos as int + 1, e as int);
            assert forall|j: int| 0 <= j < d.len() implies tok[j] == d[j] by {
                assert(s[pos + 1 + j] == enc[1 + j]);
                assert(enc[1 + j] == d[j]);
            }
            assert(tok =~= d);
            assert(valid_len_token(tok));
            assert(dec_val(tok) == m);
            let body = encode_frames(items);
            let pos2 = (e + 2) as nat;
            let di = d.len() as int;
            assert forall|k: int| 0 <= k < body.len() implies s[pos2 as int + k] == body[k] by {
                assert(s[pos2 as int + k] == enc[1 + di + 2 + k]);
                assert(enc[1 + di + 2 + k] == body[k]);
            }
            assert(s.subrange(pos2 as int, pos2 as int + body.len() as int) =~= body);
            lemma_parse_frames_encode(s, pos2, items);
        }
    }
}

/// Parsing undoes serialization for a run of concatenated frames.
pub proof fn lemma_parse_frames_encode(s: Seq<u8>, pos: nat, items: Seq<FrameV>)
    requires
        wf_frames(items),
        pos + encode_frames(items).len() <= s.len(),
        s.subrange(pos as int, pos as int + encode_frames(items).len() as int) == encode_frames(items),
    ensures
        spec_parse_frames(s, pos, items.len()) == Some(
            (items, (pos + encode_frames(items).len()) as nat),
        ),
    decreases items,
{
    if items.len() == 0 {
        assert(items =~= Seq::<FrameV>::empty());
    } else {
        let enc = encode_frames(items);
        let ln = enc.len() as int;
        assert forall|k: int| 0 <= k < ln implies s[pos + k] == enc[k] by {
            assert(s.subrange(pos as int, pos + ln)[k] == enc[k]);
        }
        let head = encode_frame(items[0]);
        let rest = encode_frames(items.drop_first());
        assert(enc == head + rest);
        assert forall|k: int| 0 <= k < head.len() implies s.subrange(
            pos as int,
            pos + head.len() as int,
        )[k] == head[k] by {
            assert(s[pos + k] == enc[k]);
            assert(enc[k] == head[k]);
        }
        assert(s.subrange(pos as int, pos + head.len() as int) =~= head);
        lemma_parse_encode(s, pos, items[0]);
        lemma_encode_len(items[0]);
        let p1 = (pos + head.len()) as nat;
        assert forall|k: int| 0 <= k < rest.len() implies s.subrange(
            p1 as int,
            p1 as int + rest.len() as int,
        )[k] == rest[k] by {
            assert(s[p1 + k] == enc[head.len() + k]);
            assert(enc[head.len() + k] == rest[k]);
        }
        assert(s.subrange(p1 as int, p1 as int + rest.len() as int) =~= rest);
        lemma_parse_frames_encode(s, p1, items.drop_first());
        assert(seq![items[0]] + items.drop_first() =~= items);
    }
}

/// Round trip: decoding the serialized form of a well-formed frame yields
/// exactly that frame and nothing else.
pub proof fn lemma_decode_encode(f: FrameV)
    requires
        wf_frame(f),
    ensures
        spec_decode_all(encode_frame(f), 0) == seq![f],
{
    let enc = encode_frame(f);
    lemma_encode_len(f);
    assert(enc.subrange(0, enc.len() as int) =~= enc);
    lemma_parse_encode(enc, 0, f);
    assert(spec_decode_all(enc, enc.len() as nat) =~= Seq::<FrameV>::empty());
    assert(spec_decode_all(enc, 0) =~= seq![f]);
}

/// Where the decoder stops in the buffer: just past the last complete
/// frame at its head.
pub open spec fn spec_decode_end(s: Seq<u8>, pos: nat) -> nat
    decreases s.len() - pos,
{
    if pos >= s.len() {
        pos
    } else {
        match spec_parse_frame(s, pos) {
            Some((f, p)) => {
                if pos < p <= s.len() {
                    spec_decode_end(s, p)
                } else {
                    p
                }
            }
            None => pos,
        }
    }
}

/// Decodes every complete frame at the head of the buffer and reports how
/// many bytes they covered, so a caller reading a socket can keep the
/// incomplete tail and grow it with the next read.
pub fn decode_prefix(buf: &Vec<u8>) -> (r: (Vec<Frame>, usize))
    ensures
        frames_view(r.0@) == spec_decode_all(buf@, 0),
        r.1 as nat == spec_decode_end(buf@, 0),
        r.1 <= buf.len(),
{
    let mut out: Vec<Frame> = Vec::new();
    let mut pos: usize = 0;
    assert(frames_view(out@) =~= Seq::<FrameV>::empty());
    while pos < buf.len()
        invariant
            pos <= buf.len(),
            spec_decode_all(buf@, 0) == frames_view(out@) + spec_decode_all(buf@, pos as nat),
            spec_decode_end(buf@, 0) == spec_decode_end(buf@, pos as nat),
        decreases buf.len() - pos,
    {
        match parse_frame(buf, pos) {
            Some((f, p)) => {
                let ghost prev = out@;
                let ghost fv = f@;
                out.push(f);
                proof {
                    assert(out@.drop_last() =~= prev);
                    assert(out@.last() == f);
                    assert(frames_view(out@) =~= frames_view(prev).push(fv));
                    assert(spec_decode_all(buf@, pos as nat) == seq![fv] + spec_decode_all(
                        buf@,
                        p as nat,
                    ));
                    assert(frames_view(out@) + spec_decode_all(buf@, p as nat) =~= frames_view(
                        prev,
                    ) + (seq![fv] + spec_decode_all(buf@, p as nat)));
                }
                pos = p;
            }
            None => {
                assert(spec_decode_all(buf@, pos as nat) =~= Seq::<FrameV>::empty());
                assert(frames_view(out@) + spec_decode_all(buf@, pos as nat) =~= frames_view(
                    out@,
                ));
                assert(spec_decode_end(buf@, pos as nat) == pos as nat);
                return (out, pos);
            }
        }
    }
    assert(spec_decode_all(buf@, pos as nat) =~= Seq::<FrameV>::empty());
    assert(frames_view(out@) + spec_decode_all(buf@, pos as nat) =~= frames_view(out@));
    (out, pos)
}

/// Decodes every complete frame at the head of the buffer, abandoning the
/// rest at the first malformed or truncated frame.
pub fn decode_all(buf: &Vec<u8>) -> (r: Vec<Frame>)
    ensures
        frames_view(r@) == spec_decode_all(buf@, 0),
{
    let (frames, _used) = decode_prefix(buf);
    frames
}

} // verus!
