//! The command layer: recognizes command verbs inside decoded frame
//! arrays, carries them as typed values, and serializes commands back to
//! wire form (used when a primary ships writes to its replicas).
//!
//! Verbs are matched case-insensitively. A recognized verb consumes its
//! positional arguments from the same array; a verb whose required
//! arguments are missing or ill-typed fails the parse, which abandons the
//! rest of that array. Unknown verbs are silently skipped.

use vstd::prelude::*;

use crate::bytes::{
    all_digits, clone_vec, dec_of, dec_val, eq_ignore_case, fold_bytes, lit_vec, parse_dec,
    str_bytes,
};
use crate::resp::{
    decode_all, encode, frame_view, frames_view, lemma_frames_view, spec_decode_all, Frame,
    FrameV,
};

verus! {

/// The expiry argument of a write: the relative count from the `PX`
/// option and the absolute instant it denoted at parse time.
#[derive(Clone, Copy, PartialEq, Eq, Structural)]
pub struct SetExpiry {
    pub px_ms: u64,
    pub at_ms: u64,
}

/// A recognized command with its arguments.
pub enum Command {
    Echo(Vec<u8>),
    Ping,
    Get(Vec<u8>),
    SetCmd(Vec<u8>, Vec<u8>, Option<SetExpiry>),
    ConfigGet(Vec<u8>),
    Keys(Vec<u8>),
    Info(Vec<u8>),
    ReplConf(Vec<u8>, Vec<u8>),
    Psync(Vec<u8>, Vec<u8>),
}

/// The mathematical shape of a command.
pub enum CommandV {
    Echo(Seq<u8>),
    Ping,
    Get(Seq<u8>),
    SetCmd(Seq<u8>, Seq<u8>, Option<SetExpiry>),
    ConfigGet(Seq<u8>),
    Keys(Seq<u8>),
    Info(Seq<u8>),
    ReplConf(Seq<u8>, Seq<u8>),
    Psync(Seq<u8>, Seq<u8>),
}

impl View for Command {
    type V = CommandV;

    open spec fn view(&self) -> CommandV {
        match self {
            Command::Echo(m) => CommandV::Echo(m@),
            Command::Ping => CommandV::Ping,
            Command::Get(k) => CommandV::Get(k@),
            Command::SetCmd(k, v, e) => CommandV::SetCmd(k@, v@, *e),
            Command::ConfigGet(p) => CommandV::ConfigGet(p@),
            Command::Keys(p) => CommandV::Keys(p@),
            Command::Info(s) => CommandV::Info(s@),
            Command::ReplConf(k, v) => CommandV::ReplConf(k@, v@),
            Command::Psync(k, v) => CommandV::Psync(k@, v@),
        }
    }
}

/// Element-wise view of a sequence of commands.
pub open spec fn cmds_view(v: Seq<Command>) -> Seq<CommandV>
    decreases v,
{
    if v.len() == 0 {
        Seq::<CommandV>::empty()
    } else {
        cmds_view(v.drop_last()).push(v.last()@)
    }
}

pub proof fn lemma_cmds_view(v: Seq<Command>)
    ensures
        cmds_view(v).len() == v.len(),
        forall|i: int| 0 <= i < v.len() ==> cmds_view(v)[i] == v[i]@,
    decreases v,
{
    if v.len() > 0 {
        lemma_cmds_view(v.drop_last());
    }
}

proof fn lemma_cmds_view_concat(a: Seq<Command>, b: Seq<Command>)
    ensures
        cmds_view(a + b) == cmds_view(a) + cmds_view(b),
    decreases b,
{
    if b.len() == 0 {
        assert(a + b =~= a);
        assert(cmds_view(a) + cmds_view(b) =~= cmds_view(a));
    } else {
        assert((a + b).drop_last() =~= a + b.drop_last());
        assert((a + b).last() == b.last());
        lemma_cmds_view_concat(a, b.drop_last());
        lemma_cmds_view(b.drop_last());
        lemma_cmds_view(b);
        assert(cmds_view(b).drop_last() =~= cmds_view(b.drop_last()));
        assert(cmds_view(a + b) =~= cmds_view(a) + cmds_view(b));
    }
}

/// The text a frame carries, when it is a string frame.
pub open spec fn str_of(f: FrameV) -> Option<Seq<u8>> {
    match f {
        FrameV::Simple(s) => Some(s),
        FrameV::Bulk(s) => Some(s),
        FrameV::NullBulk => None,
        FrameV::Array(items) => None,
    }
}

/// The text of the frame at `j`, when in range and a string frame.
pub open spec fn str_at(items: Seq<FrameV>, j: nat) -> Option<Seq<u8>> {
    if j < items.len() {
        str_of(items[j as int])
    } else {
        None
    }
}

/// ASCII case-insensitive match of a token against a verb.
pub open spec fn is_word(s: Seq<u8>, w: &str) -> bool {
    fold_bytes(s) == fold_bytes(str_bytes(w))
}

/// The expiry denoted by `PX px` read at instant `now`: the absolute
/// instant `now + px`, or nothing when that does not fit in 64 bits.
pub open spec fn px_expiry(now: u64, px: u64) -> Option<SetExpiry> {
    if now + px > u64::MAX {
        None
    } else {
        Some(SetExpiry { px_ms: px, at_ms: (now + px) as u64 })
    }
}

/// One verb at `idx` with text `s`: the commands it yields (none or one)
/// and how many array elements it consumed. Zero consumed means the verb's
/// required arguments were missing or ill-typed: the parse fails there.
pub open spec fn spec_verb_step(items: Seq<FrameV>, idx: nat, s: Seq<u8>, now: u64) -> (Seq<
    CommandV,
>, nat) {
    if is_word(s, "PING") {
        (seq![CommandV::Ping], 1nat)
    } else if is_word(s, "ECHO") {
        match str_at(items, idx + 1) {
            Some(m) => (seq![CommandV::Echo(m)], 2nat),
            None => (Seq::<CommandV>::empty(), 0nat),
        }
    } else if is_word(s, "GET") {
        match str_at(items, idx + 1) {
            Some(k) => (seq![CommandV::Get(k)], 2nat),
            None => (Seq::<CommandV>::empty(), 0nat),
        }
    } else if is_word(s, "SET") {
        match (str_at(items, idx + 1), str_at(items, idx + 2)) {
            (Some(k), Some(v)) => {
                match str_at(items, idx + 3) {
                    Some(t) => {
                        if is_word(t, "PX") {
                            match str_at(items, idx + 4) {
                                Some(p) => {
                                    if p.len() > 0 && all_digits(p) && dec_val(p) <= u64::MAX {
                                        (
                                            seq![
                                                CommandV::SetCmd(
                                                    k,
                                                    v,
                                                    px_expiry(now, dec_val(p) as u64),
                                                ),
                                            ],
                                            5nat,
                                        )
                                    } else {
                                        (Seq::<CommandV>::empty(), 0nat)
                                    }
                                }
                                None => (Seq::<CommandV>::empty(), 0nat),
                            }
                        } else {
                            (seq![CommandV::SetCmd(k, v, None)], 3nat)
                        }
                    }
                    None => (seq![CommandV::SetCmd(k, v, None)], 3nat),
                }
            }
            _ => (Seq::<CommandV>::empty(), 0nat),
        }
    } else if is_word(s, "CONFIG") {
        match str_at(items, idx + 1) {
            Some(c) => {
                if is_word(c, "GET") {
                    match str_at(items, idx + 2) {
                        Some(p) => (seq![CommandV::ConfigGet(p)], 3nat),
                        None => (Seq::<CommandV>::empty(), 0nat),
                    }
                } else {
                    (Seq::<CommandV>::empty(), 2nat)
                }
            }
            None => (Seq::<CommandV>::empty(), 0nat),
        }
    } else if is_word(s, "KEYS") {
        match str_at(items, idx + 1) {
            Some(p) => (seq![CommandV::Keys(p)], 2nat),
            None => (Seq::<CommandV>::empty(), 0nat),
        }
    } else if is_word(s, "INFO") {
        match str_at(items, idx + 1) {
            Some(sec) => {
                if is_word(sec, "replication") {
                    (seq![CommandV::Info(sec)], 2nat)
                } else {
                    (seq![CommandV::Info(str_bytes("all"))], 2nat)
                }
            }
            None => (seq![CommandV::Info(str_bytes("all"))], 1nat),
        }
    } else if is_word(s, "REPLCONF") {
        match (str_at(items, idx + 1), str_at(items, idx + 2)) {
            (Some(k), Some(v)) => (seq![CommandV::ReplConf(k, v)], 3nat),
            _ => (Seq::<CommandV>::empty(), 0nat),
        }
    } else if is_word(s, "PSYNC") {
        match (str_at(items, idx + 1), str_at(items, idx + 2)) {
            (Some(k), Some(v)) => (seq![CommandV::Psync(k, v)], 3nat),
            _ => (Seq::<CommandV>::empty(), 0nat),
        }
    } else {
        (Seq::<CommandV>::empty(), 1nat)
    }
}

/// Commands recognized in `items` from `idx` on. A nested array is walked
/// recursively; its commands come before those that follow it.
pub open spec fn spec_parse_items(items: Seq<FrameV>, idx: nat, now: u64) -> Seq<CommandV>
    decreases items, items.len() - idx,
{
    if idx >= items.len() {
        Seq::<CommandV>::empty()
    } else {
        match items[idx as int] {
            FrameV::Array(child) => {
                proof {
                    assert(decreases_to!(items => items[idx as int]));
                    assert(decreases_to!(items[idx as int] => child));
                }
                spec_parse_items(child, 0, now) + spec_parse_items(items, idx + 1, now)
            }
            FrameV::NullBulk => spec_parse_items(items, idx + 1, now),
            FrameV::Simple(s) => {
                let r = spec_verb_step(items, idx, s, now);
                if r.1 == 0 || idx + r.1 > items.len() {
                    r.0
                } else {
                    r.0 + spec_parse_items(items, idx + r.1, now)
                }
            }
            FrameV::Bulk(s) => {
                let r = spec_verb_step(items, idx, s, now);
                if r.1 == 0 || idx + r.1 > items.len() {
                    r.0
                } else {
                    r.0 + spec_parse_items(items, idx + r.1, now)
                }
            }
        }
    }
}

/// Commands recognized across a sequence of top-level frames: each array
/// contributes its commands in order; other top-level frames contribute
/// nothing.
pub open spec fn spec_parse_tops(frames: Seq<FrameV>, now: u64) -> Seq<CommandV>
    decreases frames,
{
    if frames.len() == 0 {
        Seq::<CommandV>::empty()
    } else {
        (match frames[0] {
            FrameV::Array(child) => spec_parse_items(child, 0, now),
            _ => Seq::<CommandV>::empty(),
        }) + spec_parse_tops(frames.drop_first(), now)
    }
}

/// What a whole request buffer deserializes to at instant `now`.
pub open spec fn spec_deserialize(req: Seq<u8>, now: u64) -> Seq<CommandV> {
    spec_parse_tops(spec_decode_all(req, 0), now)
}

/// The commands a single optional command stands for.
pub open spec fn cmd_opt_view(c: Option<Command>) -> Seq<CommandV> {
    match c {
        Some(c) => seq![c@],
        None => Seq::<CommandV>::empty(),
    }
}

fn arg_at(items: &Vec<Frame>, base: usize, off: usize) -> (r: Option<Vec<u8>>)
    ensures
        match r {
            Some(v) => str_at(frames_view(items@), base as nat + off as nat) == Some(v@),
            None => str_at(frames_view(items@), base as nat + off as nat) is None,
        },
{
    proof {
        lemma_frames_view(items@);
    }
    if off >= items.len() || base >= items.len() - off {
        return None;
    }
    let j = base + off;
    match &items[j] {
        Frame::Simple(s) => Some(clone_vec(s)),
        Frame::Bulk(s) => Some(clone_vec(s)),
        Frame::NullBulk => None,
        Frame::Array(child) => None,
    }
}

fn verb_step(items: &Vec<Frame>, idx: usize, tok: &Vec<u8>, now: u64) -> (r: (
    Option<Command>,
    usize,
))
    requires
        idx < items@.len(),
    ensures
        ({
            let step = spec_verb_step(frames_view(items@), idx as nat, tok@, now);
            cmd_opt_view(r.0) == step.0 && r.1 == step.1 && (r.1 == 0 || idx + r.1
                <= items@.len())
        }),
{
    proof {
        lemma_frames_view(items@);
    }
    let ghost views = frames_view(items@);
    if eq_ignore_case(tok, &lit_vec("PING")) {
        (Some(Command::Ping), 1)
    } else if eq_ignore_case(tok, &lit_vec("ECHO")) {
        match arg_at(items, idx, 1) {
            Some(m) => (Some(Command::Echo(m)), 2),
            None => (None, 0),
        }
    } else if eq_ignore_case(tok, &lit_vec("GET")) {
        match arg_at(items, idx, 1) {
            Some(k) => (Some(Command::Get(k)), 2),
            None => (None, 0),
        }
    } else if eq_ignore_case(tok, &lit_vec("SET")) {
        let k = match arg_at(items, idx, 1) {
            Some(k) => k,
            None => {
                return (None, 0);
            }
        };
        let v = match arg_at(items, idx, 2) {
            Some(v) => v,
            None => {
                return (None, 0);
            }
        };
        match arg_at(items, idx, 3) {
            Some(t) => {
                if eq_ignore_case(&t, &lit_vec("PX")) {
                    match arg_at(items, idx, 4) {
                        Some(p) => {
                            match parse_dec(&p, 0, p.len()) {
                                Some(px) => {
                                    assert(p@.subrange(0, p@.len() as int) =~= p@);
                                    let exp = if px > u64::MAX - now {
                                        None
                                    } else {
                                        Some(SetExpiry { px_ms: px, at_ms: now + px })
                                    };
                                    (Some(Command::SetCmd(k, v, exp)), 5)
                                }
                                None => {
                                    assert(p@.subrange(0, p@.len() as int) =~= p@);
                                    (None, 0)
                                }
                            }
                        }
                        None => (None, 0),
                    }
                } else {
                    (Some(Command::SetCmd(k, v, None)), 3)
                }
            }
            None => (Some(Command::SetCmd(k, v, None)), 3),
        }
    } else if eq_ignore_case(tok, &lit_vec("CONFIG")) {
        match arg_at(items, idx, 1) {
            Some(c) => {
                if eq_ignore_case(&c, &lit_vec("GET")) {
                    match arg_at(items, idx, 2) {
                        Some(p) => (Some(Command::ConfigGet(p)), 3),
                        None => (None, 0),
                    }
                } else {
                    (None, 2)
                }
            }
            None => (None, 0),
        }
    } else if eq_ignore_case(tok, &lit_vec("KEYS")) {
        match arg_at(items, idx, 1) {
            Some(p) => (Some(Command::Keys(p)), 2),
            None => (None, 0),
        }
    } else if eq_ignore_case(tok, &lit_vec("INFO")) {
        match arg_at(items, idx, 1) {
            Some(sec) => {
                if eq_ignore_case(&sec, &lit_vec("replication")) {
                    (Some(Command::Info(sec)), 2)
                } else {
                    (Some(Command::Info(lit_vec("all"))), 2)
                }
            }
            None => (Some(Command::Info(lit_vec("all"))), 1),
        }
    } else if eq_ignore_case(tok, &lit_vec("REPLCONF")) {
        let k = match arg_at(items, idx, 1) {
            Some(k) => k,
            None => {
                return (None, 0);
            }
        };
        match arg_at(items, idx, 2) {
            Some(v) => (Some(Command::ReplConf(k, v)), 3),
            None => (None, 0),
        }
    } else if eq_ignore_case(tok, &lit_vec("PSYNC")) {
        let k = match arg_at(items, idx, 1) {
            Some(k) => k,
            None => {
                return (None, 0);
            }
        };
        match arg_at(items, idx, 2) {
            Some(v) => (Some(Command::Psync(k, v)), 3),
            None => (None, 0),
        }
    } else {
        (None, 1)
    }
}

impl Command {
    /// Recognizes the commands inside one frame array, walking nested
    /// arrays recursively.
    pub fn parse_req(items: &Vec<Frame>, now: u64) -> (r: Vec<Command>)
        ensures
            cmds_view(r@) == spec_parse_items(frames_view(items@), 0, now),
        decreases items@,
    {
        let ghost views = frames_view(items@);
        proof {
            lemma_frames_view(items@);
        }
        let mut out: Vec<Command> = Vec::new();
        let mut idx: usize = 0;
        assert(cmds_view(out@) =~= Seq::<CommandV>::empty());
        while idx < items.len()
            invariant
                0 <= idx <= items@.len(),
                views == frames_view(items@),
                views.len() == items@.len(),
                forall|j: int| 0 <= j < items@.len() ==> views[j] == frame_view(items@[j]),
                spec_parse_items(views, 0, now) == cmds_view(out@) + spec_parse_items(
                    views,
                    idx as nat,
                    now,
                ),
            decreases items@.len() - idx,
        {
            match &items[idx] {
                Frame::Array(child) => {
                    proof {
                        assert(decreases_to!(items@ => items@[idx as int]));
                        assert(decreases_to!(items@[idx as int] => *child));
                        assert(decreases_to!(*child => child@));
                        assert(decreases_to!(items@ => child@));
                    }
                    let mut sub = Command::parse_req(child, now);
                    let ghost sub_snap = sub@;
                    let ghost prev = out@;
                    out.append(&mut sub);
                    proof {
                        assert(out@ =~= prev + sub_snap);
                        lemma_cmds_view_concat(prev, sub_snap);
                        assert(views[idx as int] == FrameV::Array(frames_view(child@)));
                        assert(spec_parse_items(views, idx as nat, now) == spec_parse_items(
                            frames_view(child@),
                            0,
                            now,
                        ) + spec_parse_items(views, idx as nat + 1, now));
                        assert(cmds_view(out@) + spec_parse_items(views, idx as nat + 1, now)
                            =~= (cmds_view(prev) + spec_parse_items(views, idx as nat, now)));
                    }
                    idx += 1;
                }
                Frame::NullBulk => {
                    proof {
                        assert(views[idx as int] == FrameV::NullBulk);
                    }
                    idx += 1;
                }
                Frame::Simple(s) => {
                    proof {
                        assert(views[idx as int] == FrameV::Simple(s@));
                    }
                    let step = verb_step(items, idx, s, now);
                    if step.1 == 0 {
                        proof {
                            assert(spec_parse_items(views, idx as nat, now) =~= Seq::<
                                CommandV,
                            >::empty());
                            assert(cmds_view(out@) + spec_parse_items(views, idx as nat, now)
                                =~= cmds_view(out@));
                        }
                        return out;
                    }
                    let ghost prev = out@;
                    match step.0 {
                        Some(c) => {
                            out.push(c);
                            proof {
                                assert(out@.drop_last() =~= prev);
                                assert(cmds_view(out@) =~= cmds_view(prev).push(out@.last()@));
                            }
                        }
                        None => {}
                    }
                    proof {
                        let vstep = spec_verb_step(views, idx as nat, s@, now);
                        assert(spec_parse_items(views, idx as nat, now) == vstep.0
                            + spec_parse_items(views, idx as nat + vstep.1, now));
                        assert(cmds_view(out@) =~= cmds_view(prev) + vstep.0);
                        assert(cmds_view(out@) + spec_parse_items(
                            views,
                            idx as nat + vstep.1,
                            now,
                        ) =~= cmds_view(prev) + spec_parse_items(views, idx as nat, now));
                    }
                    idx += step.1;
                }
                Frame::Bulk(s) => {
                    proof {
                        assert(views[idx as int] == FrameV::Bulk(s@));
                    }
                    let step = verb_step(items, idx, s, now);
                    if step.1 == 0 {
                        proof {
                            assert(spec_parse_items(views, idx as nat, now) =~= Seq::<
                                CommandV,
                            >::empty());
                            assert(cmds_view(out@) + spec_parse_items(views, idx as nat, now)
                                =~= cmds_view(out@));
                        }
                        return out;
                    }
                    let ghost prev = out@;
                    match step.0 {
                        Some(c) => {
                            out.push(c);
                            proof {
                                assert(out@.drop_last() =~= prev);
                                assert(cmds_view(out@) =~= cmds_view(prev).push(out@.last()@));
                            }
                        }
                        None => {}
                    }
                    proof {
                        let vstep = spec_verb_step(views, idx as nat, s@, now);
                        assert(spec_parse_items(views, idx as nat, now) == vstep.0
                            + spec_parse_items(views, idx as nat + vstep.1, now));
                        assert(cmds_view(out@) =~= cmds_view(prev) + vstep.0);
                        assert(cmds_view(out@) + spec_parse_items(
                            views,
                            idx as nat + vstep.1,
                            now,
                        ) =~= cmds_view(prev) + spec_parse_items(views, idx as nat, now));
                    }
                    idx += step.1;
                }
            }
        }
        proof {
            assert(spec_parse_items(views, idx as nat, now) =~= Seq::<CommandV>::empty());
            assert(cmds_view(out@) + spec_parse_items(views, idx as nat, now) =~= cmds_view(
                out@,
            ));
        }
        out
    }

    /// Decodes a request buffer and recognizes every command in it, in
    /// order, reading `PX` offsets against the clock instant `now`.
    pub fn deserialize(req: &Vec<u8>, now: u64) -> (r: Vec<Command>)
        ensures
            cmds_view(r@) == spec_deserialize(req@, now),
    {
        let tops = decode_all(req);
        Command::parse_tops(&tops, now)
    }

    /// Like [`Command::deserialize`], and also reports how many bytes the
    /// complete frames covered, so a caller reading a socket can keep an
    /// incomplete tail and grow it with the next read.
    pub fn deserialize_prefix(req: &Vec<u8>, now: u64) -> (r: (Vec<Command>, usize))
        ensures
            cmds_view(r.0@) == spec_deserialize(req@, now),
            r.1 as nat == crate::resp::spec_decode_end(req@, 0),
            r.1 <= req.len(),
    {
        let (tops, used) = crate::resp::decode_prefix(req);
        (Command::parse_tops(&tops, now), used)
    }

    /// Recognizes the commands across a run of top-level frames.
    fn parse_tops(tops: &Vec<Frame>, now: u64) -> (r: Vec<Command>)
        ensures
            cmds_view(r@) == spec_parse_tops(frames_view(tops@), now),
    {
        let ghost tviews = frames_view(tops@);
        proof {
            lemma_frames_view(tops@);
        }
        let mut out: Vec<Command> = Vec::new();
        let mut i: usize = 0;
        assert(tviews.skip(0) =~= tviews);
        assert(cmds_view(out@) =~= Seq::<CommandV>::empty());
        while i < tops.len()
            invariant
                0 <= i <= tops@.len(),
                tviews == frames_view(tops@),
                tviews.len() == tops@.len(),
                forall|j: int| 0 <= j < tops@.len() ==> tviews[j] == frame_view(tops@[j]),
                spec_parse_tops(tviews, now) == cmds_view(out@) + spec_parse_tops(
                    tviews.skip(i as int),
                    now,
                ),
            decreases tops@.len() - i,
        {
            proof {
                assert(tviews.skip(i as int)[0] == tviews[i as int]);
                assert(tviews.skip(i as int).drop_first() =~= tviews.skip(i as int + 1));
            }
            match &tops[i] {
                Frame::Array(child) => {
                    let mut sub = Command::parse_req(child, now);
                    let ghost sub_snap = sub@;
                    let ghost prev = out@;
                    out.append(&mut sub);
                    proof {
                        assert(out@ =~= prev + sub_snap);
                        lemma_cmds_view_concat(prev, sub_snap);
                        assert(tviews[i as int] == FrameV::Array(frames_view(child@)));
                        assert(cmds_view(out@) + spec_parse_tops(tviews.skip(i as int + 1), now)
                            =~= cmds_view(prev) + spec_parse_tops(tviews.skip(i as int), now));
                    }
                }
                _ => {
                    proof {
                        assert(!(tviews[i as int] is Array));
                        assert(spec_parse_tops(tviews.skip(i as int), now) == Seq::<
                            CommandV,
                        >::empty() + spec_parse_tops(tviews.skip(i as int + 1), now));
                        assert(cmds_view(out@) + spec_parse_tops(tviews.skip(i as int + 1), now)
                            =~= cmds_view(out@) + spec_parse_tops(tviews.skip(i as int), now));
                    }
                }
            }
            i += 1;
        }
        proof {
            assert(tviews.skip(i as int) =~= Seq::<FrameV>::empty());
            assert(spec_parse_tops(tviews.skip(i as int), now) =~= Seq::<CommandV>::empty());
            assert(cmds_view(out@) + spec_parse_tops(tviews.skip(i as int), now) =~= cmds_view(
                out@,
            ));
        }
        out
    }
}

/// The frames of a command's canonical wire form: a bulk-string array,
/// verb first, then the arguments; a write with an expiry carries its
/// relative `PX` count.
pub open spec fn spec_cmd_frames(c: CommandV) -> Seq<FrameV> {
    match c {
        CommandV::Ping => seq![FrameV::Bulk(str_bytes("PING"))],
        CommandV::Echo(m) => seq![FrameV::Bulk(str_bytes("ECHO")), FrameV::Bulk(m)],
        CommandV::Get(k) => seq![FrameV::Bulk(str_bytes("GET")), FrameV::Bulk(k)],
        CommandV::SetCmd(k, v, e) => match e {
            None => seq![
                FrameV::Bulk(str_bytes("SET")),
                FrameV::Bulk(k),
                FrameV::Bulk(v),
            ],
            Some(x) => seq![
                FrameV::Bulk(str_bytes("SET")),
                FrameV::Bulk(k),
                FrameV::Bulk(v),
                FrameV::Bulk(str_bytes("PX")),
                FrameV::Bulk(dec_of(x.px_ms as nat)),
            ],
        },
        CommandV::ConfigGet(p) => seq![
            FrameV::Bulk(str_bytes("CONFIG")),
            FrameV::Bulk(str_bytes("GET")),
            FrameV::Bulk(p),
        ],
        CommandV::Keys(p) => seq![FrameV::Bulk(str_bytes("KEYS")), FrameV::Bulk(p)],
        CommandV::Info(s) => seq![FrameV::Bulk(str_bytes("INFO")), FrameV::Bulk(s)],
        CommandV::ReplConf(k, v) => seq![
            FrameV::Bulk(str_bytes("REPLCONF")),
            FrameV::Bulk(k),
            FrameV::Bulk(v),
        ],
        CommandV::Psync(k, v) => seq![
            FrameV::Bulk(str_bytes("PSYNC")),
            FrameV::Bulk(k),
            FrameV::Bulk(v),
        ],
    }
}

/// A command's canonical wire form: the serialized bulk-string array.
pub open spec fn spec_serialize(c: CommandV) -> Seq<u8> {
    crate::resp::encode_frame(FrameV::Array(spec_cmd_frames(c)))
}

impl Command {
    /// Serializes the command to its canonical wire form.
    pub fn serialize(&self) -> (r: Vec<u8>)
        ensures
            r@ == spec_serialize(self@),
    {
        let mut fs: Vec<Frame> = Vec::new();
        match self {
            Command::Ping => {
                fs.push(Frame::Bulk(lit_vec("PING")));
            }
            Command::Echo(m) => {
                fs.push(Frame::Bulk(lit_vec("ECHO")));
                fs.push(Frame::Bulk(clone_vec(m)));
            }
            Command::Get(k) => {
                fs.push(Frame::Bulk(lit_vec("GET")));
                fs.push(Frame::Bulk(clone_vec(k)));
            }
            Command::SetCmd(k, v, e) => {
                fs.push(Frame::Bulk(lit_vec("SET")));
                fs.push(Frame::Bulk(clone_vec(k)));
                fs.push(Frame::Bulk(clone_vec(v)));
                match e {
                    Some(x) => {
                        fs.push(Frame::Bulk(lit_vec("PX")));
                        fs.push(Frame::Bulk(crate::bytes::render_dec(x.px_ms)));
                    }
                    None => {}
                }
            }
            Command::ConfigGet(p) => {
                fs.push(Frame::Bulk(lit_vec("CONFIG")));
                fs.push(Frame::Bulk(lit_vec("GET")));
                fs.push(Frame::Bulk(clone_vec(p)));
            }
            Command::Keys(p) => {
                fs.push(Frame::Bulk(lit_vec("KEYS")));
                fs.push(Frame::Bulk(clone_vec(p)));
            }
            Command::Info(s) => {
                fs.push(Frame::Bulk(lit_vec("INFO")));
                fs.push(Frame::Bulk(clone_vec(s)));
            }
            Command::ReplConf(k, v) => {
                fs.push(Frame::Bulk(lit_vec("REPLCONF")));
                fs.push(Frame::Bulk(clone_vec(k)));
                fs.push(Frame::Bulk(clone_vec(v)));
            }
            Command::Psync(k, v) => {
                fs.push(Frame::Bulk(lit_vec("PSYNC")));
                fs.push(Frame::Bulk(clone_vec(k)));
                fs.push(Frame::Bulk(clone_vec(v)));
            }
        }
        proof {
            lemma_frames_view(fs@);
            assert(frames_view(fs@) =~~= spec_cmd_frames(self@));
        }
        let frame = Frame::Array(fs);
        encode(&frame)
    }
}

} // verus!
