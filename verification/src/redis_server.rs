//! The server core: identity and role, the command dispatcher over the
//! keyspace and config map, the replica handshake state machine, and the
//! write fan-out a primary performs.
//!
//! Everything here is plain logic from values to values: the caller reads
//! sockets and the clock, hands bytes and instants in, and writes the
//! returned bytes out.

use vstd::prelude::*;

use crate::bytes::{bytes_eq, clone_vec, dec_of, eq_ignore_case, lit_vec, push_dec, str_bytes};
use crate::redis_commands::{is_word, spec_serialize, Command, CommandV};
use crate::resp::{
    crlf, encode, encode_frame, frames_view, lemma_frames_view, Frame, FrameV, DOLLAR,
};
use crate::store::{
    spec_get_exps, spec_get_result, spec_get_vals, spec_set_exps, spec_set_vals, Keyspace,
};

verus! {

/// Whether this process serves clients and ships writes, or follows a
/// primary.
#[derive(Clone, Copy, PartialEq, Eq, Structural, Debug)]
pub enum Role {
    Primary,
    Replica,
}

/// The wire name of a role.
pub open spec fn spec_role_name(r: Role) -> Seq<u8> {
    match r {
        Role::Primary => str_bytes("master"),
        Role::Replica => str_bytes("slave"),
    }
}

impl Role {
    /// The wire name of the role, `master` or `slave`.
    pub fn name(&self) -> (r: Vec<u8>)
        ensures
            r@ == spec_role_name(*self),
    {
        match self {
            Role::Primary => lit_vec("master"),
            Role::Replica => lit_vec("slave"),
        }
    }
}

/// What the command line asked for.
pub struct RedisCliArgs {
    pub dir: Option<Vec<u8>>,
    pub file_name: Option<Vec<u8>>,
    pub port: Vec<u8>,
    pub master_host: Option<Vec<u8>>,
    pub master_port: Option<Vec<u8>>,
    pub role: Role,
}

/// The number of space bytes in a byte run.
pub open spec fn space_count(s: Seq<u8>) -> int
    decreases s.len(),
{
    if s.len() == 0 {
        0
    } else {
        space_count(s.drop_last()) + if s.last() == 32 {
            1int
        } else {
            0int
        }
    }
}

/// Splits a `HOST PORT` argument at its single space; any other number
/// of spaces is rejected.
pub fn split_host_port(s: &Vec<u8>) -> (r: Option<(Vec<u8>, Vec<u8>)>)
    ensures
        match r {
            Some((h, p)) => space_count(s@) == 1 && h@ + seq![32u8] + p@ == s@,
            None => space_count(s@) != 1,
        },
{
    let mut i: usize = 0;
    let mut sp: usize = 0;
    let mut count: usize = 0;
    while i < s.len()
        invariant
            0 <= i <= s.len(),
            count == space_count(s@.take(i as int)),
            count <= i,
            count >= 1 ==> (sp < i && s@[sp as int] == 32 && space_count(
                s@.take(sp as int + 1),
            ) == 1),
        decreases s.len() - i,
    {
        proof {
            assert(s@.take(i as int + 1).drop_last() =~= s@.take(i as int));
        }
        if s[i] == 32 {
            if count == 0 {
                sp = i;
            }
            count += 1;
        }
        i += 1;
    }
    proof {
        assert(s@.take(s@.len() as int) =~= s@);
    }
    if count != 1 {
        return None;
    }
    let h = crate::bytes::copy_range(s, 0, sp);
    let p = crate::bytes::copy_range(s, sp + 1, s.len());
    proof {
        assert(h@ + seq![32u8] + p@ =~= s@);
    }
    Some((h, p))
}

/// The stable replication id a primary advertises.
pub open spec fn spec_replid() -> Seq<u8> {
    str_bytes("8371b4fb1155b71f4a04d3e1bc3e18c4a990aeeb")
}

/// The server's state: keyspace, config map, identity, and replication
/// coordinates. Sockets stay with the caller.
pub struct Redis {
    pub db: Keyspace,
    pub config: Keyspace,
    pub role: Role,
    pub port: Vec<u8>,
    pub replid: Option<Vec<u8>>,
    pub repl_offset: Option<u64>,
    pub master_host: Option<Vec<u8>>,
    pub master_port: Option<Vec<u8>>,
}

impl Redis {
    /// Both maps are well formed; a primary has its replication id set, a
    /// replica has none; the offset is always tracked.
    pub open spec fn wf(self) -> bool {
        &&& self.db.wf()
        &&& self.config.wf()
        &&& match self.role {
            Role::Primary => self.replid matches Some(id) && id@ == spec_replid(),
            Role::Replica => self.replid is None,
        }
        &&& self.repl_offset is Some
    }

    /// A fresh server: empty keyspace; the config map carries `dir` and
    /// `file_name` when both were given; a primary is born with the
    /// replication id and offset zero.
    pub fn new(cli_args: RedisCliArgs) -> (r: Redis)
        ensures
            r.wf(),
            r.role == cli_args.role,
            r.port@ == cli_args.port@,
            r.repl_offset == Some(0u64),
            r.db.vals() == Map::<Seq<u8>, Seq<u8>>::empty(),
            r.db.exps() == Map::<Seq<u8>, u64>::empty(),
            match (cli_args.dir, cli_args.file_name) {
                (Some(d), Some(f)) => r.config.vals() == Map::<Seq<u8>, Seq<u8>>::empty().insert(
                    str_bytes("dir"),
                    d@,
                ).insert(str_bytes("file_name"), f@),
                _ => r.config.vals() == Map::<Seq<u8>, Seq<u8>>::empty(),
            },
            match cli_args.master_host {
                Some(h) => r.master_host matches Some(h2) && h2@ == h@,
                None => r.master_host is None,
            },
            match cli_args.master_port {
                Some(p) => r.master_port matches Some(p2) && p2@ == p@,
                None => r.master_port is None,
            },
    {
        let mut config = Keyspace::new();
        let has_both = cli_args.dir.is_some() && cli_args.file_name.is_some();
        let (dir, file_name) = (cli_args.dir, cli_args.file_name);
        if has_both {
            let d = match dir {
                Some(d) => d,
                None => Vec::new(),
            };
            let f = match file_name {
                Some(f) => f,
                None => Vec::new(),
            };
            config.set(&lit_vec("dir"), d, None);
            config.set(&lit_vec("file_name"), f, None);
        }
        let replid = match cli_args.role {
            Role::Primary => Some(lit_vec("8371b4fb1155b71f4a04d3e1bc3e18c4a990aeeb")),
            Role::Replica => None,
        };
        Redis {
            db: Keyspace::new(),
            config,
            role: cli_args.role,
            port: cli_args.port,
            replid,
            repl_offset: Some(0),
            master_host: cli_args.master_host,
            master_port: cli_args.master_port,
        }
    }

    /// Installs a keyspace read from a snapshot in place of the empty one.
    pub fn install_keyspace(&mut self, ks: Keyspace)
        requires
            old(self).wf(),
            ks.wf(),
        ensures
            final(self).wf(),
            final(self).db == ks,
            final(self).config == old(self).config,
            final(self).role == old(self).role,
            final(self).port == old(self).port,
            final(self).replid == old(self).replid,
            final(self).repl_offset == old(self).repl_offset,
            final(self).master_host == old(self).master_host,
            final(self).master_port == old(self).master_port,
    {
        self.db = ks;
    }
}

/// The payload of the `INFO` reply: the replication section header, the
/// role line, and, where present, the replication id and offset lines.
pub open spec fn spec_info_payload(
    role: Role,
    replid: Option<Vec<u8>>,
    offset: Option<u64>,
) -> Seq<u8> {
    str_bytes("# Replication \r\nrole:") + spec_role_name(role) + crlf() + (match replid {
        Some(id) => str_bytes("master_replid:") + id@ + crlf(),
        None => Seq::<u8>::empty(),
    }) + (match offset {
        Some(o) => str_bytes("master_repl_offset:") + dec_of(o as nat) + crlf(),
        None => Seq::<u8>::empty(),
    })
}

/// The `FULLRESYNC` line a primary answers a `PSYNC` with.
pub open spec fn spec_fullresync_line(replid: Seq<u8>, offset: u64) -> Seq<u8> {
    str_bytes("FULLRESYNC ") + replid + seq![32u8] + dec_of(offset as nat)
}

/// Bulk-string frames for a list of keys.
pub open spec fn bulks_of(kl: Seq<Seq<u8>>) -> Seq<FrameV> {
    Seq::new(kl.len(), |i: int| FrameV::Bulk(kl[i]))
}

/// A faithful enumeration of a value map's keys: each listed key is in
/// the map, every key of the map is listed, and no key twice.
pub open spec fn lists_keys_of(kl: Seq<Seq<u8>>, vals: Map<Seq<u8>, Seq<u8>>) -> bool {
    &&& forall|i: int| 0 <= i < kl.len() ==> vals.contains_key(#[trigger] kl[i])
    &&& forall|k: Seq<u8>|
        vals.contains_key(k) ==> exists|i: int| 0 <= i < kl.len() && kl[i] == k
    &&& forall|i: int, j: int| 0 <= i < j < kl.len() ==> kl[i] != kl[j]
}

/// What the dispatcher handed back: the reply to write, whether the
/// command is a write to fan out to replicas, and whether a full resync
/// (the snapshot transfer) must follow the reply.
pub struct ExecOutcome {
    pub reply: Vec<u8>,
    pub replicate: bool,
    pub full_resync: bool,
}

impl Redis {
    /// Dispatches one command at clock instant `now`: mutates the keyspace
    /// for reads (lazy expiry) and writes, and renders the reply.
    pub fn execute(&mut self, command: &Command, now: u64) -> (r: ExecOutcome)
        requires
            old(self).wf(),
        ensures
            final(self).wf(),
            final(self).config == old(self).config,
            final(self).role == old(self).role,
            final(self).port == old(self).port,
            final(self).replid == old(self).replid,
            final(self).repl_offset == old(self).repl_offset,
            final(self).master_host == old(self).master_host,
            final(self).master_port == old(self).master_port,
            final(self).db.vals() == match command@ {
                CommandV::Get(k) => spec_get_vals(
                    old(self).db.vals(),
                    old(self).db.exps(),
                    k,
                    now,
                ),
                CommandV::SetCmd(k, v, e) => spec_set_vals(old(self).db.vals(), k, v),
                _ => old(self).db.vals(),
            },
            final(self).db.exps() == match command@ {
                CommandV::Get(k) => spec_get_exps(old(self).db.exps(), k, now),
                CommandV::SetCmd(k, v, e) => spec_set_exps(
                    old(self).db.exps(),
                    k,
                    match e {
                        Some(x) => Some(x.at_ms),
                        None => None,
                    },
                ),
                _ => old(self).db.exps(),
            },
            r.replicate == (command@ is SetCmd),
            r.full_resync == (command@ is Psync && old(self).role == Role::Primary),
            match command@ {
                CommandV::Echo(m) => r.reply@ == encode_frame(FrameV::Bulk(m)),
                CommandV::Ping => r.reply@ == encode_frame(FrameV::Bulk(str_bytes("PONG"))),
                CommandV::Get(k) => r.reply@ == match spec_get_result(
                    old(self).db.vals(),
                    old(self).db.exps(),
                    k,
                    now,
                ) {
                    Some(v) => encode_frame(FrameV::Bulk(v)),
                    None => encode_frame(FrameV::NullBulk),
                },
                CommandV::SetCmd(k, v, e) => r.reply@ == encode_frame(
                    FrameV::Simple(str_bytes("OK")),
                ),
                CommandV::ConfigGet(p) => r.reply@ == (if old(self).config.vals().contains_key(
                    p,
                ) {
                    encode_frame(
                        FrameV::Array(
                            seq![FrameV::Bulk(p), FrameV::Bulk(old(self).config.vals()[p])],
                        ),
                    )
                } else {
                    encode_frame(FrameV::NullBulk)
                }),
                CommandV::Keys(pat) => exists|kl: Seq<Seq<u8>>|
                    lists_keys_of(kl, old(self).db.vals()) && r.reply@ == encode_frame(
                        FrameV::Array(bulks_of(kl)),
                    ),
                CommandV::Info(sec) => r.reply@ == (if is_word(sec, "replication") || sec
                    == str_bytes("all") {
                    encode_frame(
                        FrameV::Bulk(
                            spec_info_payload(
                                old(self).role,
                                old(self).replid,
                                old(self).repl_offset,
                            ),
                        ),
                    )
                } else {
                    encode_frame(FrameV::NullBulk)
                }),
                CommandV::ReplConf(f, v) => r.reply@ == encode_frame(
                    FrameV::Simple(str_bytes("OK")),
                ),
                CommandV::Psync(id, off) => r.reply@ == (match old(self).role {
                    Role::Primary => encode_frame(
                        FrameV::Simple(
                            spec_fullresync_line(
                                old(self).replid->0@,
                                old(self).repl_offset->0,
                            ),
                        ),
                    ),
                    Role::Replica => encode_frame(FrameV::NullBulk),
                }),
            },
    {
        let mut replicate = false;
        let mut full_resync = false;
        let reply: Vec<u8> = match command {
            Command::Echo(m) => encode(&Frame::Bulk(clone_vec(m))),
            Command::Ping => encode(&Frame::Bulk(lit_vec("PONG"))),
            Command::Get(k) => {
                match self.db.get(k, now) {
                    Some(v) => encode(&Frame::Bulk(v)),
                    None => encode(&Frame::NullBulk),
                }
            }
            Command::SetCmd(k, v, e) => {
                let at = match e {
                    Some(x) => Some(x.at_ms),
                    None => None,
                };
                self.db.set(k, clone_vec(v), at);
                replicate = true;
                encode(&Frame::Simple(lit_vec("OK")))
            }
            Command::ConfigGet(p) => {
                match self.config.lookup(p) {
                    Some(v) => {
                        let mut items: Vec<Frame> = Vec::new();
                        items.push(Frame::Bulk(clone_vec(p)));
                        items.push(Frame::Bulk(v));
                        let frame = Frame::Array(items);
                        proof {
                            lemma_frames_view(frame->Array_0@);
                            assert(frames_view(frame->Array_0@) =~= seq![
                                FrameV::Bulk(p@),
                                FrameV::Bulk(self.config.vals()[p@]),
                            ]);
                        }
                        encode(&frame)
                    }
                    None => encode(&Frame::NullBulk),
                }
            }
            Command::Keys(_pat) => {
                let keys = self.db.keys();
                let ghost kl = Seq::new(keys@.len(), |i: int| keys@[i]@);
                let mut items: Vec<Frame> = Vec::new();
                let mut i: usize = 0;
                while i < keys.len()
                    invariant
                        0 <= i <= keys@.len(),
                        kl == Seq::new(keys@.len(), |j: int| keys@[j]@),
                        items@.len() == i,
                        forall|j: int|
                            0 <= j < i ==> #[trigger] items@[j]@ == FrameV::Bulk(keys@[j]@),
                    decreases keys@.len() - i,
                {
                    items.push(clone_frame_bulk(&keys[i]));
                    i += 1;
                }
                let ghost items_snap = items@;
                let frame = Frame::Array(items);
                proof {
                    assert(frame->Array_0@ == items_snap);
                    lemma_frames_view(items_snap);
                    assert(kl.len() == items_snap.len());
                    assert forall|j: int| 0 <= j < kl.len() implies frames_view(items_snap)[j]
                        == bulks_of(kl)[j] by {
                        assert(frames_view(items_snap)[j] == crate::resp::frame_view(
                            items_snap[j],
                        ));
                        assert(items_snap[j]@ == FrameV::Bulk(keys@[j]@));
                        assert(kl[j] == keys@[j]@);
                    }
                    assert(frames_view(items_snap) =~= bulks_of(kl));
                    assert(lists_keys_of(kl, old(self).db.vals())) by {
                        assert(forall|j: int|
                            0 <= j < kl.len() ==> kl[j] == #[trigger] keys@[j]@);
                        assert forall|k2: Seq<u8>|
                            old(self).db.vals().contains_key(k2) implies exists|j: int|
                            0 <= j < kl.len() && kl[j] == k2 by {
                            let j = choose|j: int| 0 <= j < keys@.len() && keys@[j]@ == k2;
                            assert(kl[j] == k2);
                        }
                    }
                }
                encode(&frame)
            }
            Command::Info(sec) => {
                if eq_ignore_case(sec, &lit_vec("replication")) || bytes_eq(sec, &lit_vec("all"))
                {
                    let payload = self.render_info();
                    encode(&Frame::Bulk(payload))
                } else {
                    encode(&Frame::NullBulk)
                }
            }
            Command::ReplConf(_f, _v) => encode(&Frame::Simple(lit_vec("OK"))),
            Command::Psync(_id, _off) => {
                match self.role {
                    Role::Primary => {
                        full_resync = true;
                        let mut line = lit_vec("FULLRESYNC ");
                        let mut id = match &self.replid {
                            Some(id) => clone_vec(id),
                            None => Vec::new(),
                        };
                        line.append(&mut id);
                        line.push(32);
                        let off = match self.repl_offset {
                            Some(o) => o,
                            None => 0,
                        };
                        push_dec(&mut line, off);
                        proof {
                            assert(line@ =~= spec_fullresync_line(
                                old(self).replid->0@,
                                old(self).repl_offset->0,
                            ));
                        }
                        encode(&Frame::Simple(line))
                    }
                    Role::Replica => encode(&Frame::NullBulk),
                }
            }
        };
        ExecOutcome { reply, replicate, full_resync }
    }

    /// Renders the `INFO` replication payload for this server.
    fn render_info(&self) -> (r: Vec<u8>)
        ensures
            r@ == spec_info_payload(self.role, self.replid, self.repl_offset),
    {
        let mut out = lit_vec("# Replication \r\nrole:");
        let mut name = self.role.name();
        out.append(&mut name);
        out.push(13);
        out.push(10);
        match &self.replid {
            Some(id) => {
                let mut part = lit_vec("master_replid:");
                out.append(&mut part);
                let mut idc = clone_vec(id);
                out.append(&mut idc);
                out.push(13);
                out.push(10);
            }
            None => {}
        }
        match self.repl_offset {
            Some(o) => {
                let mut part = lit_vec("master_repl_offset:");
                out.append(&mut part);
                push_dec(&mut out, o);
                out.push(13);
                out.push(10);
            }
            None => {}
        }
        proof {
            assert(out@ =~= spec_info_payload(self.role, self.replid, self.repl_offset));
        }
        out
    }

    /// The command arrays a primary sends its replicas for one write: one
    /// copy of the command's canonical wire form per registered replica.
    pub fn fanout_messages(command: &Command, replicas: usize) -> (r: Vec<Vec<u8>>)
        ensures
            r@.len() == replicas,
            forall|i: int| 0 <= i < r@.len() ==> #[trigger] r@[i]@ == spec_serialize(command@),
    {
        let mut out: Vec<Vec<u8>> = Vec::new();
        let mut i: usize = 0;
        while i < replicas
            invariant
                0 <= i <= replicas,
                out@.len() == i,
                forall|j: int| 0 <= j < i ==> #[trigger] out@[j]@ == spec_serialize(command@),
            decreases replicas - i,
        {
            out.push(command.serialize());
            i += 1;
        }
        out
    }
}

fn clone_frame_bulk(v: &Vec<u8>) -> (r: Frame)
    ensures
        r@ == FrameV::Bulk(v@),
{
    Frame::Bulk(clone_vec(v))
}

/// Where a replica stands in its handshake with the primary: the steps
/// advance strictly in this order, one reply awaited between sends.
#[derive(Clone, Copy, PartialEq, Eq, Structural, Debug)]
pub enum HandshakeState {
    Disconnected,
    PingSent,
    ListeningPortSent,
    CapaSent,
    PsyncSent,
    Streaming,
}

/// The message a replica sends on leaving `state`, if any.
pub open spec fn spec_handshake_msg(state: HandshakeState, port: Seq<u8>) -> Option<Seq<u8>> {
    match state {
        HandshakeState::Disconnected => Some(spec_serialize(CommandV::Ping)),
        HandshakeState::PingSent => Some(
            spec_serialize(CommandV::ReplConf(str_bytes("listening-port"), port)),
        ),
        HandshakeState::ListeningPortSent => Some(
            spec_serialize(CommandV::ReplConf(str_bytes("capa"), str_bytes("psync2"))),
        ),
        HandshakeState::CapaSent => Some(
            spec_serialize(CommandV::Psync(str_bytes("?"), str_bytes("-1"))),
        ),
        HandshakeState::PsyncSent => None,
        HandshakeState::Streaming => None,
    }
}

/// The state a replica reaches after the reply to that message arrives.
pub open spec fn spec_handshake_next(state: HandshakeState) -> HandshakeState {
    match state {
        HandshakeState::Disconnected => HandshakeState::PingSent,
        HandshakeState::PingSent => HandshakeState::ListeningPortSent,
        HandshakeState::ListeningPortSent => HandshakeState::CapaSent,
        HandshakeState::CapaSent => HandshakeState::PsyncSent,
        HandshakeState::PsyncSent => HandshakeState::Streaming,
        HandshakeState::Streaming => HandshakeState::Streaming,
    }
}

/// One step of the replica handshake: the bytes to send from this state
/// (none once `PSYNC` is out) and the state after the awaited reply.
pub fn handshake_step(state: &HandshakeState, port: &Vec<u8>) -> (r: (
    Option<Vec<u8>>,
    HandshakeState,
))
    ensures
        match r.0 {
            Some(m) => spec_handshake_msg(*state, port@) == Some(m@),
            None => spec_handshake_msg(*state, port@) is None,
        },
        r.1 == spec_handshake_next(*state),
{
    match state {
        HandshakeState::Disconnected => {
            let msg = Command::Ping.serialize();
            (Some(msg), HandshakeState::PingSent)
        }
        HandshakeState::PingSent => {
            let cmd = Command::ReplConf(lit_vec("listening-port"), clone_vec(port));
            (Some(cmd.serialize()), HandshakeState::ListeningPortSent)
        }
        HandshakeState::ListeningPortSent => {
            let cmd = Command::ReplConf(lit_vec("capa"), lit_vec("psync2"));
            (Some(cmd.serialize()), HandshakeState::CapaSent)
        }
        HandshakeState::CapaSent => {
            let cmd = Command::Psync(lit_vec("?"), lit_vec("-1"));
            (Some(cmd.serialize()), HandshakeState::PsyncSent)
        }
        HandshakeState::PsyncSent => (None, HandshakeState::Streaming),
        HandshakeState::Streaming => (None, HandshakeState::Streaming),
    }
}

/// The value of a hex digit byte.
pub open spec fn hex_digit_val(b: u8) -> Option<u8> {
    if 48 <= b && b <= 57 {
        Some((b - 48) as u8)
    } else if 97 <= b && b <= 102 {
        Some((b - 87) as u8)
    } else if 65 <= b && b <= 70 {
        Some((b - 55) as u8)
    } else {
        None
    }
}

/// Bytes decoded from a run of hex digits: one byte per digit pair;
/// nothing for an odd count or a byte that is no hex digit.
pub open spec fn spec_hex_decode(s: Seq<u8>) -> Option<Seq<u8>>
    decreases s.len(),
{
    if s.len() == 0 {
        Some(Seq::<u8>::empty())
    } else if s.len() == 1 {
        None
    } else {
        match (hex_digit_val(s[0]), hex_digit_val(s[1])) {
            (Some(h), Some(l)) => match spec_hex_decode(s.skip(2)) {
                Some(rest) => Some(seq![(h * 16 + l) as u8] + rest),
                None => None,
            },
            _ => None,
        }
    }
}

/// Relies on hex::decode: each pair of hex digits (either case) becomes
/// one byte, high digit first; it fails exactly on an odd count or a
/// character that is no hex digit.
#[verifier::external_body]
fn hex_decode(s: &str) -> (r: Result<Vec<u8>, ()>)
    ensures
        match r {
            Ok(b) => spec_hex_decode(str_bytes(s)) == Some(b@),
            Err(()) => spec_hex_decode(str_bytes(s)) is None,
        },
{
    hex::decode(s).map_err(|_| ())
}

/// The empty snapshot image a primary sends on a full resync.
pub open spec fn spec_empty_rdb() -> Seq<u8> {
    match spec_hex_decode(
        str_bytes(
            "524544495330303131fa0972656469732d76657205372e322e30fa0a72656469732d62697473c040fa056374696d65c26d08bc65fa08757365642d6d656dc2b0c41000fa08616f662d62617365c000fff06e3bfec0ff5aa2",
        ),
    ) {
        Some(b) => b,
        None => Seq::<u8>::empty(),
    }
}

/// The bytes of the empty snapshot image.
pub fn empty_rdb_payload() -> (r: Vec<u8>)
    ensures
        r@ == spec_empty_rdb(),
{
    match hex_decode(
        "524544495330303131fa0972656469732d76657205372e322e30fa0a72656469732d62697473c040fa056374696d65c26d08bc65fa08757365642d6d656dc2b0c41000fa08616f662d62617365c000fff06e3bfec0ff5aa2",
    ) {
        Ok(b) => b,
        Err(_) => Vec::new(),
    }
}

/// A snapshot image as sent on the wire after `FULLRESYNC`: bulk-framed
/// by length, with no trailing CRLF after the bytes.
pub open spec fn spec_rdb_transfer(b: Seq<u8>) -> Seq<u8> {
    seq![DOLLAR] + dec_of(b.len()) + crlf() + b
}

/// The full-resync transfer of the empty snapshot: its payload framed as
/// `$<len>\r\n<bytes>`, deliberately without a trailing CRLF.
pub fn empty_rdb_frame() -> (r: Vec<u8>)
    ensures
        r@ == spec_rdb_transfer(spec_empty_rdb()),
{
    let payload = empty_rdb_payload();
    let mut out: Vec<u8> = Vec::new();
    out.push(DOLLAR);
    push_dec(&mut out, payload.len() as u64);
    out.push(13);
    out.push(10);
    let mut p = payload;
    out.append(&mut p);
    proof {
        assert(out@ =~= spec_rdb_transfer(spec_empty_rdb()));
    }
    out
}

} // verus!
