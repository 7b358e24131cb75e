//! A reduced command layer that understands only `PING` and `ECHO`, with
//! its own reply rendering. The full vocabulary lives in
//! [`crate::redis_commands`].

use vstd::prelude::*;

use crate::bytes::{clone_vec, eq_ignore_case, lit_vec, str_bytes};
use crate::redis_commands::{is_word, str_at};
use crate::resp::{
    decode_all, encode, encode_frame, frame_view, frames_view, lemma_frames_view,
    spec_decode_all, Frame, FrameV,
};

verus! {

/// A recognized command: an echo with its message, or a ping.
pub enum Command {
    ECHO(Vec<u8>),
    PING,
}

/// The mathematical shape of a reduced command.
pub enum CommandV {
    ECHO(Seq<u8>),
    PING,
}

impl View for Command {
    type V = CommandV;

    open spec fn view(&self) -> CommandV {
        match self {
            Command::ECHO(m) => CommandV::ECHO(m@),
            Command::PING => CommandV::PING,
        }
    }
}

/// Element-wise view of a sequence of reduced commands.
pub open spec fn legacy_cmds_view(v: Seq<Command>) -> Seq<CommandV>
    decreases v,
{
    if v.len() == 0 {
        Seq::<CommandV>::empty()
    } else {
        legacy_cmds_view(v.drop_last()).push(v.last()@)
    }
}

proof fn lemma_legacy_cmds_view_concat(a: Seq<Command>, b: Seq<Command>)
    ensures
        legacy_cmds_view(a + b) == legacy_cmds_view(a) + legacy_cmds_view(b),
    decreases b,
{
    if b.len() == 0 {
        assert(a + b =~= a);
        assert(legacy_cmds_view(a) + legacy_cmds_view(b) =~= legacy_cmds_view(a));
    } else {
        assert((a + b).drop_last() =~= a + b.drop_last());
        assert((a + b).last() == b.last());
        lemma_legacy_cmds_view_concat(a, b.drop_last());
        assert(legacy_cmds_view(a + b) =~= legacy_cmds_view(a) + legacy_cmds_view(b));
    }
}

/// The reply a reduced command renders: the echoed message, or `PONG`,
/// each as a bulk string.
pub open spec fn spec_execute(c: CommandV) -> Seq<u8> {
    match c {
        CommandV::ECHO(m) => encode_frame(FrameV::Bulk(m)),
        CommandV::PING => encode_frame(FrameV::Bulk(str_bytes("PONG"))),
    }
}

/// The commands a single optional reduced command stands for.
pub open spec fn legacy_cmd_opt_view(c: Option<Command>) -> Seq<CommandV> {
    match c {
        Some(c) => seq![c@],
        None => Seq::<CommandV>::empty(),
    }
}

/// One verb of the reduced vocabulary at `idx` with text `s`: the commands
/// it yields and how many array elements it consumed; zero consumed means
/// an `ECHO` without a message, which fails the parse.
pub open spec fn spec_verb_legacy(items: Seq<FrameV>, idx: nat, s: Seq<u8>) -> (Seq<
    CommandV,
>, nat) {
    if is_word(s, "PING") {
        (seq![CommandV::PING], 1nat)
    } else if is_word(s, "ECHO") {
        match str_at(items, idx + 1) {
            Some(m) => (seq![CommandV::ECHO(m)], 2nat),
            None => (Seq::<CommandV>::empty(), 0nat),
        }
    } else {
        (Seq::<CommandV>::empty(), 1nat)
    }
}

/// Commands recognized in `items` from `idx` on, `PING` and `ECHO` only;
/// a nested array is walked recursively, anything unrecognized is skipped.
pub open spec fn spec_process(items: Seq<FrameV>, idx: nat) -> Seq<CommandV>
    decreases items, items.len() - idx,
{
    if idx >= items.len() {
        Seq::<CommandV>::empty()
    } else {
        match items[idx as int] {
            FrameV::Array(child) => {
                proof {
                    assert(decreases_to!(items => items[idx as int]));
                    assert(decreases_to!(items[idx as int] => child));
                }
                spec_process(child, 0) + spec_process(items, idx + 1)
            }
            FrameV::NullBulk => spec_process(items, idx + 1),
            FrameV::Simple(s) => {
                let r = spec_verb_legacy(items, idx, s);
                if r.1 == 0 || idx + r.1 > items.len() {
                    r.0
                } else {
                    r.0 + spec_process(items, idx + r.1)
                }
            }
            FrameV::Bulk(s) => {
                let r = spec_verb_legacy(items, idx, s);
                if r.1 == 0 || idx + r.1 > items.len() {
                    r.0
                } else {
                    r.0 + spec_process(items, idx + r.1)
                }
            }
        }
    }
}

/// Reduced commands recognized across a sequence of top-level frames.
pub open spec fn spec_parse_tops_legacy(frames: Seq<FrameV>) -> Seq<CommandV>
    decreases frames,
{
    if frames.len() == 0 {
        Seq::<CommandV>::empty()
    } else {
        (match frames[0] {
            FrameV::Array(child) => spec_process(child, 0),
            _ => Seq::<CommandV>::empty(),
        }) + spec_parse_tops_legacy(frames.drop_first())
    }
}

/// What a whole request buffer deserializes to in the reduced vocabulary.
pub open spec fn spec_deserialize_legacy(req: Seq<u8>) -> Seq<CommandV> {
    spec_parse_tops_legacy(spec_decode_all(req, 0))
}

fn verb_step(items: &Vec<Frame>, idx: usize, tok: &Vec<u8>) -> (r: (Option<Command>, usize))
    requires
        idx < items@.len(),
    ensures
        ({
            let step = spec_verb_legacy(frames_view(items@), idx as nat, tok@);
            legacy_cmd_opt_view(r.0) == step.0 && r.1 == step.1 && (r.1 == 0 || idx + r.1
                <= items@.len())
        }),
{
    proof {
        lemma_frames_view(items@);
    }
    if eq_ignore_case(tok, &lit_vec("PING")) {
        (Some(Command::PING), 1)
    } else if eq_ignore_case(tok, &lit_vec("ECHO")) {
        if idx < items.len() - 1 {
            match &items[idx + 1] {
                Frame::Simple(m) => (Some(Command::ECHO(clone_vec(m))), 2),
                Frame::Bulk(m) => (Some(Command::ECHO(clone_vec(m))), 2),
                _ => (None, 0),
            }
        } else {
            (None, 0)
        }
    } else {
        (None, 1)
    }
}

impl Command {
    /// Renders this command's reply bytes.
    pub fn execute(&self) -> (r: Vec<u8>)
        ensures
            r@ == spec_execute(self@),
    {
        match self {
            Command::ECHO(m) => encode(&Frame::Bulk(clone_vec(m))),
            Command::PING => encode(&Frame::Bulk(lit_vec("PONG"))),
        }
    }

    /// Recognizes `PING` and `ECHO` inside one frame array.
    fn process_req(items: &Vec<Frame>) -> (r: Vec<Command>)
        ensures
            legacy_cmds_view(r@) == spec_process(frames_view(items@), 0),
        decreases items@,
    {
        let ghost views = frames_view(items@);
        proof {
            lemma_frames_view(items@);
        }
        let mut out: Vec<Command> = Vec::new();
        let mut idx: usize = 0;
        assert(legacy_cmds_view(out@) =~= Seq::<CommandV>::empty());
        while idx < items.len()
            invariant
                0 <= idx <= items@.len(),
                views == frames_view(items@),
                views.len() == items@.len(),
                forall|j: int| 0 <= j < items@.len() ==> views[j] == frame_view(items@[j]),
                spec_process(views, 0) == legacy_cmds_view(out@) + spec_process(
                    views,
                    idx as nat,
                ),
            decreases items@.len() - idx,
        {
            match &items[idx] {
                Frame::Array(child) => {
                    proof {
                        assert(decreases_to!(items@ => items@[idx as int]));
                        assert(decreases_to!(items@[idx as int] => *child));
                        assert(decreases_to!(*child => child@));
                        assert(decreases_to!(items@ => child@));
                    }
                    let mut sub = Command::process_req(child);
                    let ghost sub_snap = sub@;
                    let ghost prev = out@;
                    out.append(&mut sub);
                    proof {
                        assert(out@ =~= prev + sub_snap);
                        lemma_legacy_cmds_view_concat(prev, sub_snap);
                        assert(views[idx as int] == FrameV::Array(frames_view(child@)));
                        assert(legacy_cmds_view(out@) + spec_process(views, idx as nat + 1)
                            =~= (legacy_cmds_view(prev) + spec_process(views, idx as nat)));
                    }
                    idx += 1;
                }
                Frame::NullBulk => {
                    proof {
                        assert(views[idx as int] == FrameV::NullBulk);
                    }
                    idx += 1;
                }
                Frame::Simple(s) => {
                    proof {
                        assert(views[idx as int] == FrameV::Simple(s@));
                    }
                    let step = verb_step(items, idx, s);
                    if step.1 == 0 {
                        proof {
                            assert(spec_process(views, idx as nat) =~= Seq::<
                                CommandV,
                            >::empty());
                            assert(legacy_cmds_view(out@) + spec_process(views, idx as nat)
                                =~= legacy_cmds_view(out@));
                        }
                        return out;
                    }
                    let ghost prev = out@;
                    match step.0 {
                        Some(c) => {
                            out.push(c);
                            proof {
                                assert(out@.drop_last() =~= prev);
                                assert(legacy_cmds_view(out@) =~= legacy_cmds_view(prev).push(
                                    out@.last()@,
                                ));
                            }
                        }
                        None => {}
                    }
                    proof {
                        let vstep = spec_verb_legacy(views, idx as nat, s@);
                        assert(spec_process(views, idx as nat) == vstep.0 + spec_process(
                            views,
                            idx as nat + vstep.1,
                        ));
                        assert(legacy_cmds_view(out@) =~= legacy_cmds_view(prev) + vstep.0);
                        assert(legacy_cmds_view(out@) + spec_process(
                            views,
                            idx as nat + vstep.1,
                        ) =~= legacy_cmds_view(prev) + spec_process(views, idx as nat));
                    }
                    idx += step.1;
                }
                Frame::Bulk(s) => {
                    proof {
                        assert(views[idx as int] == FrameV::Bulk(s@));
                    }
                    let step = verb_step(items, idx, s);
                    if step.1 == 0 {
                        proof {
                            assert(spec_process(views, idx as nat) =~= Seq::<
                                CommandV,
                            >::empty());
                            assert(legacy_cmds_view(out@) + spec_process(views, idx as nat)
                                =~= legacy_cmds_view(out@));
                        }
                        return out;
                    }
                    let ghost prev = out@;
                    match step.0 {
                        Some(c) => {
                            out.push(c);
                            proof {
                                assert(out@.drop_last() =~= prev);
                                assert(legacy_cmds_view(out@) =~= legacy_cmds_view(prev).push(
                                    out@.last()@,
                                ));
                            }
                        }
                        None => {}
                    }
                    proof {
                        let vstep = spec_verb_legacy(views, idx as nat, s@);
                        assert(spec_process(views, idx as nat) == vstep.0 + spec_process(
                            views,
                            idx as nat + vstep.1,
                        ));
                        assert(legacy_cmds_view(out@) =~= legacy_cmds_view(prev) + vstep.0);
                        assert(legacy_cmds_view(out@) + spec_process(
                            views,
                            idx as nat + vstep.1,
                        ) =~= legacy_cmds_view(prev) + spec_process(views, idx as nat));
                    }
                    idx += step.1;
                }
            }
        }
        proof {
            assert(spec_process(views, idx as nat) =~= Seq::<CommandV>::empty());
            assert(legacy_cmds_view(out@) + spec_process(views, idx as nat)
                =~= legacy_cmds_view(out@));
        }
        out
    }

    /// Decodes a request buffer and recognizes every reduced command in it.
    pub fn deserialize(req: &Vec<u8>) -> (r: Vec<Command>)
        ensures
            legacy_cmds_view(r@) == spec_deserialize_legacy(req@),
    {
        let tops = decode_all(req);
        let ghost tviews = frames_view(tops@);
        proof {
            lemma_frames_view(tops@);
        }
        let mut out: Vec<Command> = Vec::new();
        let mut i: usize = 0;
        assert(tviews.skip(0) =~= tviews);
        assert(legacy_cmds_view(out@) =~= Seq::<CommandV>::empty());
        while i < tops.len()
            invariant
                0 <= i <= tops@.len(),
                tviews == frames_view(tops@),
                tviews.len() == tops@.len(),
                forall|j: int| 0 <= j < tops@.len() ==> tviews[j] == frame_view(tops@[j]),
                spec_parse_tops_legacy(tviews) == legacy_cmds_view(out@)
                    + spec_parse_tops_legacy(tviews.skip(i as int)),
            decreases tops@.len() - i,
        {
            proof {
                assert(tviews.skip(i as int)[0] == tviews[i as int]);
                assert(tviews.skip(i as int).drop_first() =~= tviews.skip(i as int + 1));
            }
            match &tops[i] {
                Frame::Array(child) => {
                    let mut sub = Command::process_req(child);
                    let ghost sub_snap = sub@;
                    let ghost prev = out@;
                    out.append(&mut sub);
                    proof {
                        assert(out@ =~= prev + sub_snap);
                        lemma_legacy_cmds_view_concat(prev, sub_snap);
                        assert(tviews[i as int] == FrameV::Array(frames_view(child@)));
                        assert(legacy_cmds_view(out@) + spec_parse_tops_legacy(
                            tviews.skip(i as int + 1),
                        ) =~= legacy_cmds_view(prev) + spec_parse_tops_legacy(
                            tviews.skip(i as int),
                        ));
                    }
                }
                _ => {
                    proof {
                        assert(!(tviews[i as int] is Array));
                        assert(legacy_cmds_view(out@) + spec_parse_tops_legacy(
                            tviews.skip(i as int + 1),
                        ) =~= legacy_cmds_view(out@) + spec_parse_tops_legacy(
                            tviews.skip(i as int),
                        ));
                    }
                }
            }
            i += 1;
        }
        proof {
            assert(tviews.skip(i as int) =~= Seq::<FrameV>::empty());
            assert(legacy_cmds_view(out@) + spec_parse_tops_legacy(tviews.skip(i as int))
                =~= legacy_cmds_view(out@));
        }
        out
    }
}

} // verus!
