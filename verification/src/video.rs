//! Video-side decisions: decoded frames handed to the preview, the seek
//! requests a decoder thread acts on, and the recording time of a clip read
//! from `ffprobe` output.
use crate::export::{pack_frame, packed_frame, rows_fit};
use crate::text::{chars_of, lemma_next_newline_bounds, lines, lines_from, next_line, string_of, trim, trim_chars};
use std::sync::Arc;
use vstd::prelude::*;

verus! {

/// A decoded video frame as tightly packed RGBA rows.
#[derive(Clone)]
pub struct DecodedFrame {
    pub data: Arc<Vec<u8>>,
    pub width: u32,
    pub height: u32,
    pub pts_ms: i64,
}

impl DecodedFrame {
    /// Packs the RGBA rows of a scaled frame (`stride` bytes apart in
    /// `raw`) into a frame shown at `pts_ms`.
    pub fn from_rgba_rows(raw: &[u8], stride: usize, width: u32, height: u32, pts_ms: i64) -> (f: Self)
        requires
            (width as int) * (height as int) * 4 <= u32::MAX,
            (width as int) * 4 <= u32::MAX,
            rows_fit(raw@.len() as int, stride as int, width as int, height as int),
        ensures
            f.width == width,
            f.height == height,
            f.pts_ms == pts_ms,
            packed_frame(f.data@, raw@, stride as int, width as int, height as int, false, false),
    {
        let mut packed: Vec<u8> = Vec::new();
        pack_frame(raw, stride, width, height, false, false, &mut packed);
        DecodedFrame { data: Arc::new(packed), width, height, pts_ms }
    }
}

/// A request to the decoder thread.
#[derive(Debug, Clone, Copy, PartialEq, Eq)]
pub enum PlayerCommand {
    Seek(i64),
    Quit,
}

/// What the decoder does after draining its queue: `None` to stop (a quit
/// request, or no request at all because the player is gone), else the
/// latest seek target.
pub open spec fn settled_target(cmds: Seq<PlayerCommand>) -> Option<i64>
    decreases cmds.len(),
{
    if cmds.len() == 0 {
        None
    } else if cmds.len() == 1 {
        match cmds[0] {
            PlayerCommand::Seek(ms) => Some(ms),
            PlayerCommand::Quit => None,
        }
    } else {
        match settled_target(cmds.drop_last()) {
            None => None,
            Some(_) => match cmds.last() {
                PlayerCommand::Seek(ms) => Some(ms),
                PlayerCommand::Quit => None,
            },
        }
    }
}

/// Collapses the requests received in one wake-up (the blocking receive
/// first, then everything already queued) into the one seek to serve.
pub fn settle_commands(cmds: &[PlayerCommand]) -> (r: Option<i64>)
    ensures
        r == settled_target(cmds@),
{
    if cmds.len() == 0 {
        return None;
    }
    let mut target: i64 = match cmds[0] {
        PlayerCommand::Seek(ms) => ms,
        PlayerCommand::Quit => {
            proof {
                assert(cmds@.take(1).len() == 1 && cmds@.take(1)[0] == PlayerCommand::Quit);
                lemma_settled_quit(cmds@, 1);
            }
            return None;
        },
    };
    assert(cmds@.take(1).len() == 1 && cmds@.take(1)[0] == cmds@[0]);
    let mut i: usize = 1;
    while i < cmds.len()
        invariant
            1 <= i <= cmds@.len(),
            settled_target(cmds@.take(i as int)) == Some(target),
        decreases cmds.len() - i,
    {
        assert(cmds@.take(i + 1).drop_last() == cmds@.take(i as int));
        assert(cmds@.take(i + 1).last() == cmds@[i as int]);
        match cmds[i] {
            PlayerCommand::Seek(ms) => {
                target = ms;
            },
            PlayerCommand::Quit => {
                proof {
                    lemma_settled_quit(cmds@, (i + 1) as int);
                }
                return None;
            },
        }
        i = i + 1;
    }
    assert(cmds@.take(cmds@.len() as int) == cmds@);
    Some(target)
}

proof fn lemma_settled_quit(cmds: Seq<PlayerCommand>, n: int)
    requires
        1 <= n <= cmds.len(),
        settled_target(cmds.take(n)) is None,
    ensures
        settled_target(cmds) is None,
    decreases cmds.len() - n,
{
    if n < cmds.len() {
        assert(cmds.take(n + 1).drop_last() == cmds.take(n));
        lemma_settled_quit(cmds, n + 1);
    } else {
        assert(cmds.take(n) == cmds);
    }
}

/// A quit request anywhere in a wake-up's requests stops the decoder.
pub proof fn law_quit_stops(cmds: Seq<PlayerCommand>, k: int)
    requires
        0 <= k < cmds.len(),
        cmds[k] == PlayerCommand::Quit,
    ensures
        settled_target(cmds) is None,
{
    let t = cmds.take(k + 1);
    if k == 0 {
        assert(t.len() == 1 && t[0] == PlayerCommand::Quit);
    } else {
        assert(t.last() == PlayerCommand::Quit);
    }
    lemma_settled_quit(cmds, k + 1);
}

// ---------------------------------------------------------------------------
// Decoding forward to a seek target
/// How many packets a decode towards one target may read before giving up.
pub const DECODE_PACKET_BUDGET: u32 = 1000;

/// The decoder thread while it decodes towards a target stamp.
#[derive(Debug, Clone, Copy, PartialEq, Eq)]
pub struct DecodeState {
    /// Packets it may still read.
    pub packets_left: u32,
    /// The stamp of the last frame decoded.
    pub current_pts: i64,
}

/// What the decoder thread meets.
#[derive(Debug, Clone, Copy, PartialEq, Eq)]
pub enum DecodeEvent {
    /// The next packet of the file; `true` when it is of the video stream.
    Packet(bool),
    /// A frame came out of the decoder, with its stamp if it carries one.
    Frame(Option<i64>),
    /// The decoder gave all the frames of the packet sent.
    Drained,
}

/// What the decoder thread does next.
#[derive(Debug, Clone, Copy, PartialEq, Eq)]
pub enum DecodeAction {
    /// Pass over this packet and read the next.
    NextPacket,
    /// Send the packet to the decoder and take its frames.
    Decode,
    /// Keep the frame (cache it); `true` when it is at or past the target,
    /// so it is shown and the decode ends.
    Keep(bool),
    /// The decode ends: the target was reached or the budget is spent.
    Stop,
}

/// The step the decoder thread takes on `ev` while decoding towards
/// `target_pts`: a packet costs one from the budget (none left: stop), and
/// only video packets are decoded; a frame without a stamp counts as the
/// last stamp seen; a frame at or past the target is shown; after a packet's
/// frames the decode stops once the target is reached.
pub open spec fn decode_step_for(s: DecodeState, ev: DecodeEvent, target_pts: i64) -> (DecodeState, DecodeAction) {
    match ev {
        DecodeEvent::Packet(is_video) => if s.packets_left == 0 {
            (s, DecodeAction::Stop)
        } else {
            (
                DecodeState { packets_left: (s.packets_left - 1) as u32, ..s },
                if is_video {
                    DecodeAction::Decode
                } else {
                    DecodeAction::NextPacket
                },
            )
        },
        DecodeEvent::Frame(pts) => {
            let cur = match pts {
                Some(p) => p,
                None => s.current_pts,
            };
            (DecodeState { current_pts: cur, ..s }, DecodeAction::Keep(cur >= target_pts))
        },
        DecodeEvent::Drained => if s.current_pts >= target_pts {
            (s, DecodeAction::Stop)
        } else {
            (s, DecodeAction::NextPacket)
        },
    }
}

/// Decides the decoder thread's next step.
pub fn decode_step(s: DecodeState, ev: DecodeEvent, target_pts: i64) -> (r: (DecodeState, DecodeAction))
    ensures
        r == decode_step_for(s, ev, target_pts),
{
    match ev {
        DecodeEvent::Packet(is_video) => {
            if s.packets_left == 0 {
                (s, DecodeAction::Stop)
            } else {
                let next = DecodeState { packets_left: s.packets_left - 1, ..s };
                if is_video {
                    (next, DecodeAction::Decode)
                } else {
                    (next, DecodeAction::NextPacket)
                }
            }
        },
        DecodeEvent::Frame(pts) => {
            let cur = match pts {
                Some(p) => p,
                None => s.current_pts,
            };
            (DecodeState { current_pts: cur, ..s }, DecodeAction::Keep(cur >= target_pts))
        },
        DecodeEvent::Drained => {
            if s.current_pts >= target_pts {
                (s, DecodeAction::Stop)
            } else {
                (s, DecodeAction::NextPacket)
            }
        },
    }
}

/// Every packet read costs one from the budget, and with none left the
/// decode stops: a decode reads at most its budget of packets.
pub proof fn law_packet_budget(s: DecodeState, is_video: bool, target_pts: i64)
    ensures
        s.packets_left == 0 ==> decode_step_for(s, DecodeEvent::Packet(is_video), target_pts).1
            == DecodeAction::Stop,
        s.packets_left > 0 ==> decode_step_for(s, DecodeEvent::Packet(is_video), target_pts).0.packets_left
            == s.packets_left - 1,
        forall|ev: DecodeEvent| #[trigger] decode_step_for(s, ev, target_pts).0.packets_left <= s.packets_left,
{
}

// ---------------------------------------------------------------------------
// Recording time
/// A point in time as Unix seconds and the nanoseconds past them.
#[derive(Debug, Clone, Copy, PartialEq, Eq)]
pub struct UtcInstant {
    pub secs: i64,
    pub nanos: u32,
}

/// What `chrono` reads from an RFC 3339 time stamp: the instant it names
/// as Unix seconds and nanoseconds, or nothing if it is not one.
pub uninterp spec fn rfc3339_instant(s: Seq<char>) -> Option<(i64, u32)>;

/// `chrono::DateTime::parse_from_rfc3339`, with the parsed instant read
/// back by `timestamp` and `timestamp_subsec_nanos`. The contract says the
/// result is a function of the text alone, and that the nanoseconds stay
/// below two seconds' worth (chrono holds a leap second as nanoseconds
/// past 999 999 999); which texts parse, and to what, is left to chrono.
#[verifier::external_body]
fn parse_rfc3339(s: &str) -> (r: Option<(i64, u32)>)
    ensures
        r == rfc3339_instant(s@),
        r matches Some((_, n)) ==> n < 2_000_000_000,
{
    match chrono::DateTime::parse_from_rfc3339(s) {
        Ok(dt) => Some((dt.timestamp(), dt.timestamp_subsec_nanos())),
        Err(_) => None,
    }
}

/// The instant in the first line of `ls` that, trimmed, is a non-empty
/// RFC 3339 time stamp.
pub open spec fn first_timestamp(ls: Seq<Seq<char>>) -> Option<(i64, u32)>
    decreases ls.len(),
{
    if ls.len() == 0 {
        None
    } else {
        let t = trim(ls[0]);
        if t.len() > 0 && rfc3339_instant(t) is Some {
            rfc3339_instant(t)
        } else {
            first_timestamp(ls.drop_first())
        }
    }
}

/// The recording time in the output of `ffprobe ... -show_entries
/// stream_tags=creation_time` (one value per line): the first line that
/// holds a time stamp.
pub fn creation_time_from_probe(stdout: &str) -> (r: Option<UtcInstant>)
    ensures
        match r {
            Some(t) => first_timestamp(lines(stdout@)) == Some((t.secs, t.nanos)),
            None => first_timestamp(lines(stdout@)) is None,
        },
{
    let s = chars_of(stdout);
    let mut p: usize = 0;
    while p < s.len()
        invariant
            p <= s@.len(),
            s@ == stdout@,
            first_timestamp(lines(s@)) == first_timestamp(lines_from(s@, p as int)),
        decreases s.len() - p,
    {
        let (e, line) = next_line(&s, p);
        let ghost rest = if e >= s.len() {
            Seq::<Seq<char>>::empty()
        } else {
            lines_from(s@, e + 1)
        };
        proof {
            lemma_next_newline_bounds(s@, p as int);
            assert(lines_from(s@, p as int) == seq![line@] + rest);
            assert((seq![line@] + rest).drop_first() == rest);
            assert((seq![line@] + rest)[0] == line@);
        }
        let t = trim_chars(&line);
        if t.len() > 0 {
            let text = string_of(&t);
            match parse_rfc3339(text.as_str()) {
                Some((secs, nanos)) => {
                    return Some(UtcInstant { secs, nanos });
                },
                None => {},
            }
        }
        if e >= s.len() {
            assert(first_timestamp(rest) is None);
            return None;
        }
        p = e + 1;
    }
    None
}

} // verus!
