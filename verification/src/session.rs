//! The playback side of an editing session: the playhead, the trimmed
//! export range, and the clock text shown under the video.
use crate::text::{decimal, push_char, push_padded, zero_pad};
use vstd::prelude::*;

verus! {

/// Which file picker, if any, is open.
#[derive(Debug, Clone, Copy, PartialEq, Eq)]
pub enum DialogMode {
    /// No picker open.
    Idle,
    PickVideo,
    AppendVideo,
    PickTelemetry,
    PickExportOutput,
    PickConfigLoad,
    PickConfigSave,
}

/// `mm:ss` for a (possibly negative) time: a `'-'` for negative times,
/// then whole minutes and whole seconds of the magnitude, each at least two
/// digits.
pub open spec fn clock_text(ms: int) -> Seq<char> {
    let a = if ms < 0 {
        -ms
    } else {
        ms
    };
    let total = a / 1000;
    (if ms < 0 {
        seq!['-']
    } else {
        Seq::empty()
    }) + zero_pad(decimal((total / 60) as nat), 2) + seq![':'] + zero_pad(
        decimal((total % 60) as nat),
        2,
    )
}

/// The playhead clock, `mm:ss` (`-mm:ss` before zero).
pub fn format_time(ms: i64) -> (s: String)
    requires
        ms > i64::MIN,
    ensures
        s@ == clock_text(ms as int),
{
    let mut s = String::new();
    let abs_ms: i64 = if ms < 0 {
        -ms
    } else {
        ms
    };
    if ms < 0 {
        push_char(&mut s, '-');
    }
    let total_seconds = abs_ms / 1000;
    let minutes = total_seconds / 60;
    let seconds = total_seconds % 60;
    push_padded(&mut s, minutes as u64, 2);
    push_char(&mut s, ':');
    push_padded(&mut s, seconds as u64, 2);
    s
}

/// A negative time reads as its magnitude with a leading `'-'`.
pub proof fn law_clock_text_negative(ms: int)
    requires
        ms > 0,
    ensures
        clock_text(-ms) == seq!['-'] + clock_text(ms),
{
    assert(clock_text(-ms) =~= seq!['-'] + clock_text(ms));
}

/// Where playback of the trimmed range ends: the export end when it is set
/// and not negative, else the end of the video.
pub open spec fn trim_end(export_end_ms: Option<i64>, video_duration_ms: i64) -> i64 {
    match export_end_ms {
        Some(e) => if e >= 0 {
            e
        } else {
            video_duration_ms
        },
        None => video_duration_ms,
    }
}

/// Where the trimmed range starts: the export start, or 0.
pub open spec fn trim_start(export_start_ms: Option<i64>) -> i64 {
    match export_start_ms {
        Some(s) => s,
        None => 0,
    }
}

/// The end of the trimmed range.
pub fn playback_end(export_end_ms: Option<i64>, video_duration_ms: i64) -> (e: i64)
    ensures
        e == trim_end(export_end_ms, video_duration_ms),
{
    match export_end_ms {
        Some(e) => if e >= 0 {
            e
        } else {
            video_duration_ms
        },
        None => video_duration_ms,
    }
}

/// The playhead moved into the trimmed range; left alone when the range
/// is empty (start after end).
pub open spec fn clamped_playhead(
    playhead_ms: i64,
    export_start_ms: Option<i64>,
    export_end_ms: Option<i64>,
    video_duration_ms: i64,
) -> i64 {
    let s = trim_start(export_start_ms);
    let e = trim_end(export_end_ms, video_duration_ms);
    if s <= e {
        if playhead_ms < s {
            s
        } else if playhead_ms > e {
            e
        } else {
            playhead_ms
        }
    } else {
        playhead_ms
    }
}

/// Keeps the playhead inside the trimmed export range.
pub fn clamp_playhead_to_trim(
    playhead_ms: i64,
    export_start_ms: Option<i64>,
    export_end_ms: Option<i64>,
    video_duration_ms: i64,
) -> (p: i64)
    ensures
        p == clamped_playhead(playhead_ms, export_start_ms, export_end_ms, video_duration_ms),
{
    let start_ms = match export_start_ms {
        Some(s) => s,
        None => 0,
    };
    let end_ms = playback_end(export_end_ms, video_duration_ms);
    if start_ms <= end_ms {
        if playhead_ms < start_ms {
            start_ms
        } else if playhead_ms > end_ms {
            end_ms
        } else {
            playhead_ms
        }
    } else {
        playhead_ms
    }
}

/// Clamping lands in the range, and clamping twice changes nothing more.
pub proof fn law_clamp_playhead(
    playhead_ms: i64,
    export_start_ms: Option<i64>,
    export_end_ms: Option<i64>,
    video_duration_ms: i64,
)
    ensures
        ({
            let p = clamped_playhead(
                playhead_ms,
                export_start_ms,
                export_end_ms,
                video_duration_ms,
            );
            &&& trim_start(export_start_ms) <= trim_end(export_end_ms, video_duration_ms) ==> trim_start(
                export_start_ms,
            ) <= p <= trim_end(export_end_ms, video_duration_ms)
            &&& clamped_playhead(p, export_start_ms, export_end_ms, video_duration_ms) == p
        }),
{
}

/// One step of playback: the playhead advanced by `step_ms`, and whether
/// playback goes on. Reaching the end of the trimmed range parks the
/// playhead there and stops.
pub fn advance_playhead(
    playhead_ms: i64,
    step_ms: i64,
    export_end_ms: Option<i64>,
    video_duration_ms: i64,
) -> (r: (i64, bool))
    requires
        i64::MIN <= playhead_ms + step_ms <= i64::MAX,
    ensures
        ({
            let moved = playhead_ms + step_ms;
            let end = trim_end(export_end_ms, video_duration_ms);
            if moved >= end {
                r == (end, false)
            } else {
                r == (moved as i64, true)
            }
        }),
{
    let moved = playhead_ms + step_ms;
    let end_ms = playback_end(export_end_ms, video_duration_ms);
    if moved >= end_ms {
        (end_ms, false)
    } else {
        (moved, true)
    }
}

/// The video time at which a lap that starts at telemetry time
/// `lap_start_ms` is seen, if it is inside the video.
pub fn lap_jump_target(lap_start_ms: i64, sync_offset_ms: i64, video_duration_ms: i64) -> (r: Option<i64>)
    requires
        i64::MIN <= lap_start_ms - sync_offset_ms <= i64::MAX,
    ensures
        ({
            let t = lap_start_ms - sync_offset_ms;
            if 0 <= t <= video_duration_ms {
                r == Some(t as i64)
            } else {
                r is None
            }
        }),
{
    let target = lap_start_ms - sync_offset_ms;
    if target >= 0 && target <= video_duration_ms {
        Some(target)
    } else {
        None
    }
}

} // verus!
