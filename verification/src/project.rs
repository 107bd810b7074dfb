//! The pieces of a saved project that the library reasons about: which
//! overlays exist, where speed comes from, and how video and telemetry are
//! aligned.
use vstd::prelude::*;

verus! {

/// The kinds of overlay element a layout can hold.
#[derive(Debug, Clone, Copy, PartialEq, Eq)]
pub enum OverlayKind {
    SpeedReadout,
    GForceMeter,
    LapTimer,
    AdvancedLapTimer,
    TrackMap,
    ThrottleBar,
    RpmOverlay,
}

/// Where the displayed speed is read from.
#[derive(Debug, Clone, Copy, PartialEq, Eq)]
pub enum SpeedSource {
    /// Decide from the log: the source that updated more often.
    Auto,
    Gps,
    Obd,
}

impl Default for SpeedSource {
    fn default() -> (r: Self)
        ensures
            r == SpeedSource::Auto,
    {
        SpeedSource::Auto
    }
}

/// How the video/telemetry offset was chosen.
#[derive(Debug, Clone, Copy, PartialEq, Eq)]
pub enum SyncMode {
    Manual,
    Auto,
}

/// Alignment of telemetry time to video time.
#[derive(Debug, Clone, Copy, PartialEq, Eq)]
pub struct SyncState {
    /// Added to a video time to get the telemetry time shown with it.
    pub offset_ms: i64,
    pub mode: SyncMode,
    pub max_auto_sync_offset_ms: i64,
}

/// The value a project file gets for a missing `use_hardware_acceleration`.
pub fn default_true() -> (b: bool)
    ensures
        b,
{
    true
}

/// How many entries of `flags` are exactly 1.
pub open spec fn count_ones(flags: Seq<u8>) -> nat
    decreases flags.len(),
{
    if flags.len() == 0 {
        0
    } else {
        count_ones(flags.drop_last()) + if flags.last() == 1 {
            1nat
        } else {
            0nat
        }
    }
}

/// The speed source a log is read with: an explicit choice stands; `Auto`
/// becomes `Obd` when more rows carry a fresh OBD reading than a fresh GPS
/// fix, and `Gps` otherwise.
pub open spec fn resolved_speed_source(
    requested: SpeedSource,
    gps_updates: Seq<u8>,
    obd_updates: Seq<u8>,
) -> SpeedSource {
    if requested == SpeedSource::Auto {
        if count_ones(obd_updates) > count_ones(gps_updates) {
            SpeedSource::Obd
        } else {
            SpeedSource::Gps
        }
    } else {
        requested
    }
}

fn count_ones_exec(flags: &[u8]) -> (n: usize)
    ensures
        n == count_ones(flags@),
{
    let mut n: usize = 0;
    let mut i: usize = 0;
    while i < flags.len()
        invariant
            i <= flags@.len(),
            n == count_ones(flags@.take(i as int)),
            n <= i,
        decreases flags.len() - i,
    {
        assert(flags@.take(i + 1).drop_last() == flags@.take(i as int));
        if flags[i] == 1 {
            n = n + 1;
        }
        i = i + 1;
    }
    assert(flags@.take(flags@.len() as int) == flags@);
    n
}

/// Resolves `requested` against the per-row update flags of a log
/// (`GPS_Update` and `OBD_Update`, one entry per row read).
pub fn resolve_speed_source(requested: SpeedSource, gps_updates: &[u8], obd_updates: &[u8]) -> (r:
    SpeedSource)
    ensures
        r == resolved_speed_source(requested, gps_updates@, obd_updates@),
        r != SpeedSource::Auto,
{
    match requested {
        SpeedSource::Auto => {
            let gps = count_ones_exec(gps_updates);
            let obd = count_ones_exec(obd_updates);
            if obd > gps {
                SpeedSource::Obd
            } else {
                SpeedSource::Gps
            }
        },
        SpeedSource::Gps => SpeedSource::Gps,
        SpeedSource::Obd => SpeedSource::Obd,
    }
}

} // verus!
