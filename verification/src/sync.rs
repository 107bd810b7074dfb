//! Lining up video and telemetry by their start/finish line crossings.
use vstd::prelude::*;

verus! {

/// How far apart (ms) two crossings may be and still count as the same lap
/// line pass, allowing for GPS polling.
pub const CROSSING_TOLERANCE_MS: i64 = 3000;

/// Some telemetry lap crossing lies within the tolerance of time `x`.
pub open spec fn near_crossing(laps: Seq<(u32, i64)>, x: int) -> bool {
    exists|j: int|
        0 <= j < laps.len() && -CROSSING_TOLERANCE_MS <= #[trigger] laps[j].1 - x
            <= CROSSING_TOLERANCE_MS
}

/// How many video crossings land near a telemetry crossing once shifted
/// by `offset`.
pub open spec fn matched_crossings(video: Seq<i64>, laps: Seq<(u32, i64)>, offset: int) -> nat
    decreases video.len(),
{
    if video.len() == 0 {
        0
    } else {
        matched_crossings(video.drop_last(), laps, offset) + if near_crossing(
            laps,
            video.last() + offset,
        ) {
            1nat
        } else {
            0nat
        }
    }
}

/// The offset that maps video crossing `i` onto telemetry crossing `j`.
pub open spec fn candidate(video: Seq<i64>, laps: Seq<(u32, i64)>, i: int, j: int) -> int {
    laps[j].1 - video[i]
}

/// The number of crossings that candidate `(i, j)` lines up.
pub open spec fn candidate_score(video: Seq<i64>, laps: Seq<(u32, i64)>, i: int, j: int) -> nat {
    matched_crossings(video, laps, candidate(video, laps, i, j))
}

/// Candidates are tried video crossing by video crossing, and for each,
/// telemetry crossing by telemetry crossing.
pub open spec fn tried_before(i1: int, j1: int, i2: int, j2: int) -> bool {
    i1 < i2 || (i1 == i2 && j1 < j2)
}

/// Every candidate offset is an `i64`.
pub open spec fn candidates_fit(video: Seq<i64>, laps: Seq<(u32, i64)>) -> bool {
    forall|i: int, j: int|
        0 <= i < video.len() && 0 <= j < laps.len() ==> i64::MIN <= #[trigger] candidate(
            video,
            laps,
            i,
            j,
        ) <= i64::MAX
}

/// The lap-line answer: the candidate offset that lines up the most
/// crossings, the first tried among equals; `None` when no candidate lines
/// up any.
pub open spec fn best_candidate_ok(video: Seq<i64>, laps: Seq<(u32, i64)>, r: Option<i64>) -> bool {
    match r {
        Some(o) => exists|i: int, j: int|
            0 <= i < video.len() && 0 <= j < laps.len() && o == candidate(video, laps, i, j)
                && #[trigger] candidate_score(video, laps, i, j) > 0 && (forall|i2: int, j2: int|
                0 <= i2 < video.len() && 0 <= j2 < laps.len() ==> #[trigger] candidate_score(
                    video,
                    laps,
                    i2,
                    j2,
                ) <= candidate_score(video, laps, i, j)) && (forall|i2: int, j2: int|
                0 <= i2 < video.len() && 0 <= j2 < laps.len() && tried_before(i2, j2, i, j)
                    ==> #[trigger] candidate_score(video, laps, i2, j2) < candidate_score(
                    video,
                    laps,
                    i,
                    j,
                )),
        None => forall|i: int, j: int|
            0 <= i < video.len() && 0 <= j < laps.len() ==> #[trigger] candidate_score(
                video,
                laps,
                i,
                j,
            ) == 0,
    }
}

fn near_crossing_exec(laps: &[(u32, i64)], x: i128) -> (b: bool)
    requires
        -0x1_0000_0000_0000_0000 <= x <= 0x1_0000_0000_0000_0000,
    ensures
        b == near_crossing(laps@, x as int),
{
    let mut j: usize = 0;
    while j < laps.len()
        invariant
            j <= laps@.len(),
            -0x1_0000_0000_0000_0000 <= x <= 0x1_0000_0000_0000_0000,
            forall|q: int|
                0 <= q < j ==> !(-CROSSING_TOLERANCE_MS <= #[trigger] laps@[q].1 - x
                    <= CROSSING_TOLERANCE_MS),
        decreases laps.len() - j,
    {
        let d: i128 = laps[j].1 as i128 - x;
        if -3000 <= d && d <= 3000 {
            return true;
        }
        j = j + 1;
    }
    false
}

fn matched_exec(video: &[i64], laps: &[(u32, i64)], offset: i64) -> (n: usize)
    ensures
        n == matched_crossings(video@, laps@, offset as int),
{
    let mut n: usize = 0;
    let mut k: usize = 0;
    while k < video.len()
        invariant
            k <= video@.len(),
            n == matched_crossings(video@.take(k as int), laps@, offset as int),
            n <= k,
        decreases video.len() - k,
    {
        assert(video@.take(k + 1).drop_last() == video@.take(k as int));
        assert(video@.take(k + 1).last() == video@[k as int]);
        let mapped: i128 = video[k] as i128 + offset as i128;
        if near_crossing_exec(laps, mapped) {
            n = n + 1;
        }
        k = k + 1;
    }
    assert(video@.take(video@.len() as int) == video@);
    n
}

/// A candidate that maps a crossing exactly onto a crossing lines up at
/// least that crossing.
proof fn lemma_candidate_scores(video: Seq<i64>, laps: Seq<(u32, i64)>, i: int, j: int)
    requires
        0 <= i < video.len(),
        0 <= j < laps.len(),
    ensures
        candidate_score(video, laps, i, j) >= 1,
    decreases video.len(),
{
    let o = candidate(video, laps, i, j);
    if i == video.len() - 1 {
        assert(laps[j].1 - (video.last() + o) == 0);
        assert(near_crossing(laps, video.last() + o));
    } else {
        let p = video.drop_last();
        assert(p[i] == video[i]);
        assert(candidate(p, laps, i, j) == o);
        lemma_candidate_scores(p, laps, i, j);
    }
}

/// Finds the offset, to be added to a video time, at which the most video
/// start/finish crossings land within 3 s of a telemetry lap crossing
/// (`telem_laps` as `(lap, time)`). Candidates are the offsets that map
/// one video crossing exactly onto one telemetry crossing; the first found
/// of the best wins. `None` when no candidate lines up any crossing.
pub fn match_lap_crossings(gopro_crossings: &[i64], telem_laps: &[(u32, i64)]) -> (r: Option<i64>)
    requires
        candidates_fit(gopro_crossings@, telem_laps@),
    ensures
        best_candidate_ok(gopro_crossings@, telem_laps@, r),
        (gopro_crossings@.len() > 0 && telem_laps@.len() > 0) <==> r is Some,
{
    let ghost video = gopro_crossings@;
    let ghost laps = telem_laps@;
    let mut best_offset: i64 = 0;
    let mut max_matches: usize = 0;
    let ghost mut bi: int = 0;
    let ghost mut bj: int = 0;
    let mut i: usize = 0;
    while i < gopro_crossings.len()
        invariant
            video == gopro_crossings@,
            laps == telem_laps@,
            candidates_fit(video, laps),
            i <= video.len(),
            forall|i2: int, j2: int|
                0 <= i2 < i && 0 <= j2 < laps.len() ==> #[trigger] candidate_score(
                    video,
                    laps,
                    i2,
                    j2,
                ) <= max_matches,
            max_matches > 0 ==> {
                &&& 0 <= bi < i && 0 <= bj < laps.len()
                &&& best_offset == candidate(video, laps, bi, bj)
                &&& candidate_score(video, laps, bi, bj) == max_matches
                &&& forall|i2: int, j2: int|
                    0 <= i2 < video.len() && 0 <= j2 < laps.len() && tried_before(i2, j2, bi, bj)
                        ==> #[trigger] candidate_score(video, laps, i2, j2) < max_matches
            },
            (i > 0 && laps.len() > 0) ==> max_matches > 0,
        decreases video.len() - i,
    {
        let mut j: usize = 0;
        while j < telem_laps.len()
            invariant
                video == gopro_crossings@,
                laps == telem_laps@,
                candidates_fit(video, laps),
                i < video.len(),
                j <= laps.len(),
                forall|i2: int, j2: int|
                    0 <= i2 < video.len() && 0 <= j2 < laps.len() && tried_before(i2, j2, i as int, j as int)
                        ==> #[trigger] candidate_score(video, laps, i2, j2) <= max_matches,
                max_matches > 0 ==> {
                    &&& 0 <= bi < video.len() && 0 <= bj < laps.len()
                    &&& tried_before(bi, bj, i as int, j as int)
                    &&& best_offset == candidate(video, laps, bi, bj)
                    &&& candidate_score(video, laps, bi, bj) == max_matches
                    &&& forall|i2: int, j2: int|
                        0 <= i2 < video.len() && 0 <= j2 < laps.len() && tried_before(i2, j2, bi, bj)
                            ==> #[trigger] candidate_score(video, laps, i2, j2) < max_matches
                },
                ((i > 0 || j > 0) && laps.len() > 0) ==> max_matches > 0,
            decreases laps.len() - j,
        {
            assert(i64::MIN <= candidate(video, laps, i as int, j as int) <= i64::MAX);
            let potential_offset: i64 = telem_laps[j].1 - gopro_crossings[i];
            let matches = matched_exec(gopro_crossings, telem_laps, potential_offset);
            proof {
                lemma_candidate_scores(video, laps, i as int, j as int);
            }
            if matches > max_matches {
                max_matches = matches;
                best_offset = potential_offset;
                proof {
                    bi = i as int;
                    bj = j as int;
                }
            }
            j = j + 1;
        }
        i = i + 1;
    }
    if max_matches > 0 {
        Some(best_offset)
    } else {
        None
    }
}

/// The telemetry crossings with every time moved by `d`.
pub open spec fn shifted_laps(laps: Seq<(u32, i64)>, d: int) -> Seq<(u32, i64)> {
    Seq::new(laps.len(), |j: int| (laps[j].0, (laps[j].1 + d) as i64))
}

/// Every crossing time stays an `i64` when moved by `d`.
pub open spec fn shift_fits(laps: Seq<(u32, i64)>, d: int) -> bool {
    forall|j: int| 0 <= j < laps.len() ==> i64::MIN <= #[trigger] laps[j].1 + d <= i64::MAX
}

proof fn lemma_near_shift(laps: Seq<(u32, i64)>, d: int, x: int)
    requires
        shift_fits(laps, d),
    ensures
        near_crossing(shifted_laps(laps, d), x + d) == near_crossing(laps, x),
{
    let sl = shifted_laps(laps, d);
    if near_crossing(laps, x) {
        let j = choose|j: int|
            0 <= j < laps.len() && -CROSSING_TOLERANCE_MS <= #[trigger] laps[j].1 - x
                <= CROSSING_TOLERANCE_MS;
        assert(sl[j].1 == laps[j].1 + d);
        assert(-CROSSING_TOLERANCE_MS <= sl[j].1 - (x + d) <= CROSSING_TOLERANCE_MS);
    }
    if near_crossing(sl, x + d) {
        let j = choose|j: int|
            0 <= j < sl.len() && -CROSSING_TOLERANCE_MS <= #[trigger] sl[j].1 - (x + d)
                <= CROSSING_TOLERANCE_MS;
        assert(sl[j].1 == laps[j].1 + d);
        assert(-CROSSING_TOLERANCE_MS <= laps[j].1 - x <= CROSSING_TOLERANCE_MS);
    }
}

proof fn lemma_matched_shift(video: Seq<i64>, laps: Seq<(u32, i64)>, d: int, o: int)
    requires
        shift_fits(laps, d),
    ensures
        matched_crossings(video, shifted_laps(laps, d), o + d) == matched_crossings(video, laps, o),
    decreases video.len(),
{
    if video.len() > 0 {
        lemma_matched_shift(video.drop_last(), laps, d, o);
        lemma_near_shift(laps, d, video.last() + o);
        assert(video.last() + (o + d) == (video.last() + o) + d);
    }
}

/// Moving every telemetry crossing by `d` moves the answer by `d`: the
/// offset found is a property of the lap cadence, not of where the
/// telemetry clock starts.
pub proof fn law_offset_follows_telemetry_shift(
    video: Seq<i64>,
    laps: Seq<(u32, i64)>,
    d: int,
    r: Option<i64>,
)
    requires
        shift_fits(laps, d),
        best_candidate_ok(video, laps, r),
        r matches Some(o) ==> i64::MIN <= o + d <= i64::MAX,
    ensures
        best_candidate_ok(
            video,
            shifted_laps(laps, d),
            match r {
                Some(o) => Some((o + d) as i64),
                None => None,
            },
        ),
{
    let sl = shifted_laps(laps, d);
    assert forall|i: int, j: int|
        0 <= i < video.len() && 0 <= j < laps.len() implies #[trigger] candidate_score(video, sl, i, j)
        == candidate_score(video, laps, i, j) && candidate(video, sl, i, j) == candidate(
        video,
        laps,
        i,
        j,
    ) + d by {
        assert(sl[j].1 == laps[j].1 + d);
        lemma_matched_shift(video, laps, d, candidate(video, laps, i, j));
    }
    match r {
        Some(o) => {
            let (i, j) = choose|i: int, j: int|
                0 <= i < video.len() && 0 <= j < laps.len() && o == candidate(video, laps, i, j)
                    && #[trigger] candidate_score(video, laps, i, j) > 0 && (forall|i2: int, j2: int|
                    0 <= i2 < video.len() && 0 <= j2 < laps.len() ==> #[trigger] candidate_score(
                        video,
                        laps,
                        i2,
                        j2,
                    ) <= candidate_score(video, laps, i, j)) && (forall|i2: int, j2: int|
                    0 <= i2 < video.len() && 0 <= j2 < laps.len() && tried_before(i2, j2, i, j)
                        ==> #[trigger] candidate_score(video, laps, i2, j2) < candidate_score(
                        video,
                        laps,
                        i,
                        j,
                    ));
            assert(candidate_score(video, sl, i, j) > 0);
            assert(forall|i2: int, j2: int|
                0 <= i2 < video.len() && 0 <= j2 < sl.len() ==> #[trigger] candidate_score(
                    video,
                    sl,
                    i2,
                    j2,
                ) <= candidate_score(video, sl, i, j));
            assert(forall|i2: int, j2: int|
                0 <= i2 < video.len() && 0 <= j2 < sl.len() && tried_before(i2, j2, i, j)
                    ==> #[trigger] candidate_score(video, sl, i2, j2) < candidate_score(
                    video,
                    sl,
                    i,
                    j,
                ));
        },
        None => {},
    }
}

/// Why an automatic sync gave no offset.
#[derive(Debug, Clone, PartialEq, Eq)]
pub enum SyncError {
    NoOverlap,
    Calculation(String),
}

impl SyncError {
    /// The message shown for this error.
    pub fn message(&self) -> (s: String)
        ensures
            self is NoOverlap ==> s@ == "No overlapping data found for sync"@,
            self matches SyncError::Calculation(m) ==> s@ == "Calculation error: "@ + m@,
    {
        match self {
            SyncError::NoOverlap => String::from_str("No overlapping data found for sync"),
            SyncError::Calculation(m) => String::from_str("Calculation error: ").concat(m.as_str()),
        }
    }
}

} // verus!
