//! The integer side of a telemetry log: sample times, lap numbers and lap
//! times. Lap boundaries, lap statistics, trimmed views and time lookups
//! are decided here; the floating-point channels that ride along with each
//! sample are interpolated by the caller at the positions chosen here.
use crate::timeline::{
    bracket_ok, count_before, lemma_count_before_split, lemma_count_before_split_any,
    sorted_times, Bracket,
};
use vstd::prelude::*;

verus! {

/// What the library reads of one telemetry sample.
#[derive(Debug, Clone, Copy, PartialEq, Eq)]
pub struct SampleKey {
    pub time_ms: i64,
    pub lap_number: Option<u32>,
    /// Time since the lap started, as the logger recorded it.
    pub lap_time_ms: Option<i64>,
}

/// The time stamps of a run of samples.
pub open spec fn times_of(s: Seq<SampleKey>) -> Seq<i64> {
    Seq::new(s.len(), |i: int| s[i].time_ms)
}

/// A lap number after the first `offset` laps of a log are cut away
/// (`u32::saturating_sub`).
pub open spec fn adjusted_lap(lap: u32, offset: u32) -> u32 {
    if lap >= offset {
        (lap - offset) as u32
    } else {
        0
    }
}

/// The lap crossings of `s`: each sample whose (adjusted) lap number
/// differs from the last crossing recorded adds a crossing `(lap, time)`.
/// Samples without a lap number are passed over.
pub open spec fn lap_marks(s: Seq<SampleKey>, offset: u32) -> Seq<(u32, i64)>
    decreases s.len(),
{
    if s.len() == 0 {
        Seq::empty()
    } else {
        let prev = lap_marks(s.drop_last(), offset);
        match s.last().lap_number {
            Some(l) => {
                let a = adjusted_lap(l, offset);
                if prev.len() > 0 && prev.last().0 == a {
                    prev
                } else {
                    prev.push((a, s.last().time_ms))
                }
            },
            None => prev,
        }
    }
}

/// A finished lap, located in the samples it spans.
#[derive(Debug, Clone, Copy, PartialEq, Eq)]
pub struct LapSpan {
    pub lap_number: u32,
    /// Index of its first sample.
    pub start_idx: usize,
    /// Index of its last sample.
    pub end_idx: usize,
    pub start_time_ms: i64,
    pub end_time_ms: i64,
    /// The lap time logged at its last sample, or else the time between
    /// its first and last samples.
    pub duration_ms: i64,
}

/// The lap `lap` that ran from sample `start` to sample `end`.
pub open spec fn closed_lap(s: Seq<SampleKey>, start: int, end: int, lap: u32, offset: u32) -> LapSpan {
    LapSpan {
        lap_number: adjusted_lap(lap, offset),
        start_idx: start as usize,
        end_idx: end as usize,
        start_time_ms: s[start].time_ms,
        end_time_ms: s[end].time_ms,
        duration_ms: match s[end].lap_time_ms {
            Some(d) => d,
            None => (s[end].time_ms - s[start].time_ms) as i64,
        },
    }
}

/// The lap the log starts in: the first sample's lap number, or 0.
pub open spec fn first_lap(s: Seq<SampleKey>) -> u32 {
    if s.len() > 0 {
        match s[0].lap_number {
            Some(l) => l,
            None => 0,
        }
    } else {
        0
    }
}

/// Walking the first `n` samples: the current lap, the index where it
/// started, and the laps closed so far. A sample with a lap number other
/// than the current one closes the current lap at the sample before it.
pub open spec fn segment(s: Seq<SampleKey>, n: int, offset: u32) -> (u32, int, Seq<LapSpan>)
    decreases n,
{
    if n <= 0 {
        (first_lap(s), 0, Seq::empty())
    } else {
        let (cur, start, laps) = segment(s, n - 1, offset);
        match s[n - 1].lap_number {
            Some(l) => if l != cur {
                if n - 2 >= start {
                    (l, n - 1, laps.push(closed_lap(s, start, n - 2, cur, offset)))
                } else {
                    (l, n - 1, laps)
                }
            } else {
                (cur, start, laps)
            },
            None => (cur, start, laps),
        }
    }
}

/// All laps of `s` that a later lap change closed.
pub open spec fn closed_laps(s: Seq<SampleKey>, offset: u32) -> Seq<LapSpan> {
    segment(s, s.len() as int, offset).2
}

/// The time a closed lap took from its first sample to its last fits in an
/// `i64`, where no lap time was logged at its last sample (its duration is
/// then that difference).
pub open spec fn lap_span_fits(s: Seq<SampleKey>, l: LapSpan) -> bool {
    s[l.end_idx as int].lap_time_ms is None ==> i64::MIN <= s[l.end_idx as int].time_ms
        - s[l.start_idx as int].time_ms <= i64::MAX
}

/// Every closed lap's duration can be computed.
pub open spec fn lap_spans_fit(s: Seq<SampleKey>) -> bool {
    forall|k: int| 0 <= k < closed_laps(s, 0).len() ==> lap_span_fits(s, #[trigger] closed_laps(s, 0)[k])
}

/// The laps of `c` that had ended by `t_ms`, in order.
pub open spec fn ended_by(c: Seq<LapSpan>, t_ms: i64) -> Seq<LapSpan>
    decreases c.len(),
{
    if c.len() == 0 {
        Seq::empty()
    } else if c.last().end_time_ms <= t_ms {
        ended_by(c.drop_last(), t_ms).push(c.last())
    } else {
        ended_by(c.drop_last(), t_ms)
    }
}

/// The quickest lap of `c`; of equally quick laps, the first.
pub open spec fn quickest(c: Seq<LapSpan>) -> Option<LapSpan>
    decreases c.len(),
{
    if c.len() == 0 {
        None
    } else {
        match quickest(c.drop_last()) {
            None => Some(c.last()),
            Some(b) => if c.last().duration_ms < b.duration_ms {
                Some(c.last())
            } else {
                Some(b)
            },
        }
    }
}

/// Index of the lap of `c` that ended last; of laps ending together, the
/// first.
pub open spec fn latest_index(c: Seq<LapSpan>) -> int
    decreases c.len(),
{
    if c.len() <= 1 {
        0
    } else {
        let k = latest_index(c.drop_last());
        if c.last().end_time_ms > c[k].end_time_ms {
            c.len() - 1
        } else {
            k
        }
    }
}

/// The first `m` laps of `c` once sorted by end time, latest first, laps
/// ending together keeping their order (a stable sort).
pub open spec fn latest_laps(c: Seq<LapSpan>, m: nat) -> Seq<LapSpan>
    decreases m,
{
    if m == 0 || c.len() == 0 {
        Seq::empty()
    } else {
        let k = latest_index(c);
        seq![c[k]] + latest_laps(c.remove(k), (m - 1) as nat)
    }
}

/// How many finished laps the lap list shows.
pub open spec fn shown_laps() -> nat {
    3
}

/// Lap statistics at one moment.
#[derive(Debug, Clone, PartialEq, Eq)]
pub struct LapState {
    /// The most recently finished laps, latest first, at most three.
    pub previous_laps: Vec<LapSpan>,
    /// The quickest finished lap.
    pub best_lap: Option<LapSpan>,
}

/// The laps finished by `t_ms`, read off samples `s` with lap numbers
/// shifted down by `offset`.
pub open spec fn finished_laps(s: Seq<SampleKey>, offset: u32, t_ms: i64) -> Seq<LapSpan> {
    ended_by(closed_laps(s, offset), t_ms)
}

/// Lap statistics at `t_ms`.
pub open spec fn lap_state_ok(s: Seq<SampleKey>, offset: u32, t_ms: i64, r: LapState) -> bool {
    &&& r.previous_laps@ == latest_laps(finished_laps(s, offset, t_ms), shown_laps())
    &&& r.best_lap == quickest(finished_laps(s, offset, t_ms))
}

// ---------------------------------------------------------------------------
// Proofs about the specifications
proof fn lemma_segment_start(s: Seq<SampleKey>, n: int, offset: u32)
    requires
        0 <= n <= s.len(),
        s.len() <= usize::MAX,
    ensures
        0 <= segment(s, n, offset).1 <= if n > 0 {
            n - 1
        } else {
            0
        },
        n >= 1 ==> (s[0].lap_number matches Some(l) ==> segment(s, 1, offset).0 == l),
        forall|k: int|
            0 <= k < segment(s, n, offset).2.len() ==> {
                let lap = #[trigger] segment(s, n, offset).2[k];
                &&& lap.start_idx <= lap.end_idx
                &&& lap.end_idx + 1 < n
            },
    decreases n,
{
    if n > 0 {
        lemma_segment_start(s, n - 1, offset);
        let (cur, start, laps) = segment(s, n - 1, offset);
        let r = segment(s, n, offset).2;
        assert forall|k: int| 0 <= k < r.len() implies {
            let lap = #[trigger] r[k];
            &&& lap.start_idx <= lap.end_idx
            &&& lap.end_idx + 1 < n
        } by {
            if k < laps.len() {
                assert(r[k] == laps[k]);
            }
        }
    }
}

/// `l` is one whole lap of `s`: every sample from its first to its last
/// carries one lap number (or none), the sample right after it carries a
/// different number, its number is that lap number moved down by `offset`
/// (lap 0 moved down when only the log's first lap starts without one),
/// and its times and duration are read from its first and last samples.
pub open spec fn whole_lap(s: Seq<SampleKey>, l: LapSpan, offset: u32) -> bool {
    let a = l.start_idx as int;
    let e = l.end_idx as int;
    &&& a <= e
    &&& e + 1 < s.len()
    &&& forall|i: int, j: int|
        #![trigger s[i].lap_number, s[j].lap_number]
        a <= i <= e && a <= j <= e && s[i].lap_number is Some && s[j].lap_number is Some
            ==> s[i].lap_number == s[j].lap_number
    &&& s[e + 1].lap_number is Some
    &&& forall|i: int|
        a <= i <= e && (#[trigger] s[i].lap_number) is Some ==> s[i].lap_number != s[e + 1].lap_number
    &&& forall|i: int|
        a <= i <= e && (#[trigger] s[i].lap_number) is Some ==> adjusted_lap(
            s[i].lap_number->0,
            offset,
        ) == l.lap_number
    &&& s[a].lap_number is None ==> a == 0 && l.lap_number == adjusted_lap(0, offset)
    &&& l.start_time_ms == s[a].time_ms
    &&& l.end_time_ms == s[e].time_ms
    &&& l.duration_ms == match s[e].lap_time_ms {
        Some(d) => d,
        None => (s[e].time_ms - s[a].time_ms) as i64,
    }
}

proof fn lemma_segment_whole_laps(s: Seq<SampleKey>, n: int, offset: u32)
    requires
        0 <= n <= s.len(),
        s.len() <= usize::MAX,
    ensures
        ({
            let (cur, start, laps) = segment(s, n, offset);
            &&& forall|i: int| start <= i < n && (#[trigger] s[i].lap_number) is Some ==> s[i].lap_number
                == Some(cur)
            &&& (s.len() > 0 && s[start].lap_number is None) ==> start == 0 && cur == 0
            &&& laps.len() == 0 ==> start == 0
            &&& laps.len() > 0 ==> laps[0].start_idx == 0 && laps.last().end_idx + 1 == start
            &&& forall|k: int| 0 <= k < laps.len() - 1 ==> #[trigger] laps[k + 1].start_idx == laps[k].end_idx
                + 1
            &&& forall|k: int| 0 <= k < laps.len() ==> whole_lap(s, #[trigger] laps[k], offset)
        }),
    decreases n,
{
    lemma_segment_start(s, n, offset);
    if n > 0 {
        lemma_segment_whole_laps(s, n - 1, offset);
        lemma_segment_start(s, n - 1, offset);
        let (cur, start, laps) = segment(s, n - 1, offset);
        match s[n - 1].lap_number {
            Some(l) => if l != cur {
                if n - 1 == 0 {
                    assert(first_lap(s) == l);
                    assert(false);
                }
                assert(n - 2 >= start);
                let lap = closed_lap(s, start, n - 2, cur, offset);
                let r = laps.push(lap);
                assert(lap.start_idx as int == start);
                assert(lap.end_idx as int == n - 2);
                assert(whole_lap(s, lap, offset));
                assert forall|k: int| 0 <= k < r.len() implies whole_lap(s, #[trigger] r[k], offset) by {
                    if k < laps.len() {
                        assert(r[k] == laps[k]);
                    }
                }
                assert forall|k: int| 0 <= k < r.len() - 1 implies #[trigger] r[k + 1].start_idx
                    == r[k].end_idx + 1 by {
                    assert(r[k] == laps[k]);
                    if k + 1 < laps.len() {
                        assert(r[k + 1] == laps[k + 1]);
                    }
                }
            },
            None => {},
        }
    }
}

/// Every closed lap is a whole lap of the log, and the closed laps follow
/// one another from the first sample on: each starts right after the one
/// before it ends, so a lap runs up to the last sample before the next
/// lap's first one.
pub proof fn law_closed_laps_are_whole(s: Seq<SampleKey>, offset: u32)
    requires
        s.len() <= usize::MAX,
    ensures
        closed_laps(s, offset).len() > 0 ==> closed_laps(s, offset)[0].start_idx == 0,
        forall|k: int|
            0 <= k < closed_laps(s, offset).len() - 1 ==> #[trigger] closed_laps(s, offset)[k
                + 1].start_idx == closed_laps(s, offset)[k].end_idx + 1,
        forall|k: int|
            0 <= k < closed_laps(s, offset).len() ==> whole_lap(s, #[trigger] closed_laps(s, offset)[k], offset),
{
    lemma_segment_whole_laps(s, s.len() as int, offset);
}

/// Crossing `m` was recorded at sample `k`.
pub open spec fn marks_sample(m: (u32, i64), k: SampleKey, offset: u32) -> bool {
    &&& k.time_ms == m.1
    &&& match k.lap_number {
        Some(l) => adjusted_lap(l, offset) == m.0,
        None => false,
    }
}

/// Consecutive crossings name different laps, and there are no more
/// crossings than samples.
pub proof fn law_lap_marks_shape(s: Seq<SampleKey>, offset: u32)
    ensures
        lap_marks(s, offset).len() <= s.len(),
        forall|k: int|
            0 <= k < lap_marks(s, offset).len() - 1 ==> #[trigger] lap_marks(s, offset)[k].0
                != lap_marks(s, offset)[k + 1].0,
        forall|k: int|
            0 <= k < lap_marks(s, offset).len() ==> exists|i: int|
                0 <= i < s.len() && marks_sample(#[trigger] lap_marks(s, offset)[k], s[i], offset),
    decreases s.len(),
{
    if s.len() > 0 {
        let p = s.drop_last();
        law_lap_marks_shape(p, offset);
        let prev = lap_marks(p, offset);
        assert forall|k: int|
            0 <= k < lap_marks(s, offset).len() implies exists|i: int|
            0 <= i < s.len() && marks_sample(#[trigger] lap_marks(s, offset)[k], s[i], offset) by {
            if k < prev.len() {
                let i = choose|i: int| 0 <= i < p.len() && marks_sample(prev[k], p[i], offset);
                assert(s[i] == p[i]);
                assert(marks_sample(lap_marks(s, offset)[k], s[i], offset));
            } else {
                assert(s[s.len() - 1] == s.last());
                assert(marks_sample(lap_marks(s, offset)[k], s[s.len() - 1], offset));
            }
        }
    }
}

proof fn lemma_latest_index(c: Seq<LapSpan>)
    requires
        c.len() > 0,
    ensures
        0 <= latest_index(c) < c.len(),
        forall|j: int| 0 <= j < c.len() ==> (#[trigger] c[j]).end_time_ms <= c[latest_index(c)].end_time_ms,
        forall|j: int| 0 <= j < latest_index(c) ==> (#[trigger] c[j]).end_time_ms < c[latest_index(c)].end_time_ms,
    decreases c.len(),
{
    if c.len() > 1 {
        let p = c.drop_last();
        lemma_latest_index(p);
        let k = latest_index(p);
        assert(c[k] == p[k]);
        assert forall|j: int| 0 <= j < c.len() implies (#[trigger] c[j]).end_time_ms
            <= c[latest_index(c)].end_time_ms by {
            if j < c.len() - 1 {
                assert(c[j] == p[j]);
            }
        }
        assert forall|j: int| 0 <= j < latest_index(c) implies (#[trigger] c[j]).end_time_ms
            < c[latest_index(c)].end_time_ms by {
            if j < c.len() - 1 {
                assert(c[j] == p[j]);
            }
        }
    }
}

/// The laps listed as previous are finished laps, latest first, and there
/// are `min(3, finished)` of them.
pub proof fn law_previous_laps_latest_first(c: Seq<LapSpan>, m: nat)
    ensures
        latest_laps(c, m).len() == if c.len() < m {
            c.len()
        } else {
            m
        },
        forall|k: int|
            0 <= k < latest_laps(c, m).len() ==> c.contains(#[trigger] latest_laps(c, m)[k]),
        forall|k: int|
            0 <= k < latest_laps(c, m).len() - 1 ==> #[trigger] latest_laps(c, m)[k].end_time_ms
                >= latest_laps(c, m)[k + 1].end_time_ms,
        forall|k: int, j: int|
            0 <= k < latest_laps(c, m).len() && 0 <= j < c.len() && !latest_laps(c, m).contains(c[j])
                ==> #[trigger] c[j].end_time_ms <= #[trigger] latest_laps(c, m)[k].end_time_ms,
    decreases m,
{
    if m > 0 && c.len() > 0 {
        let k0 = latest_index(c);
        lemma_latest_index(c);
        let r = c.remove(k0);
        law_previous_laps_latest_first(r, (m - 1) as nat);
        let tail = latest_laps(r, (m - 1) as nat);
        let all = latest_laps(c, m);
        assert(all == seq![c[k0]] + tail);
        assert forall|k: int| 0 <= k < all.len() implies c.contains(#[trigger] all[k]) by {
            if k == 0 {
                assert(c[k0] == all[0]);
            } else {
                assert(all[k] == tail[k - 1]);
                assert(r.contains(tail[k - 1]));
                let q = choose|q: int| 0 <= q < r.len() && r[q] == tail[k - 1];
                if q < k0 {
                    assert(r[q] == c[q]);
                } else {
                    assert(r[q] == c[q + 1]);
                }
            }
        }
        assert forall|k: int| 0 <= k < all.len() - 1 implies #[trigger] all[k].end_time_ms
            >= all[k + 1].end_time_ms by {
            if k == 0 {
                assert(all[1] == tail[0]);
                assert(r.contains(tail[0]));
                let q = choose|q: int| 0 <= q < r.len() && r[q] == tail[0];
                if q < k0 {
                    assert(r[q] == c[q]);
                } else {
                    assert(r[q] == c[q + 1]);
                }
            } else {
                assert(all[k] == tail[k - 1]);
                assert(all[k + 1] == tail[k]);
            }
        }
        assert forall|k: int, j: int|
            0 <= k < all.len() && 0 <= j < c.len() && !all.contains(c[j]) implies #[trigger] c[j].end_time_ms
            <= #[trigger] all[k].end_time_ms by {
            if j != k0 {
                let q = if j < k0 {
                    j
                } else {
                    j - 1
                };
                assert(r[q] == c[j]);
                if k == 0 {
                } else {
                    assert(all[k] == tail[k - 1]);
                    if tail.contains(c[j]) {
                        let w = choose|w: int| 0 <= w < tail.len() && tail[w] == c[j];
                        assert(all[w + 1] == c[j]);
                    }
                }
            } else {
                assert(all[0] == c[j]);
            }
        }
    }
}

/// The best lap is a finished lap no slower than any other, and the first
/// of the quickest.
pub proof fn law_best_lap_is_quickest(c: Seq<LapSpan>)
    ensures
        c.len() == 0 <==> quickest(c) is None,
        quickest(c) matches Some(b) ==> c.contains(b) && forall|j: int|
            0 <= j < c.len() ==> b.duration_ms <= #[trigger] c[j].duration_ms,
    decreases c.len(),
{
    if c.len() > 0 {
        let p = c.drop_last();
        law_best_lap_is_quickest(p);
        match quickest(p) {
            None => {
                assert(c[c.len() - 1] == c.last());
            },
            Some(b) => {
                let q = choose|q: int| 0 <= q < p.len() && p[q] == b;
                assert(c[q] == b);
                assert(c[c.len() - 1] == c.last());
                assert forall|j: int| 0 <= j < c.len() implies quickest(c).unwrap().duration_ms
                    <= #[trigger] c[j].duration_ms by {
                    if j < c.len() - 1 {
                        assert(c[j] == p[j]);
                    }
                }
            },
        }
    }
}

/// Every lap counted as finished by `t_ms` ended by then.
pub proof fn lemma_ended_by(c: Seq<LapSpan>, t_ms: i64)
    ensures
        forall|k: int|
            0 <= k < ended_by(c, t_ms).len() ==> (#[trigger] ended_by(c, t_ms)[k]).end_time_ms
                <= t_ms && c.contains(ended_by(c, t_ms)[k]),
        forall|j: int| 0 <= j < c.len() && c[j].end_time_ms <= t_ms ==> ended_by(c, t_ms).contains(#[trigger] c[j]),
    decreases c.len(),
{
    if c.len() > 0 {
        let p = c.drop_last();
        lemma_ended_by(p, t_ms);
        let e = ended_by(c, t_ms);
        let ep = ended_by(p, t_ms);
        assert forall|k: int| 0 <= k < e.len() implies (#[trigger] e[k]).end_time_ms <= t_ms
            && c.contains(e[k]) by {
            if k < ep.len() {
                assert(e[k] == ep[k]);
                let q = choose|q: int| 0 <= q < p.len() && p[q] == ep[k];
                assert(c[q] == p[q]);
            } else {
                assert(c[c.len() - 1] == c.last());
            }
        }
        assert forall|j: int| 0 <= j < c.len() && c[j].end_time_ms <= t_ms implies e.contains(
            #[trigger] c[j],
        ) by {
            if j < c.len() - 1 {
                assert(c[j] == p[j]);
                assert(ep.contains(p[j]));
                let w = choose|w: int| 0 <= w < ep.len() && ep[w] == p[j];
                assert(e[w] == ep[w]);
            } else {
                assert(c[j] == c.last());
                assert(e[e.len() - 1] == c.last());
            }
        }
    }
}

/// A lap finished at some moment is still counted as finished later.
pub proof fn law_finished_laps_persist(s: Seq<SampleKey>, offset: u32, t1: i64, t2: i64)
    requires
        t1 <= t2,
    ensures
        forall|k: int|
            0 <= k < finished_laps(s, offset, t1).len() ==> finished_laps(s, offset, t2).contains(
                #[trigger] finished_laps(s, offset, t1)[k],
            ),
{
    let c = closed_laps(s, offset);
    lemma_ended_by(c, t1);
    lemma_ended_by(c, t2);
    assert forall|k: int| 0 <= k < finished_laps(s, offset, t1).len() implies finished_laps(
        s,
        offset,
        t2,
    ).contains(#[trigger] finished_laps(s, offset, t1)[k]) by {
        let lap = finished_laps(s, offset, t1)[k];
        assert(c.contains(lap));
        let j = choose|j: int| 0 <= j < c.len() && c[j] == lap;
        assert(c[j].end_time_ms <= t2);
    }
}

proof fn lemma_ended_by_len(c: Seq<LapSpan>, t1: i64, t2: i64)
    requires
        t1 <= t2,
    ensures
        ended_by(c, t1).len() <= ended_by(c, t2).len(),
    decreases c.len(),
{
    if c.len() > 0 {
        lemma_ended_by_len(c.drop_last(), t1, t2);
    }
}

/// Lap statistics only grow with time: later there are at least as many
/// previous laps listed, and once there is a best lap there stays one, no
/// slower.
pub proof fn law_lap_state_grows(s: Seq<SampleKey>, offset: u32, t1: i64, t2: i64, a: LapState, b: LapState)
    requires
        t1 <= t2,
        lap_state_ok(s, offset, t1, a),
        lap_state_ok(s, offset, t2, b),
    ensures
        a.previous_laps@.len() <= b.previous_laps@.len(),
        a.best_lap is Some ==> b.best_lap is Some && b.best_lap->0.duration_ms
            <= a.best_lap->0.duration_ms,
{
    let f1 = finished_laps(s, offset, t1);
    let f2 = finished_laps(s, offset, t2);
    lemma_ended_by_len(closed_laps(s, offset), t1, t2);
    law_previous_laps_latest_first(f1, shown_laps());
    law_previous_laps_latest_first(f2, shown_laps());
    law_best_lap_is_quickest(f1);
    law_best_lap_is_quickest(f2);
    law_finished_laps_persist(s, offset, t1, t2);
    if a.best_lap is Some {
        let l = a.best_lap->0;
        let k = choose|k: int| 0 <= k < f1.len() && f1[k] == l;
        assert(f2.contains(f1[k]));
        let j = choose|j: int| 0 <= j < f2.len() && f2[j] == l;
        assert(b.best_lap->0.duration_ms <= f2[j].duration_ms);
    }
}

/// A lap with its number shifted down by `k` (saturating).
pub open spec fn renumbered(l: LapSpan, k: u32) -> LapSpan {
    LapSpan { lap_number: adjusted_lap(l.lap_number, k), ..l }
}

/// Laps with their numbers shifted down by `k`.
pub open spec fn renumber_all(c: Seq<LapSpan>, k: u32) -> Seq<LapSpan> {
    Seq::new(c.len(), |i: int| renumbered(c[i], k))
}

proof fn lemma_segment_renumbered(s: Seq<SampleKey>, n: int, k: u32)
    ensures
        segment(s, n, k).0 == segment(s, n, 0).0,
        segment(s, n, k).1 == segment(s, n, 0).1,
        segment(s, n, k).2 == renumber_all(segment(s, n, 0).2, k),
    decreases n,
{
    if n <= 0 {
        assert(renumber_all(Seq::<LapSpan>::empty(), k) =~= Seq::<LapSpan>::empty());
    } else {
        lemma_segment_renumbered(s, n - 1, k);
        let (cur, start, laps) = segment(s, n - 1, 0);
        match s[n - 1].lap_number {
            Some(l) => if l != cur && n - 2 >= start {
                let lap = closed_lap(s, start, n - 2, cur, 0);
                assert(closed_lap(s, start, n - 2, cur, k) == renumbered(lap, k));
                assert(renumber_all(laps, k).push(renumbered(lap, k)) =~= renumber_all(laps.push(lap), k));
            },
            None => {},
        }
    }
}

proof fn lemma_ended_by_renumbered(c: Seq<LapSpan>, k: u32, t: i64)
    ensures
        ended_by(renumber_all(c, k), t) == renumber_all(ended_by(c, t), k),
    decreases c.len(),
{
    if c.len() == 0 {
        assert(renumber_all(Seq::<LapSpan>::empty(), k) =~= Seq::<LapSpan>::empty());
    } else {
        let r = renumber_all(c, k);
        assert(r.drop_last() =~= renumber_all(c.drop_last(), k));
        lemma_ended_by_renumbered(c.drop_last(), k, t);
        let e = ended_by(c.drop_last(), t);
        assert(renumber_all(e, k).push(renumbered(c.last(), k)) =~= renumber_all(e.push(c.last()), k));
    }
}

proof fn lemma_quickest_renumbered(c: Seq<LapSpan>, k: u32)
    ensures
        quickest(renumber_all(c, k)) == match quickest(c) {
            Some(l) => Some(renumbered(l, k)),
            None => None,
        },
    decreases c.len(),
{
    if c.len() > 0 {
        let r = renumber_all(c, k);
        assert(r.drop_last() =~= renumber_all(c.drop_last(), k));
        lemma_quickest_renumbered(c.drop_last(), k);
    }
}

proof fn lemma_latest_index_renumbered(c: Seq<LapSpan>, k: u32)
    ensures
        latest_index(renumber_all(c, k)) == latest_index(c),
    decreases c.len(),
{
    if c.len() > 1 {
        let r = renumber_all(c, k);
        assert(r.drop_last() =~= renumber_all(c.drop_last(), k));
        lemma_latest_index_renumbered(c.drop_last(), k);
        lemma_latest_index(c.drop_last());
    }
}

proof fn lemma_latest_laps_renumbered(c: Seq<LapSpan>, m: nat, k: u32)
    ensures
        latest_laps(renumber_all(c, k), m) == renumber_all(latest_laps(c, m), k),
    decreases m,
{
    if m == 0 || c.len() == 0 {
        assert(renumber_all(Seq::<LapSpan>::empty(), k) =~= Seq::<LapSpan>::empty());
    } else {
        let r = renumber_all(c, k);
        lemma_latest_index_renumbered(c, k);
        lemma_latest_index(c);
        let i = latest_index(c);
        assert(r.remove(i) =~= renumber_all(c.remove(i), k));
        lemma_latest_laps_renumbered(c.remove(i), (m - 1) as nat, k);
        let tail = latest_laps(c.remove(i), (m - 1) as nat);
        assert(seq![renumbered(c[i], k)] + renumber_all(tail, k) =~= renumber_all(seq![c[i]] + tail, k));
    }
}

/// A view's lap statistics are the log's with every lap number shifted down
/// by the view's lap offset (saturating); with offset 0 they are the same.
pub proof fn law_view_lap_state_renumbers(s: Seq<SampleKey>, k: u32, t: i64, a: LapState, b: LapState)
    requires
        lap_state_ok(s, 0, t, a),
        lap_state_ok(s, k, t, b),
    ensures
        b.previous_laps@ == renumber_all(a.previous_laps@, k),
        b.best_lap == match a.best_lap {
            Some(l) => Some(renumbered(l, k)),
            None => None,
        },
        k == 0 ==> b.previous_laps@ == a.previous_laps@ && b.best_lap == a.best_lap,
{
    lemma_segment_renumbered(s, s.len() as int, k);
    let c = closed_laps(s, 0);
    lemma_ended_by_renumbered(c, k, t);
    let f = ended_by(c, t);
    lemma_quickest_renumbered(f, k);
    lemma_latest_laps_renumbered(f, shown_laps(), k);
    if k == 0 {
        let p = a.previous_laps@;
        assert(renumber_all(p, 0) =~= p);
    }
}

/// With no export range and no sync offset, a view of a sorted log whose
/// times are non-negative (and short of `i64::MAX`) keeps every sample.
pub proof fn law_unbounded_window(s: Seq<SampleKey>)
    requires
        sorted_times(times_of(s)),
        forall|i: int| 0 <= i < s.len() ==> 0 <= #[trigger] s[i].time_ms < i64::MAX,
    ensures
        count_before(times_of(s), window_start(None, 0) as i64) == 0,
        count_before(times_of(s), window_end(None, 0) as i64) == s.len(),
{
    let t = times_of(s);
    assert forall|j: int| 0 <= j < t.len() implies t[j] >= 0 by {
        assert(t[j] == s[j].time_ms);
    }
    lemma_count_before_split(t, 0, 0);
    assert forall|j: int| 0 <= j < t.len() implies t[j] < i64::MAX by {
        assert(t[j] == s[j].time_ms);
    }
    lemma_count_before_split(t, i64::MAX, t.len() as int);
}

/// In a sorted log, the samples a view keeps are exactly those whose time
/// lies in the window: from the window start (included) to the window end
/// (excluded).
pub proof fn law_view_is_the_window(
    s: Seq<SampleKey>,
    start_ms: Option<i64>,
    end_ms: Option<i64>,
    sync_offset_ms: i64,
    k: int,
)
    requires
        sorted_times(times_of(s)),
        window_fits(start_ms, end_ms, sync_offset_ms),
        0 <= k < s.len(),
    ensures
        ({
            let t = times_of(s);
            let a = count_before(t, window_start(start_ms, sync_offset_ms) as i64);
            let b = count_before(t, window_end(end_ms, sync_offset_ms) as i64);
            (a <= k < b) <==> (window_start(start_ms, sync_offset_ms) <= s[k].time_ms
                < window_end(end_ms, sync_offset_ms))
        }),
{
    let t = times_of(s);
    let ws = window_start(start_ms, sync_offset_ms) as i64;
    let we = window_end(end_ms, sync_offset_ms) as i64;
    assert(t[k] == s[k].time_ms);
    lemma_count_before_split_any(t, ws, k);
    lemma_count_before_split_any(t, ws, k + 1);
    lemma_count_before_split_any(t, we, k);
    lemma_count_before_split_any(t, we, k + 1);
}

/// The first crossing of a run of samples that starts inside a lap is that
/// lap, at the first sample's time.
proof fn lemma_lap_marks_first(s: Seq<SampleKey>, offset: u32, l: u32)
    requires
        s.len() > 0,
        s[0].lap_number == Some(l),
    ensures
        lap_marks(s, offset).len() > 0,
        lap_marks(s, offset)[0] == (adjusted_lap(l, offset), s[0].time_ms),
    decreases s.len(),
{
    let p = s.drop_last();
    if s.len() > 1 {
        assert(p[0] == s[0]);
        lemma_lap_marks_first(p, offset, l);
    } else {
        assert(lap_marks(p, offset) == Seq::<(u32, i64)>::empty());
        assert(s.last() == s[0]);
    }
}

/// A view renumbers its laps so that the lap it starts in is lap 1 (lap 0
/// stays lap 0).
pub proof fn law_view_starts_at_lap_one(s: Seq<SampleKey>, l: u32)
    requires
        s.len() > 0,
        s[0].lap_number == Some(l),
    ensures
        lap_marks(s, adjusted_lap(l, 1)).len() > 0,
        lap_marks(s, adjusted_lap(l, 1))[0].0 == if l >= 1 {
            1u32
        } else {
            0u32
        },
{
    lemma_lap_marks_first(s, adjusted_lap(l, 1), l);
}

// ---------------------------------------------------------------------------
// Executable parts
/// `lower_bound` over the samples' time stamps, read in place from the
/// records (the search a `binary_search_by_key` on the time makes), so that
/// no copy of the stamps is made for a lookup.
fn lower_bound_keys(s: &Vec<SampleKey>, x: i64) -> (r: usize)
    ensures
        r <= s@.len(),
        sorted_times(times_of(s@)) ==> r == count_before(times_of(s@), x),
        sorted_times(times_of(s@)) ==> forall|j: int| 0 <= j < r ==> times_of(s@)[j] < x,
        sorted_times(times_of(s@)) ==> forall|j: int|
            r <= j < s@.len() ==> times_of(s@)[j] >= x,
{
    let ghost t = times_of(s@);
    let mut lo: usize = 0;
    let mut hi: usize = s.len();
    while lo < hi
        invariant
            lo <= hi <= s@.len(),
            t == times_of(s@),
            sorted_times(t) ==> forall|j: int| 0 <= j < lo ==> t[j] < x,
            sorted_times(t) ==> forall|j: int| hi <= j < s@.len() ==> t[j] >= x,
        decreases hi - lo,
    {
        let mid = lo + (hi - lo) / 2;
        assert(t[mid as int] == s@[mid as int].time_ms);
        if s[mid].time_ms < x {
            lo = mid + 1;
        } else {
            hi = mid;
        }
    }
    proof {
        if sorted_times(t) {
            lemma_count_before_split(t, x, lo as int);
        }
    }
    lo
}

fn bracket_keys(s: &Vec<SampleKey>, x: i64) -> (b: Bracket)
    ensures
        bracket_ok(times_of(s@), x, b),
{
    let ghost t = times_of(s@);
    if s.len() == 0 {
        return Bracket::Empty;
    }
    let i = lower_bound_keys(s, x);
    if i < s.len() && s[i].time_ms == x {
        Bracket::Point(i)
    } else if i == 0 {
        Bracket::Point(0)
    } else if i >= s.len() {
        Bracket::Point(s.len() - 1)
    } else {
        Bracket::Between(i)
    }
}

fn lap_marks_exec(s: &Vec<SampleKey>, offset: u32) -> (r: Vec<(u32, i64)>)
    ensures
        r@ == lap_marks(s@, offset),
{
    let mut laps: Vec<(u32, i64)> = Vec::new();
    let mut current: Option<u32> = None;
    let mut i: usize = 0;
    while i < s.len()
        invariant
            i <= s@.len(),
            laps@ == lap_marks(s@.take(i as int), offset),
            current == (if laps@.len() > 0 {
                Some(laps@.last().0)
            } else {
                None::<u32>
            }),
        decreases s.len() - i,
    {
        assert(s@.take(i + 1).drop_last() == s@.take(i as int));
        assert(s@.take(i + 1).last() == s@[i as int]);
        match s[i].lap_number {
            Some(lap) => {
                let adjusted = if lap >= offset {
                    lap - offset
                } else {
                    0
                };
                if current != Some(adjusted) {
                    current = Some(adjusted);
                    laps.push((adjusted, s[i].time_ms));
                }
            },
            None => {},
        }
        i = i + 1;
    }
    assert(s@.take(s@.len() as int) == s@);
    laps
}

proof fn lemma_segment_prefix(s: Seq<SampleKey>, n: int, m: int, offset: u32)
    requires
        0 <= n <= m,
    ensures
        segment(s, n, offset).2.len() <= segment(s, m, offset).2.len(),
        forall|j: int|
            0 <= j < segment(s, n, offset).2.len() ==> #[trigger] segment(s, m, offset).2[j] == segment(
                s,
                n,
                offset,
            ).2[j],
    decreases m - n,
{
    if n < m {
        lemma_segment_prefix(s, n, m - 1, offset);
    }
}

/// The closed laps of `s`, or `None` when the duration of one of them does
/// not fit in an `i64`.
fn closed_laps_exec(s: &Vec<SampleKey>, offset: u32) -> (r: Option<Vec<LapSpan>>)
    ensures
        match r {
            Some(v) => lap_spans_fit(s@) && v@ == closed_laps(s@, offset),
            None => !lap_spans_fit(s@),
        },
{
    let len = s.len();
    let ghost n = s@.len() as int;
    proof {
        assert(n == len);
        lemma_segment_renumbered(s@, n, offset);
        lemma_segment_start(s@, n, offset);
    }
    let mut laps: Vec<LapSpan> = Vec::new();
    let mut current_lap_start_idx: usize = 0;
    let mut current_lap: u32 = if s.len() > 0 {
        match s[0].lap_number {
            Some(l) => l,
            None => 0,
        }
    } else {
        0
    };
    let mut i: usize = 0;
    while i < s.len()
        invariant
            i <= s@.len(),
            n == s@.len(),
            segment(s@, i as int, offset) == (current_lap, current_lap_start_idx as int, laps@),
            current_lap == first_lap(s@) || i > 0,
            closed_laps(s@, offset) == renumber_all(closed_laps(s@, 0), offset),
            forall|j: int| 0 <= j < laps@.len() ==> lap_span_fits(s@, #[trigger] laps@[j]),
        decreases s.len() - i,
    {
        proof {
            lemma_segment_start(s@, i as int, offset);
            lemma_segment_start(s@, i + 1, offset);
            lemma_segment_prefix(s@, i + 1, n, offset);
        }
        match s[i].lap_number {
            Some(lap) => {
                if lap != current_lap {
                    let end_idx = i - 1;
                    if end_idx >= current_lap_start_idx {
                        let start_s = s[current_lap_start_idx];
                        let end_s = s[end_idx];
                        let ghost k = laps@.len() as int;
                        let ghost new_lap = closed_lap(s@, current_lap_start_idx as int, end_idx as int, current_lap, offset);
                        proof {
                            assert(segment(s@, i + 1, offset).2 == laps@.push(new_lap));
                            assert(closed_laps(s@, offset)[k] == new_lap);
                            assert(closed_laps(s@, 0)[k].start_idx == new_lap.start_idx);
                            assert(closed_laps(s@, 0)[k].end_idx == new_lap.end_idx);
                        }
                        let duration_ms = match end_s.lap_time_ms {
                            Some(d) => d,
                            None => {
                                let diff: i128 = end_s.time_ms as i128 - start_s.time_ms as i128;
                                if diff < -0x8000_0000_0000_0000 || diff > 0x7fff_ffff_ffff_ffff {
                                    proof {
                                        assert(!lap_span_fits(s@, closed_laps(s@, 0)[k]));
                                    }
                                    return None;
                                }
                                diff as i64
                            },
                        };
                        let adjusted = if current_lap >= offset {
                            current_lap - offset
                        } else {
                            0
                        };
                        laps.push(
                            LapSpan {
                                lap_number: adjusted,
                                start_idx: current_lap_start_idx,
                                end_idx,
                                start_time_ms: start_s.time_ms,
                                end_time_ms: end_s.time_ms,
                                duration_ms,
                            },
                        );
                    }
                    current_lap = lap;
                    current_lap_start_idx = i;
                }
            },
            None => {},
        }
        i = i + 1;
    }
    proof {
        assert forall|k: int| 0 <= k < closed_laps(s@, 0).len() implies lap_span_fits(
            s@,
            #[trigger] closed_laps(s@, 0)[k],
        ) by {
            assert(closed_laps(s@, offset)[k] == laps@[k]);
        }
    }
    Some(laps)
}

/// Whether every closed lap's duration fits in an `i64`, as `lap_state`
/// needs.
pub fn lap_spans_fit_exec(samples: &Vec<SampleKey>) -> (b: bool)
    ensures
        b == lap_spans_fit(samples@),
{
    closed_laps_exec(samples, 0).is_some()
}

fn ended_by_exec(c: &Vec<LapSpan>, t_ms: i64) -> (r: Vec<LapSpan>)
    ensures
        r@ == ended_by(c@, t_ms),
{
    let mut r: Vec<LapSpan> = Vec::new();
    let mut i: usize = 0;
    while i < c.len()
        invariant
            i <= c@.len(),
            r@ == ended_by(c@.take(i as int), t_ms),
        decreases c.len() - i,
    {
        assert(c@.take(i + 1).drop_last() == c@.take(i as int));
        assert(c@.take(i + 1).last() == c@[i as int]);
        if c[i].end_time_ms <= t_ms {
            r.push(c[i]);
        }
        i = i + 1;
    }
    assert(c@.take(c@.len() as int) == c@);
    r
}

fn quickest_exec(c: &Vec<LapSpan>) -> (r: Option<LapSpan>)
    ensures
        r == quickest(c@),
{
    let mut best: Option<LapSpan> = None;
    let mut i: usize = 0;
    while i < c.len()
        invariant
            i <= c@.len(),
            best == quickest(c@.take(i as int)),
        decreases c.len() - i,
    {
        assert(c@.take(i + 1).drop_last() == c@.take(i as int));
        assert(c@.take(i + 1).last() == c@[i as int]);
        match best {
            None => {
                best = Some(c[i]);
            },
            Some(b) => {
                if c[i].duration_ms < b.duration_ms {
                    best = Some(c[i]);
                }
            },
        }
        i = i + 1;
    }
    assert(c@.take(c@.len() as int) == c@);
    best
}

fn latest_index_exec(c: &Vec<LapSpan>) -> (k: usize)
    requires
        c@.len() > 0,
    ensures
        k == latest_index(c@),
        k < c@.len(),
{
    let mut k: usize = 0;
    let mut j: usize = 1;
    while j < c.len()
        invariant
            1 <= j <= c@.len(),
            k == latest_index(c@.take(j as int)),
            k < j,
        decreases c.len() - j,
    {
        assert(c@.take(j + 1).drop_last() == c@.take(j as int));
        assert(c@.take(j + 1).last() == c@[j as int]);
        assert(c@.take(j + 1)[k as int] == c@[k as int]);
        if c[j].end_time_ms > c[k].end_time_ms {
            k = j;
        }
        j = j + 1;
    }
    assert(c@.take(c@.len() as int) == c@);
    k
}

fn latest_laps_exec(c: &Vec<LapSpan>, m: usize) -> (r: Vec<LapSpan>)
    ensures
        r@ == latest_laps(c@, m as nat),
{
    let mut rest = c.clone();
    let mut out: Vec<LapSpan> = Vec::new();
    let mut left: usize = m;
    proof {
        assert(rest@ == c@);
    }
    while left > 0 && rest.len() > 0
        invariant
            out@ + latest_laps(rest@, left as nat) == latest_laps(c@, m as nat),
        decreases left,
    {
        let ghost before = rest@;
        let k = latest_index_exec(&rest);
        let lap = rest.remove(k);
        proof {
            assert(latest_laps(before, left as nat) == seq![lap] + latest_laps(rest@, (left - 1) as nat));
            assert(out@.push(lap) + latest_laps(rest@, (left - 1) as nat) == out@ + latest_laps(before, left as nat));
        }
        out.push(lap);
        left = left - 1;
    }
    out
}

/// Lap statistics of samples `s` at `t_ms`, lap numbers shifted down by
/// `offset`.
fn lap_state_of(s: &Vec<SampleKey>, offset: u32, t_ms: i64) -> (r: LapState)
    requires
        lap_spans_fit(s@),
    ensures
        lap_state_ok(s@, offset, t_ms, r),
{
    let laps = match closed_laps_exec(s, offset) {
        Some(v) => v,
        None => {
            proof {
                assert(false);
            }
            Vec::new()
        },
    };
    let completed = ended_by_exec(&laps, t_ms);
    let best_lap = quickest_exec(&completed);
    let previous_laps = latest_laps_exec(&completed, 3);
    LapState { previous_laps, best_lap }
}

// ---------------------------------------------------------------------------
// The log and its views
/// The samples of a session, in recording order.
pub struct TelemetryLog {
    pub samples: Vec<SampleKey>,
}

impl TelemetryLog {
    /// The lap crossings of the log, `(lap number, time)` in sample order.
    pub fn extract_laps(&self) -> (r: Vec<(u32, i64)>)
        ensures
            r@ == lap_marks(self.samples@, 0),
    {
        lap_marks_exec(&self.samples, 0)
    }

    /// Where `t_ms` falls among the samples (what `sample_at` interpolates
    /// between).
    pub fn bracket_at(&self, t_ms: i64) -> (b: Bracket)
        ensures
            bracket_ok(times_of(self.samples@), t_ms, b),
    {
        bracket_keys(&self.samples, t_ms)
    }

    /// Finished laps at `t_ms`: the quickest and the three latest.
    pub fn lap_state(&self, t_ms: i64) -> (r: LapState)
        requires
            lap_spans_fit(self.samples@),
        ensures
            lap_state_ok(self.samples@, 0, t_ms, r),
    {
        lap_state_of(&self.samples, 0, t_ms)
    }
}

/// The telemetry time that `video_ms` shows, or `i64::MAX` for an open end.
pub open spec fn shifted(video_ms: i64, sync_offset_ms: i64) -> int {
    video_ms + sync_offset_ms
}

/// The window bounds of a view: export start (default 0) and export end
/// (default, or when negative, open), both moved into telemetry time.
pub open spec fn window_start(start_ms: Option<i64>, sync_offset_ms: i64) -> int {
    match start_ms {
        Some(s) => s + sync_offset_ms,
        None => sync_offset_ms as int,
    }
}

pub open spec fn window_end(end_ms: Option<i64>, sync_offset_ms: i64) -> int {
    match end_ms {
        Some(e) => if e < 0 || e == i64::MAX {
            i64::MAX as int
        } else {
            e + sync_offset_ms
        },
        None => i64::MAX as int,
    }
}

/// Both window bounds are `i64` values.
pub open spec fn window_fits(start_ms: Option<i64>, end_ms: Option<i64>, sync_offset_ms: i64) -> bool {
    &&& i64::MIN <= window_start(start_ms, sync_offset_ms) <= i64::MAX
    &&& i64::MIN <= window_end(end_ms, sync_offset_ms) <= i64::MAX
}

/// The part of a log inside an export range, with laps renumbered so the
/// first lap in view is lap 1 (or stays lap 0).
pub struct TelemetryView {
    /// Where the view starts in the log.
    pub start_idx: usize,
    pub samples: Vec<SampleKey>,
    /// How many laps are cut away before the view.
    pub lap_offset: u32,
    pub sync_offset_ms: i64,
}

impl TelemetryView {
    /// Restricts `log` to the export range `start_ms..end_ms` of video time
    /// (moved into telemetry time by `sync_offset_ms`): the samples from the
    /// first one not earlier than the start up to, not including, the first
    /// one not earlier than the end.
    pub fn new(log: &TelemetryLog, start_ms: Option<i64>, end_ms: Option<i64>, sync_offset_ms: i64) -> (v: Self)
        requires
            log.samples@.len() > 0 ==> window_fits(start_ms, end_ms, sync_offset_ms),
        ensures
            v.sync_offset_ms == sync_offset_ms,
            v.start_idx + v.samples@.len() <= log.samples@.len(),
            v.samples@ == log.samples@.subrange(v.start_idx as int, v.start_idx + v.samples@.len()),
            v.lap_offset == (if v.samples@.len() > 0 {
                adjusted_lap(
                    match v.samples@[0].lap_number {
                        Some(l) => l,
                        None => 0,
                    },
                    1,
                )
            } else {
                0
            }),
            log.samples@.len() > 0 && sorted_times(times_of(log.samples@)) ==> {
                let a = count_before(times_of(log.samples@), window_start(start_ms, sync_offset_ms) as i64);
                let b = count_before(times_of(log.samples@), window_end(end_ms, sync_offset_ms) as i64);
                if a < b {
                    v.start_idx == a && v.samples@.len() == b - a
                } else {
                    v.samples@.len() == 0
                }
            },
    {
        if log.samples.len() == 0 {
            return TelemetryView {
                start_idx: 0,
                samples: Vec::new(),
                lap_offset: 0,
                sync_offset_ms,
            };
        }
        let start = match start_ms {
            Some(s) => s,
            None => 0,
        };
        let end = match end_ms {
            Some(e) => e,
            None => i64::MAX,
        };
        let end = if end < 0 {
            i64::MAX
        } else {
            end
        };
        let start_telem_time = start + sync_offset_ms;
        let end_telem_time = if end == i64::MAX {
            i64::MAX
        } else {
            end + sync_offset_ms
        };
        let start_idx = lower_bound_keys(&log.samples, start_telem_time);
        let end_idx = lower_bound_keys(&log.samples, end_telem_time);
        let mut samples: Vec<SampleKey> = Vec::new();
        let mut lap_offset: u32 = 0;
        if start_idx < end_idx {
            let mut i = start_idx;
            while i < end_idx
                invariant
                    start_idx <= i <= end_idx <= log.samples@.len(),
                    samples@ == log.samples@.subrange(start_idx as int, i as int),
                decreases end_idx - i,
            {
                samples.push(log.samples[i]);
                assert(log.samples@.subrange(start_idx as int, i as int).push(log.samples@[i as int])
                    == log.samples@.subrange(start_idx as int, i + 1));
                i = i + 1;
            }
            let first = match samples[0].lap_number {
                Some(l) => l,
                None => 0,
            };
            lap_offset = if first >= 1 {
                first - 1
            } else {
                0
            };
        }
        TelemetryView { start_idx, samples, lap_offset, sync_offset_ms }
    }

    /// A lap number as the view shows it.
    pub fn adjust_lap(&self, lap: Option<u32>) -> (r: Option<u32>)
        ensures
            r == match lap {
                Some(l) => Some(adjusted_lap(l, self.lap_offset)),
                None => None,
            },
    {
        match lap {
            Some(l) => Some(
                if l >= self.lap_offset {
                    l - self.lap_offset
                } else {
                    0
                },
            ),
            None => None,
        }
    }

    /// The lap crossings inside the view, with view lap numbers.
    pub fn extract_laps(&self) -> (r: Vec<(u32, i64)>)
        ensures
            r@ == lap_marks(self.samples@, self.lap_offset),
    {
        lap_marks_exec(&self.samples, self.lap_offset)
    }

    /// Where `t_ms` falls among the view's samples.
    pub fn bracket_at(&self, t_ms: i64) -> (b: Bracket)
        ensures
            bracket_ok(times_of(self.samples@), t_ms, b),
    {
        bracket_keys(&self.samples, t_ms)
    }

    /// Finished laps inside the view at `t_ms`, with view lap numbers.
    pub fn lap_state(&self, t_ms: i64) -> (r: LapState)
        requires
            lap_spans_fit(self.samples@),
        ensures
            lap_state_ok(self.samples@, self.lap_offset, t_ms, r),
    {
        lap_state_of(&self.samples, self.lap_offset, t_ms)
    }
}

} // verus!
