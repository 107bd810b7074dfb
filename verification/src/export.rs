//! Decisions of the export pipeline: which decoded frames to draw on,
//! how a frame's pixel rows are packed (and flipped) for drawing and
//! written back, and the arguments of the final audio mux.
use crate::binary64::{round_div, round_div_u128, scaled_seconds, scaled_seconds_exec, unit};
use crate::text::{decimal, push_char, push_padded, zero_pad};
use vstd::prelude::*;

verus! {

broadcast use vstd::string::group_string_axioms;

// ---------------------------------------------------------------------------
// Progress
#[verifier::external_type_specification]
#[verifier::external_body]
pub struct ExInstant(std::time::Instant);

/// The current instant (std's `Instant::now`); nothing is stated of it.
#[verifier::external_body]
fn now() -> std::time::Instant {
    std::time::Instant::now()
}

/// How far an export has come.
#[derive(Clone, Debug)]
pub struct ExportProgress {
    pub frames_done: usize,
    pub total_frames: usize,
    pub start_time: Option<std::time::Instant>,
}

impl Default for ExportProgress {
    fn default() -> (p: Self)
        ensures
            p.frames_done == 0,
            p.total_frames == 0,
            p.start_time is Some,
    {
        ExportProgress { frames_done: 0, total_frames: 0, start_time: Some(now()) }
    }
}

impl ExportProgress {
    /// Records that `frames_done` frames are through; the total shown never
    /// falls below the frames done.
    pub fn record_frames(&mut self, frames_done: usize, expected_total: usize)
        ensures
            final(self).frames_done == frames_done,
            final(self).total_frames == if expected_total >= frames_done {
                expected_total
            } else {
                frames_done
            },
            final(self).start_time == old(self).start_time,
    {
        self.frames_done = frames_done;
        self.total_frames = if expected_total >= frames_done {
            expected_total
        } else {
            frames_done
        };
    }
}

// ---------------------------------------------------------------------------
// Frame selection
/// What to do with a decoded frame.
#[derive(Debug, Clone, Copy, PartialEq, Eq)]
pub enum FrameAction {
    /// Before the export range: count it and drop it.
    Skip,
    /// Past the export range: stop decoding.
    Finish,
    /// Inside the export range: draw the overlay on it and encode it.
    Render,
}

/// The action for a frame at `pts_ms`: before a set start it is skipped,
/// after a set (non-negative) end the export finishes, otherwise it is
/// rendered.
pub open spec fn frame_action_for(pts_ms: i64, export_start_ms: Option<i64>, export_end_ms: Option<i64>) -> FrameAction {
    if export_start_ms matches Some(s) && pts_ms < s {
        FrameAction::Skip
    } else if export_end_ms matches Some(e) && e >= 0 && pts_ms > e {
        FrameAction::Finish
    } else {
        FrameAction::Render
    }
}

/// Decides what happens to the frame at `pts_ms`.
pub fn frame_action(pts_ms: i64, export_start_ms: Option<i64>, export_end_ms: Option<i64>) -> (a: FrameAction)
    ensures
        a == frame_action_for(pts_ms, export_start_ms, export_end_ms),
{
    match export_start_ms {
        Some(s) => {
            if pts_ms < s {
                return FrameAction::Skip;
            }
        },
        None => {},
    }
    match export_end_ms {
        Some(e) => {
            if e >= 0 && pts_ms > e {
                return FrameAction::Finish;
            }
        },
        None => {},
    }
    FrameAction::Render
}

/// What the export loop has counted so far.
#[derive(Debug, Clone, Copy, PartialEq, Eq)]
pub struct ExportCounters {
    /// Frames handled, skipped ones included.
    pub frames_done: usize,
    /// The stamp of the first rendered frame, which the output starts at.
    pub first_pts: Option<i64>,
}

/// What happens to one decoded frame.
#[derive(Debug, Clone, Copy, PartialEq, Eq)]
pub enum ExportStep {
    /// Before the range: counted, not encoded.
    Skip,
    /// Past the range: the export stops.
    Finish,
    /// Drawn on and encoded with this output stamp.
    Render(i64),
}

/// The output stamp of a frame: its stamp (0 when it has none) less the
/// first rendered stamp (0 when there is none), saturating.
pub open spec fn output_pts(pts: Option<i64>, first_pts: Option<i64>) -> i64 {
    let p = match pts {
        Some(p) => p as int,
        None => 0,
    };
    let f = match first_pts {
        Some(f) => f as int,
        None => 0,
    };
    if p - f > i64::MAX {
        i64::MAX
    } else if p - f < i64::MIN {
        i64::MIN
    } else {
        (p - f) as i64
    }
}

fn sat_sub(a: i64, b: i64) -> (r: i64)
    ensures
        r == (if a - b > i64::MAX {
            i64::MAX
        } else if a - b < i64::MIN {
            i64::MIN
        } else {
            (a - b) as i64
        }),
{
    if b < 0 && a > i64::MAX + b {
        i64::MAX
    } else if b > 0 && a < i64::MIN + b {
        i64::MIN
    } else {
        a - b
    }
}

/// The counters with one more frame handled.
pub open spec fn counted(c: ExportCounters) -> ExportCounters {
    ExportCounters { frames_done: (c.frames_done + 1) as usize, ..c }
}

/// The first rendered stamp once a frame stamped `pts` is rendered: the
/// earlier one if there was one, else this frame's (0 when it has none).
pub open spec fn first_rendered(c: ExportCounters, pts: Option<i64>) -> Option<i64> {
    match c.first_pts {
        Some(f) => Some(f),
        None => Some(
            match pts {
                Some(p) => p,
                None => 0,
            },
        ),
    }
}

/// The counters after a frame and what to do with it.
pub open spec fn export_step_for(
    c: ExportCounters,
    pts: Option<i64>,
    pts_ms: i64,
    export_start_ms: Option<i64>,
    export_end_ms: Option<i64>,
) -> (ExportCounters, ExportStep) {
    match frame_action_for(pts_ms, export_start_ms, export_end_ms) {
        FrameAction::Skip => (counted(c), ExportStep::Skip),
        FrameAction::Finish => (c, ExportStep::Finish),
        FrameAction::Render => {
            let first = first_rendered(c, pts);
            (
                ExportCounters { first_pts: first, ..counted(c) },
                ExportStep::Render(output_pts(pts, first)),
            )
        },
    }
}

/// One decoded frame of the export, at stamp `pts` (shown at `pts_ms`):
/// what to do with it, and the counters after it. A frame before the range
/// is counted and skipped; one past the range finishes the export; any other
/// is counted and rendered, the first one rendered fixing the output's
/// starting stamp.
pub fn export_step(
    c: ExportCounters,
    pts: Option<i64>,
    pts_ms: i64,
    export_start_ms: Option<i64>,
    export_end_ms: Option<i64>,
) -> (r: (ExportCounters, ExportStep))
    requires
        c.frames_done < usize::MAX,
    ensures
        r == export_step_for(c, pts, pts_ms, export_start_ms, export_end_ms),
{
    match frame_action(pts_ms, export_start_ms, export_end_ms) {
        FrameAction::Skip => (ExportCounters { frames_done: c.frames_done + 1, ..c }, ExportStep::Skip),
        FrameAction::Finish => (c, ExportStep::Finish),
        FrameAction::Render => {
            let p = match pts {
                Some(p) => p,
                None => 0,
            };
            let first = match c.first_pts {
                Some(f) => f,
                None => p,
            };
            (
                ExportCounters { frames_done: c.frames_done + 1, first_pts: Some(first) },
                ExportStep::Render(sat_sub(p, first)),
            )
        },
    }
}

/// A frame still buffered in the decoder when the input ends: it is counted
/// and rendered with no range check, stamped against the first rendered
/// stamp (or 0).
pub fn flush_step(c: ExportCounters, pts: Option<i64>) -> (r: (ExportCounters, i64))
    requires
        c.frames_done < usize::MAX,
    ensures
        r.0 == counted(c),
        r.1 == output_pts(pts, c.first_pts),
{
    let p = match pts {
        Some(p) => p,
        None => 0,
    };
    let f = match c.first_pts {
        Some(f) => f,
        None => 0,
    };
    (ExportCounters { frames_done: c.frames_done + 1, ..c }, sat_sub(p, f))
}

/// The first frame rendered is stamped 0 in the output, and later ones keep
/// their distance from it.
pub proof fn law_output_starts_at_zero(p: i64, q: i64)
    ensures
        output_pts(Some(p), Some(p)) == 0,
        i64::MIN <= q - p <= i64::MAX ==> output_pts(Some(q), Some(p)) == q - p,
{
}

/// Rendered frames lie inside the export range.
pub proof fn law_rendered_frames_in_range(pts_ms: i64, export_start_ms: Option<i64>, export_end_ms: Option<i64>)
    requires
        frame_action_for(pts_ms, export_start_ms, export_end_ms) == FrameAction::Render,
    ensures
        export_start_ms matches Some(s) ==> s <= pts_ms,
        export_end_ms matches Some(e) ==> (e >= 0 ==> pts_ms <= e),
{
}

/// Each action is taken exactly when its condition holds: a frame is
/// skipped only before a set start, the export finishes only at a frame
/// (not before a set start) past a set non-negative end, and every other
/// frame is rendered. With no end set, or a negative one, the export never
/// finishes early; with no range at all every frame is rendered.
pub proof fn law_frame_action_cases(pts_ms: i64, export_start_ms: Option<i64>, export_end_ms: Option<i64>)
    ensures
        (frame_action_for(pts_ms, export_start_ms, export_end_ms) == FrameAction::Skip) <==> (
        export_start_ms matches Some(s) && pts_ms < s),
        (frame_action_for(pts_ms, export_start_ms, export_end_ms) == FrameAction::Finish) <==> (
        !(export_start_ms matches Some(s) && pts_ms < s) && (export_end_ms matches Some(e) && e >= 0
            && pts_ms > e)),
        (export_end_ms is None || (export_end_ms matches Some(e) && e < 0)) ==> frame_action_for(
            pts_ms,
            export_start_ms,
            export_end_ms,
        ) != FrameAction::Finish,
        frame_action_for(pts_ms, None, None) == FrameAction::Render,
{
}

// ---------------------------------------------------------------------------
// Pixel rows
/// Byte `c` of pixel `(x, y)` in a tightly packed RGBA frame `w` pixels
/// wide.
pub open spec fn pixel_index(w: int, y: int, x: int, c: int) -> int {
    4 * (y * w + x) + c
}

/// The source row of output row `y` (upside down when flipped).
pub open spec fn source_row(y: int, h: int, flip: bool) -> int {
    if flip {
        h - 1 - y
    } else {
        y
    }
}

/// The source column of output column `x` (mirrored when flipped).
pub open spec fn source_col(x: int, w: int, flip: bool) -> int {
    if flip {
        w - 1 - x
    } else {
        x
    }
}

/// `out` is the `w` x `h` RGBA frame stored in `raw` with `stride` bytes
/// per row, packed row after row without padding and flipped as asked.
pub open spec fn packed_frame(
    out: Seq<u8>,
    raw: Seq<u8>,
    stride: int,
    w: int,
    h: int,
    flip_vertical: bool,
    flip_horizontal: bool,
) -> bool {
    &&& out.len() == 4 * w * h
    &&& forall|y: int, x: int, c: int|
        0 <= y < h && 0 <= x < w && 0 <= c < 4 ==> #[trigger] out[pixel_index(w, y, x, c)]
            == raw[source_row(y, h, flip_vertical) * stride + 4 * source_col(
            x,
            w,
            flip_horizontal,
        ) + c]
}

/// Every row of a `w` x `h` frame with `stride`-byte rows lies in a buffer
/// of `len` bytes.
pub open spec fn rows_fit(len: int, stride: int, w: int, h: int) -> bool {
    h > 0 ==> (h - 1) * stride + 4 * w <= len
}

/// Whether a `w` by `h` frame whose rows start `stride` bytes apart lies
/// within a buffer of `len` bytes, with its packed size an `u32`: what
/// `pack_frame` needs of its arguments.
pub fn frame_fits(len: usize, stride: usize, w: u32, h: u32) -> (b: bool)
    ensures
        b == ((w as int) * (h as int) * 4 <= u32::MAX && (w as int) * 4 <= u32::MAX && rows_fit(
            len as int,
            stride as int,
            w as int,
            h as int,
        )),
{
    assert((w as int) * (h as int) <= (u32::MAX as int) * (u32::MAX as int)) by (nonlinear_arith)
        requires
            0 <= w as int <= u32::MAX,
            0 <= h as int <= u32::MAX,
    ;
    let wh: u64 = (w as u64) * (h as u64);
    if wh > 0x3fff_ffff || (w as u64) > 0x3fff_ffff {
        return false;
    }
    if h == 0 {
        return true;
    }
    let row = (w as u128) * 4;
    assert(((h as int) - 1) * (stride as int) <= (u32::MAX as int) * (usize::MAX as int)) by (nonlinear_arith)
        requires
            0 <= (h as int) - 1 <= u32::MAX,
            0 <= stride as int <= usize::MAX,
    ;
    assert((u32::MAX as int) * (usize::MAX as int) + 0x1_0000_0000 <= u128::MAX) by (nonlinear_arith)
        requires
            usize::MAX <= u64::MAX,
    ;
    let need: u128 = ((h as u128) - 1) * (stride as u128) + row;
    need <= len as u128
}

proof fn lemma_row_start(sy: int, h: int, stride: int, w: int, len: int)
    requires
        0 <= sy < h,
        stride >= 0,
        w >= 0,
        rows_fit(len, stride, w, h),
    ensures
        0 <= sy * stride,
        sy * stride + 4 * w <= len,
{
    assert(sy * stride <= (h - 1) * stride) by (nonlinear_arith)
        requires
            0 <= sy <= h - 1,
            stride >= 0,
    ;
    assert(0 <= sy * stride) by (nonlinear_arith)
        requires
            0 <= sy,
            stride >= 0,
    ;
}

/// Copies the `w` x `h` RGBA frame in `raw` (rows `stride` bytes apart)
/// into `out`, tightly packed, flipped vertically and/or horizontally as
/// asked.
pub fn pack_frame(
    raw: &[u8],
    stride: usize,
    w: u32,
    h: u32,
    flip_vertical: bool,
    flip_horizontal: bool,
    out: &mut Vec<u8>,
)
    requires
        (w as int) * (h as int) * 4 <= u32::MAX,
        (w as int) * 4 <= u32::MAX,
        rows_fit(raw@.len() as int, stride as int, w as int, h as int),
    ensures
        packed_frame(final(out)@, raw@, stride as int, w as int, h as int, flip_vertical, flip_horizontal),
{
    out.clear();
    let raw_len = raw.len();
    assert(4 * (w as int) * (h as int) == (w as int) * (h as int) * 4) by (nonlinear_arith);
    let wu = w as usize;
    let hu = h as usize;
    let ghost wi = w as int;
    let ghost hi = h as int;
    let mut y: usize = 0;
    while y < hu
        invariant
            (w as int) * (h as int) * 4 <= u32::MAX,
            4 * wi * hi <= u32::MAX,
            (w as int) * 4 <= u32::MAX,
            raw_len == raw@.len(),
            rows_fit(raw@.len() as int, stride as int, wi, hi),
            wu == w,
            hu == h,
            wi == w,
            hi == h,
            y <= hu,
            out@.len() == 4 * (y * wi),
            forall|y2: int, x: int, c: int|
                0 <= y2 < y && 0 <= x < wi && 0 <= c < 4 ==> #[trigger] out@[pixel_index(wi, y2, x, c)]
                    == raw@[source_row(y2, hi, flip_vertical) * stride + 4 * source_col(
                    x,
                    wi,
                    flip_horizontal,
                ) + c],
        decreases hu - y,
    {
        let src_y = if flip_vertical {
            (hu - 1) - y
        } else {
            y
        };
        proof {
            lemma_row_start(src_y as int, hi, stride as int, wi, raw@.len() as int);
        }
        let src_start = src_y * stride;
        let mut x: usize = 0;
        while x < wu
            invariant
                (w as int) * (h as int) * 4 <= u32::MAX,
                4 * wi * hi <= u32::MAX,
                raw_len == raw@.len(),
                wu == w,
                hu == h,
                wi == w,
                hi == h,
                y < hu,
                x <= wu,
                src_y == source_row(y as int, hi, flip_vertical),
                src_start == src_y * stride,
                src_start + 4 * wi <= raw@.len(),
                out@.len() == 4 * (y * wi + x),
                forall|y2: int, x2: int, c: int|
                    ((0 <= y2 < y && 0 <= x2 < wi) || (y2 == y && 0 <= x2 < x)) && 0 <= c < 4
                        ==> #[trigger] out@[pixel_index(wi, y2, x2, c)] == raw@[source_row(
                        y2,
                        hi,
                        flip_vertical,
                    ) * stride + 4 * source_col(x2, wi, flip_horizontal) + c],
            decreases wu - x,
        {
            let src_x = if flip_horizontal {
                (wu - 1) - x
            } else {
                x
            };
            assert(src_x < wi);
            let src_idx = src_start + src_x * 4;
            let ghost before = out@;
            assert(4 * (y * wi + x) + 4 <= 4 * wi * hi) by (nonlinear_arith)
                requires
                    y < hi,
                    x < wi,
            ;
            out.push(raw[src_idx]);
            out.push(raw[src_idx + 1]);
            out.push(raw[src_idx + 2]);
            out.push(raw[src_idx + 3]);
            assert forall|y2: int, x2: int, c: int|
                ((0 <= y2 < y && 0 <= x2 < wi) || (y2 == y && 0 <= x2 < x + 1)) && 0 <= c < 4
                    implies #[trigger] out@[pixel_index(wi, y2, x2, c)] == raw@[source_row(
                    y2,
                    hi,
                    flip_vertical,
                ) * stride + 4 * source_col(x2, wi, flip_horizontal) + c] by {
                if y2 == y && x2 == x {
                    assert(pixel_index(wi, y2, x2, c) == before.len() + c);
                } else {
                    assert(pixel_index(wi, y2, x2, c) < before.len()) by (nonlinear_arith)
                        requires
                            (0 <= y2 < y && 0 <= x2 < wi) || (y2 == y && 0 <= x2 < x),
                            0 <= c < 4,
                            before.len() == 4 * (y * wi + x),
                            pixel_index(wi, y2, x2, c) == 4 * (y2 * wi + x2) + c,
                    ;
                    assert(out@[pixel_index(wi, y2, x2, c)] == before[pixel_index(wi, y2, x2, c)]);
                }
            }
            x = x + 1;
        }
        assert(y * wi + wi == (y + 1) * wi) by (nonlinear_arith);
        y = y + 1;
    }
    assert(4 * (hi * wi) == 4 * wi * hi) by (nonlinear_arith);
}

/// `raw` after rows `0..n` of the packed frame `packed` were written back
/// into it, row `y` at byte `y * stride`, later rows over earlier ones.
pub open spec fn rows_written(raw: Seq<u8>, packed: Seq<u8>, stride: int, row_len: int, n: int) -> Seq<u8>
    decreases n,
{
    if n <= 0 {
        raw
    } else {
        let before = rows_written(raw, packed, stride, row_len, n - 1);
        let start = (n - 1) * stride;
        Seq::new(
            before.len(),
            |i: int|
                if start <= i < start + row_len {
                    packed[(n - 1) * row_len + (i - start)]
                } else {
                    before[i]
                },
        )
    }
}

/// Writes the packed `w` x `h` frame back into `raw`, whose rows are
/// `stride` bytes apart.
pub fn unpack_frame(packed: &[u8], raw: &mut [u8], stride: usize, w: u32, h: u32)
    requires
        (w as int) * (h as int) * 4 <= u32::MAX,
        (w as int) * 4 <= u32::MAX,
        packed@.len() >= 4 * (w as int) * (h as int),
        rows_fit(old(raw)@.len() as int, stride as int, w as int, h as int),
    ensures
        final(raw)@ == rows_written(old(raw)@, packed@, stride as int, 4 * w as int, h as int),
{
    let raw_len = raw.len();
    let packed_len = packed.len();
    assert(4 * (w as int) * (h as int) == (w as int) * (h as int) * 4) by (nonlinear_arith);
    let row_len = (w as usize) * 4;
    let hu = h as usize;
    let ghost wi = w as int;
    let ghost hi = h as int;
    let ghost orig = raw@;
    let mut y: usize = 0;
    while y < hu
        invariant
            (w as int) * (h as int) * 4 <= u32::MAX,
            4 * wi * hi <= u32::MAX,
            raw_len == orig.len(),
            packed_len == packed@.len(),
            packed@.len() >= 4 * wi * hi,
            rows_fit(orig.len() as int, stride as int, wi, hi),
            raw@.len() == orig.len(),
            row_len == 4 * wi,
            hu == hi,
            wi == w,
            hi == h,
            y <= hu,
            raw@ == rows_written(orig, packed@, stride as int, row_len as int, y as int),
        decreases hu - y,
    {
        proof {
            lemma_row_start(y as int, hi, stride as int, wi, orig.len() as int);
            assert(y * row_len + row_len <= 4 * wi * hi) by (nonlinear_arith)
                requires
                    y < hi,
                    row_len == 4 * wi,
                    wi >= 0,
            ;
            assert(0 <= y * row_len) by (nonlinear_arith)
                requires
                    y >= 0,
                    row_len >= 0,
            ;
        }
        let dst_start = y * stride;
        let src_start = y * row_len;
        let ghost before = raw@;
        let mut j: usize = 0;
        while j < row_len
            invariant
                raw@.len() == orig.len(),
                raw_len == orig.len(),
                packed_len == packed@.len(),
                dst_start + row_len <= orig.len(),
                src_start + row_len <= packed@.len(),
                j <= row_len,
                raw@ == Seq::new(
                    before.len(),
                    |i: int|
                        if dst_start <= i < dst_start + j {
                            packed@[src_start + (i - dst_start)]
                        } else {
                            before[i]
                        },
                ),
            decreases row_len - j,
        {
            raw[dst_start + j] = packed[src_start + j];
            j = j + 1;
            assert(raw@ =~= Seq::new(
                before.len(),
                |i: int|
                    if dst_start <= i < dst_start + j {
                        packed@[src_start + (i - dst_start)]
                    } else {
                        before[i]
                    },
            ));
        }
        assert(raw@ =~= rows_written(orig, packed@, stride as int, row_len as int, y + 1));
        y = y + 1;
    }
}

/// Writing an unflipped packing of a frame back into the frame's own
/// buffer leaves the buffer as it was.
pub proof fn law_unpack_of_pack(raw: Seq<u8>, packed: Seq<u8>, stride: int, w: int, h: int)
    requires
        0 <= w,
        0 <= h,
        0 <= stride,
        rows_fit(raw.len() as int, stride, w, h),
        packed_frame(packed, raw, stride, w, h, false, false),
    ensures
        rows_written(raw, packed, stride, 4 * w, h) == raw,
{
    lemma_rows_written_same(raw, packed, stride, w, h, h);
}

proof fn lemma_rows_written_same(raw: Seq<u8>, packed: Seq<u8>, stride: int, w: int, h: int, n: int)
    requires
        0 <= w,
        0 <= n <= h,
        0 <= stride,
        rows_fit(raw.len() as int, stride, w, h),
        packed_frame(packed, raw, stride, w, h, false, false),
    ensures
        rows_written(raw, packed, stride, 4 * w, n) == raw,
    decreases n,
{
    if n > 0 {
        lemma_rows_written_same(raw, packed, stride, w, h, n - 1);
        let y = n - 1;
        lemma_row_start(y, h, stride, w, raw.len() as int);
        let start = y * stride;
        let r = rows_written(raw, packed, stride, 4 * w, n);
        assert forall|i: int| 0 <= i < raw.len() implies #[trigger] r[i] == raw[i] by {
            if start <= i < start + 4 * w {
                let j = i - start;
                let x = j / 4;
                let c = j % 4;
                assert(0 <= x < w && 0 <= c < 4 && j == 4 * x + c);
                assert(y * (4 * w) + j == pixel_index(w, y, x, c)) by (nonlinear_arith)
                    requires
                        j == 4 * x + c,
                        pixel_index(w, y, x, c) == 4 * (y * w + x) + c,
                ;
                assert(packed[pixel_index(w, y, x, c)] == raw[source_row(y, h, false) * stride + 4
                    * source_col(x, w, false) + c]);
            }
        }
        assert(r =~= raw);
    }
}

/// Flipping is its own undoing: packing a packed frame again with the same
/// flips gives the frame packed without flips.
pub proof fn law_flip_twice(
    raw: Seq<u8>,
    once: Seq<u8>,
    twice: Seq<u8>,
    stride: int,
    w: int,
    h: int,
    flip_vertical: bool,
    flip_horizontal: bool,
)
    requires
        0 <= w,
        0 <= h,
        packed_frame(once, raw, stride, w, h, flip_vertical, flip_horizontal),
        packed_frame(twice, once, 4 * w, w, h, flip_vertical, flip_horizontal),
    ensures
        packed_frame(twice, raw, stride, w, h, false, false),
{
    assert forall|y: int, x: int, c: int|
        0 <= y < h && 0 <= x < w && 0 <= c < 4 implies #[trigger] twice[pixel_index(w, y, x, c)]
        == raw[source_row(y, h, false) * stride + 4 * source_col(x, w, false) + c] by {
        let sy = source_row(y, h, flip_vertical);
        let sx = source_col(x, w, flip_horizontal);
        assert(sy * (4 * w) + 4 * sx + c == pixel_index(w, sy, sx, c)) by (nonlinear_arith)
            requires
                pixel_index(w, sy, sx, c) == 4 * (sy * w + sx) + c,
        ;
        assert(twice[pixel_index(w, y, x, c)] == once[pixel_index(w, sy, sx, c)]);
        assert(source_row(sy, h, flip_vertical) == y);
        assert(source_col(sx, w, flip_horizontal) == x);
    }
}

/// What the flips do to each pixel: output pixel `x` of output row `y` is
/// source pixel `w - 1 - x` of its row when mirrored and pixel `x`
/// otherwise, and that row is source row `h - 1 - y` when turned upside
/// down and row `y` otherwise.
pub proof fn law_flips_mirror(
    out: Seq<u8>,
    raw: Seq<u8>,
    stride: int,
    w: int,
    h: int,
    flip_vertical: bool,
    flip_horizontal: bool,
)
    requires
        packed_frame(out, raw, stride, w, h, flip_vertical, flip_horizontal),
    ensures
        out.len() == 4 * w * h,
        forall|y: int, x: int, c: int|
            0 <= y < h && 0 <= x < w && 0 <= c < 4 ==> {
                let sy = if flip_vertical {
                    h - 1 - y
                } else {
                    y
                };
                let sx = if flip_horizontal {
                    w - 1 - x
                } else {
                    x
                };
                #[trigger] out[4 * (y * w + x) + c] == raw[sy * stride + 4 * sx + c]
            },
        flip_horizontal ==> forall|y: int, c: int|
            0 <= y < h && 0 <= c < 4 && w >= 1 ==> #[trigger] out[4 * (y * w) + c] == raw[(if flip_vertical {
                h - 1 - y
            } else {
                y
            }) * stride + 4 * (w - 1) + c],
{
    assert forall|y: int, x: int, c: int| 0 <= y < h && 0 <= x < w && 0 <= c < 4 implies {
        let sy = if flip_vertical {
            h - 1 - y
        } else {
            y
        };
        let sx = if flip_horizontal {
            w - 1 - x
        } else {
            x
        };
        #[trigger] out[4 * (y * w + x) + c] == raw[sy * stride + 4 * sx + c]
    } by {
        assert(out[pixel_index(w, y, x, c)] == raw[source_row(y, h, flip_vertical) * stride + 4 * source_col(
            x,
            w,
            flip_horizontal,
        ) + c]);
    }
    assert forall|y: int, c: int| 0 <= y < h && 0 <= c < 4 && w >= 1 && flip_horizontal implies #[trigger] out[4 * (y
        * w) + c] == raw[(if flip_vertical {
        h - 1 - y
    } else {
        y
    }) * stride + 4 * (w - 1) + c] by {
        assert(4 * (y * w + 0) + c == 4 * (y * w) + c);
        assert(out[pixel_index(w, y, 0, c)] == raw[source_row(y, h, flip_vertical) * stride + 4 * source_col(
            0,
            w,
            flip_horizontal,
        ) + c]);
    }
}

// ---------------------------------------------------------------------------
// Audio mux
/// `ms` milliseconds as seconds with three decimals, as `{:.3}` prints
/// `ms as f64 / 1000.0`: the exact binary value rounded to the thousandth,
/// an exact half to the even one.
pub open spec fn seconds_text(ms: nat) -> Seq<char> {
    let t = round_div(scaled_seconds(ms as int) * 1000, unit());
    decimal(t / 1000) + seq!['.'] + zero_pad(decimal(t % 1000), 3)
}

fn seconds_string(ms: i64) -> (s: String)
    requires
        ms >= 0,
    ensures
        s@ == seconds_text(ms as nat),
{
    let v = scaled_seconds_exec(ms);
    assert(unit() == 0x4000_0000_0000_0000);
    let t = round_div_u128(v * 1000, 0x4000_0000_0000_0000);
    proof {
        lemma_thousandths_bound(v as nat);
    }
    let mut s = String::new();
    push_padded(&mut s, (t / 1000) as u64, 0);
    push_char(&mut s, '.');
    push_padded(&mut s, (t % 1000) as u64, 3);
    assert(zero_pad(decimal((t / 1000) as nat), 0) == decimal((t / 1000) as nat));
    s
}

proof fn lemma_thousandths_bound(v: nat)
    requires
        v <= 0x20_0000_0000_0000_0000_0000_0000_0000,
    ensures
        round_div(v * 1000, unit()) / 1000 <= u64::MAX,
{
    assert(unit() == 0x4000_0000_0000_0000);
    assert((v * 1000) / unit() <= v * 1000) by (nonlinear_arith)
        requires
            unit() >= 1,
    ;
    assert(v * 1000 / unit() <= 0x20_0000_0000_0000_0000_0000_0000_0000 * 1000 / 0x4000_0000_0000_0000) by (nonlinear_arith)
        requires
            v <= 0x20_0000_0000_0000_0000_0000_0000_0000,
            unit() == 0x4000_0000_0000_0000,
    ;
}

/// The trim arguments of the audio mux: `-ss` with the export start when it
/// is positive, and `-t` with the length of the range when a non-negative
/// end lies after the (non-negative) start.
pub open spec fn trim_args(export_start_ms: Option<i64>, export_end_ms: Option<i64>) -> Seq<Seq<char>> {
    let start = match export_start_ms {
        Some(s) => s as int,
        None => 0,
    };
    let ss = if start > 0 {
        seq!["-ss"@, seconds_text(start as nat)]
    } else {
        Seq::empty()
    };
    let from = if start > 0 {
        start
    } else {
        0
    };
    let t = match export_end_ms {
        Some(e) => if e >= 0 && e > from {
            seq!["-t"@, seconds_text((e - from) as nat)]
        } else {
            Seq::empty()
        },
        None => Seq::empty(),
    };
    ss + t
}

/// The texts of a list of strings.
pub open spec fn texts(v: Seq<String>) -> Seq<Seq<char>> {
    Seq::new(v.len(), |i: int| v[i]@)
}

/// The `ffmpeg` arguments that put the source clip's audio under the
/// rendered video: the rendered file, the trim of the source, the source file,
/// stream copies of video from the first and audio from the second, and the
/// output file.
pub fn audio_mux_args(
    temp_path: &str,
    video_path: &str,
    output_path: &str,
    export_start_ms: Option<i64>,
    export_end_ms: Option<i64>,
) -> (args: Vec<String>)
    ensures
        texts(args@) == seq!["-y"@, "-i"@, temp_path@] + trim_args(export_start_ms, export_end_ms)
            + seq![
            "-i"@,
            video_path@,
            "-c:v"@,
            "copy"@,
            "-c:a"@,
            "copy"@,
            "-map"@,
            "0:v:0"@,
            "-map"@,
            "1:a:0?"@,
            output_path@,
        ],
{
    let mut args: Vec<String> = Vec::new();
    args.push(String::from_str("-y"));
    args.push(String::from_str("-i"));
    args.push(String::from_str(temp_path));
    let ghost head = texts(args@);
    assert(head == seq!["-y"@, "-i"@, temp_path@]);
    let start = match export_start_ms {
        Some(s) => s,
        None => 0,
    };
    if start > 0 {
        args.push(String::from_str("-ss"));
        args.push(seconds_string(start));
    }
    let from = if start > 0 {
        start
    } else {
        0
    };
    match export_end_ms {
        Some(end_ms) => {
            if end_ms >= 0 && end_ms > from {
                args.push(String::from_str("-t"));
                args.push(seconds_string(end_ms - from));
            }
        },
        None => {},
    }
    let ghost mid = texts(args@);
    assert(mid == head + trim_args(export_start_ms, export_end_ms));
    args.push(String::from_str("-i"));
    args.push(String::from_str(video_path));
    args.push(String::from_str("-c:v"));
    args.push(String::from_str("copy"));
    args.push(String::from_str("-c:a"));
    args.push(String::from_str("copy"));
    args.push(String::from_str("-map"));
    args.push(String::from_str("0:v:0"));
    args.push(String::from_str("-map"));
    args.push(String::from_str("1:a:0?"));
    args.push(String::from_str(output_path));
    assert(texts(args@) =~= mid + seq![
        "-i"@,
        video_path@,
        "-c:v"@,
        "copy"@,
        "-c:a"@,
        "copy"@,
        "-map"@,
        "0:v:0"@,
        "-map"@,
        "1:a:0?"@,
        output_path@,
    ]);
    args
}

} // verus!
