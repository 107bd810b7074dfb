//! GoPro GPMF telemetry: locating the `gpmd` stream in `ffprobe` output and
//! scanning a dumped GPMF track for `GPS5` blocks.
use crate::text::{
    chars_of, copy_range, find_char, index_of_from, lemma_next_newline_bounds, line_body, lines,
    lines_from, next_line, string_of, trim, trim_chars,
};
use vstd::prelude::*;

verus! {

// ---------------------------------------------------------------------------
// ffprobe stream listing
/// The characters of the codec tag that marks a GPMF stream.
pub open spec fn gpmd_tag() -> Seq<char> {
    seq!['g', 'p', 'm', 'd']
}

/// The stream index a listing line names when the line is `index,gpmd`:
/// exactly one comma, and the text after it is `gpmd` once trimmed.
/// The index is the text before the comma, trimmed.
pub open spec fn gpmd_index_of_line(line: Seq<char>) -> Option<Seq<char>> {
    let k = index_of_from(line, 0, ',');
    if k < line.len() && index_of_from(line, k + 1, ',') == line.len() && trim(
        line.subrange(k + 1, line.len() as int),
    ) == gpmd_tag() {
        Some(trim(line.subrange(0, k)))
    } else {
        None
    }
}

/// The index named by the first line of `ls` that names a `gpmd` stream.
pub open spec fn first_gpmd_index(ls: Seq<Seq<char>>) -> Option<Seq<char>>
    decreases ls.len(),
{
    if ls.len() == 0 {
        None
    } else {
        match gpmd_index_of_line(ls[0]) {
            Some(x) => Some(x),
            None => first_gpmd_index(ls.drop_first()),
        }
    }
}

fn is_gpmd(t: &Vec<char>) -> (b: bool)
    ensures
        b == (t@ == gpmd_tag()),
{
    let b = t.len() == 4 && t[0] == 'g' && t[1] == 'p' && t[2] == 'm' && t[3] == 'd';
    if b {
        assert(t@ == gpmd_tag());
    }
    b
}

fn gpmd_index_in_line(line: &Vec<char>) -> (r: Option<Vec<char>>)
    ensures
        match r {
            Some(v) => gpmd_index_of_line(line@) == Some(v@),
            None => gpmd_index_of_line(line@) is None,
        },
{
    let k = find_char(line, 0, ',');
    if k >= line.len() {
        return None;
    }
    let k2 = find_char(line, k + 1, ',');
    if k2 != line.len() {
        return None;
    }
    let codec = trim_chars(&copy_range(line, k + 1, line.len()));
    if !is_gpmd(&codec) {
        return None;
    }
    Some(trim_chars(&copy_range(line, 0, k)))
}

/// Picks the index of the GPMF (`gpmd`) stream out of the listing that
/// `ffprobe -show_entries stream=index,codec_tag_string -of csv=p=0` prints:
/// the first line of the form `index,gpmd` names it.
pub fn parse_ffprobe_output(output_str: &str) -> (r: Option<String>)
    ensures
        match r {
            Some(s) => first_gpmd_index(lines(output_str@)) == Some(s@),
            None => first_gpmd_index(lines(output_str@)) is None,
        },
{
    let s = chars_of(output_str);
    let mut p: usize = 0;
    while p < s.len()
        invariant
            p <= s.len(),
            s@ == output_str@,
            first_gpmd_index(lines(s@)) == first_gpmd_index(lines_from(s@, p as int)),
        decreases s.len() - p,
    {
        let (e, line) = next_line(&s, p);
        let ghost rest = if e >= s.len() {
            Seq::<Seq<char>>::empty()
        } else {
            lines_from(s@, e + 1)
        };
        proof {
            lemma_next_newline_bounds(s@, p as int);
            assert(lines_from(s@, p as int) == seq![line@] + rest);
            assert((seq![line@] + rest).drop_first() == rest);
            assert((seq![line@] + rest)[0] == line@);
        }
        match gpmd_index_in_line(&line) {
            Some(idx) => {
                return Some(string_of(&idx));
            },
            None => {},
        }
        if e >= s.len() {
            assert(first_gpmd_index(rest) is None);
            return None;
        }
        p = e + 1;
    }
    None
}

// ---------------------------------------------------------------------------
// GPS5 blocks
/// One GPS fix read from a `GPS5` block: latitude and longitude in units of
/// 1e-7 degree, and the time assigned to it.
#[derive(Debug, Clone, Copy, PartialEq, Eq)]
pub struct GpsFix {
    pub time_ms: i64,
    pub lat_e7: i32,
    pub lon_e7: i32,
}

/// The spacing in milliseconds assumed between consecutive GPS fixes.
pub const GPS_SAMPLE_SPACING_MS: i64 = 50;

/// The big-endian two's-complement 32-bit integer at `raw[o..o + 4]`.
pub open spec fn be_i32_at(raw: Seq<u8>, o: int) -> int {
    let u = raw[o] * 16777216 + raw[o + 1] * 65536 + raw[o + 2] * 256 + raw[o + 3];
    if u >= 0x8000_0000 {
        u - 0x1_0000_0000
    } else {
        u
    }
}

/// Whether `raw[i..i + 4]` is the FourCC `GPS5`.
pub open spec fn is_gps5_at(raw: Seq<u8>, i: int) -> bool {
    &&& raw[i] == 0x47
    &&& raw[i + 1] == 0x50
    &&& raw[i + 2] == 0x53
    &&& raw[i + 3] == 0x35
}

/// Rounds `n` up to a multiple of 4.
pub open spec fn align4(n: int) -> int {
    if n % 4 != 0 {
        n + 4 - n % 4
    } else {
        n
    }
}

/// The (latitude, longitude) pairs of items `c..count` of a block whose
/// items are `size` bytes long and start at `start`; an item with a zero
/// latitude or longitude is left out.
pub open spec fn block_coords(raw: Seq<u8>, start: int, size: int, c: int, count: int) -> Seq<
    (int, int),
>
    decreases count - c,
{
    if c >= count {
        Seq::empty()
    } else {
        let o = start + c * size;
        let lat = be_i32_at(raw, o);
        let lon = be_i32_at(raw, o + 4);
        let rest = block_coords(raw, start, size, c + 1, count);
        if lat != 0 && lon != 0 {
            seq![(lat, lon)] + rest
        } else {
            rest
        }
    }
}

/// The coordinates found by scanning `raw` from `i`: at a `GPS5` FourCC the
/// header gives the item size (byte 5) and the big-endian item count
/// (bytes 6..8); a block whose items are at least 16 bytes and fit in `raw`
/// contributes its items, and the scan resumes after the block, padded to
/// a multiple of 4. Anywhere else the scan moves on by one byte.
pub open spec fn gps5_coords_from(raw: Seq<u8>, i: int) -> Seq<(int, int)>
    decreases (if i <= raw.len() { raw.len() - i } else { 0 }),
{
    if i < 0 || i + 8 > raw.len() {
        Seq::empty()
    } else if is_gps5_at(raw, i) {
        let size = raw[i + 5] as int;
        let count = raw[i + 6] * 256 + raw[i + 7];
        let data_len = size * count;
        let pts = if i + 8 + data_len <= raw.len() && size >= 16 {
            block_coords(raw, i + 8, size, 0, count)
        } else {
            Seq::empty()
        };
        proof {
            assert(size * count >= 0) by (nonlinear_arith)
                requires
                    size >= 0,
                    count >= 0,
            ;
            assert(align4(i + 8 + data_len) > i);
        }
        pts + gps5_coords_from(raw, align4(i + 8 + data_len))
    } else {
        gps5_coords_from(raw, i + 1)
    }
}

/// Inputs that `parse_gps5_data` takes: short enough that no position it
/// computes leaves `usize` and no time stamp leaves `i64`.
pub open spec fn gps5_input_fits(len: int) -> bool {
    &&& len <= 0x0400_0000_0000_0000
    &&& len + 0x0100_0010 <= usize::MAX
}

fn be_i32(raw: &[u8], o: usize) -> (v: i32)
    requires
        o + 4 <= raw@.len(),
    ensures
        v as int == be_i32_at(raw@, o as int),
{
    let u: u32 = (raw[o] as u32) * 16777216 + (raw[o + 1] as u32) * 65536 + (raw[o + 2] as u32)
        * 256 + (raw[o + 3] as u32);
    if u >= 0x8000_0000 {
        let m: u32 = u - 0x8000_0000;
        (m as i32) - 0x4000_0000 - 0x4000_0000
    } else {
        u as i32
    }
}

proof fn lemma_block_len(raw: Seq<u8>, start: int, size: int, c: int, count: int)
    ensures
        block_coords(raw, start, size, c, count).len() <= if count > c {
            count - c
        } else {
            0
        },
    decreases count - c,
{
    if c < count {
        lemma_block_len(raw, start, size, c + 1, count);
    }
}

/// Scans a dumped GPMF track for `GPS5` blocks and returns their fixes in
/// order. Fixes with a zero latitude or longitude are dropped; the k-th
/// fix returned is stamped `50 * k` ms, the nominal 18 Hz spacing.
pub fn parse_gps5_data(raw: &[u8]) -> (points: Vec<GpsFix>)
    requires
        gps5_input_fits(raw@.len() as int),
    ensures
        points@.len() == gps5_coords_from(raw@, 0).len(),
        forall|k: int|
            #![trigger points@[k]]
            0 <= k < points@.len() ==> {
                &&& points@[k].time_ms == GPS_SAMPLE_SPACING_MS * k
                &&& points@[k].lat_e7 as int == gps5_coords_from(raw@, 0)[k].0
                &&& points@[k].lon_e7 as int == gps5_coords_from(raw@, 0)[k].1
            },
{
    let ghost all = gps5_coords_from(raw@, 0);
    let mut points: Vec<GpsFix> = Vec::new();
    let mut i: usize = 0;
    let mut current_time_ms: i64 = 0;
    while i + 8 <= raw.len()
        invariant
            gps5_input_fits(raw@.len() as int),
            i <= raw@.len() + 0x0100_0000,
            all == gps5_coords_from(raw@, 0),
            points@.len() * 16 <= i,
            current_time_ms == GPS_SAMPLE_SPACING_MS * points@.len(),
            points@.len() + gps5_coords_from(raw@, i as int).len() == all.len(),
            forall|k: int|
                #![trigger points@[k]]
                0 <= k < points@.len() ==> {
                    &&& points@[k].time_ms == GPS_SAMPLE_SPACING_MS * k
                    &&& points@[k].lat_e7 as int == all[k].0
                    &&& points@[k].lon_e7 as int == all[k].1
                },
            forall|k: int|
                0 <= k < gps5_coords_from(raw@, i as int).len() ==> #[trigger] gps5_coords_from(
                    raw@,
                    i as int,
                )[k] == all[points@.len() + k],
        decreases (if i <= raw@.len() { raw@.len() - i } else { 0 }),
    {
        if raw[i] == 0x47 && raw[i + 1] == 0x50 && raw[i + 2] == 0x53 && raw[i + 3] == 0x35 {
            let item_size = raw[i + 5] as usize;
            let item_count = (raw[i + 6] as usize) * 256 + (raw[i + 7] as usize);
            assert(item_size * item_count <= 255 * 65535) by (nonlinear_arith)
                requires
                    item_size <= 255,
                    item_count <= 65535,
            ;
            assert(item_size * item_count >= 0) by (nonlinear_arith)
                requires
                    item_size >= 0,
                    item_count >= 0,
            ;
            let data_start = i + 8;
            let data_len = item_size * item_count;
            let ghost before = points@.len();
            let ghost rest = gps5_coords_from(raw@, align4(i + 8 + data_len));
            if data_start + data_len <= raw.len() && item_size >= 16 {
                let ghost blk = block_coords(raw@, data_start as int, item_size as int, 0, item_count as int);
                assert(gps5_coords_from(raw@, i as int) == blk + rest);
                assert forall|k: int| 0 <= k < blk.len() implies #[trigger] blk[k] == all[points@.len() + k] by {
                    assert(blk[k] == (blk + rest)[k]);
                }
                assert forall|k: int| 0 <= k < rest.len() implies #[trigger] rest[k] == all[points@.len() + blk.len() + k] by {
                    assert(rest[k] == (blk + rest)[blk.len() + k]);
                }
                let mut c: usize = 0;
                let mut off: usize = data_start;
                while c < item_count
                    invariant
                        gps5_input_fits(raw@.len() as int),
                        data_start + data_len <= raw@.len(),
                        data_len == item_size * item_count,
                        item_size >= 16,
                        c <= item_count,
                        off == data_start + c * item_size,
                        before * 16 <= i,
                        data_start == i + 8,
                        before <= points@.len() <= before + c,
                        current_time_ms == GPS_SAMPLE_SPACING_MS * points@.len(),
                        blk == block_coords(raw@, data_start as int, item_size as int, 0, item_count as int),
                        all == gps5_coords_from(raw@, 0),
                        forall|k: int|
                            #![trigger points@[k]]
                            0 <= k < points@.len() ==> {
                                &&& points@[k].time_ms == GPS_SAMPLE_SPACING_MS * k
                                &&& points@[k].lat_e7 as int == all[k].0
                                &&& points@[k].lon_e7 as int == all[k].1
                            },
                        points@.len() + block_coords(raw@, data_start as int, item_size as int, c as int, item_count as int).len() + rest.len() == all.len(),
                        forall|k: int|
                            0 <= k < block_coords(raw@, data_start as int, item_size as int, c as int, item_count as int).len() ==> #[trigger] block_coords(raw@, data_start as int, item_size as int, c as int, item_count as int)[k] == all[points@.len() + k],
                        forall|k: int|
                            0 <= k < rest.len() ==> #[trigger] rest[k] == all[points@.len() + block_coords(raw@, data_start as int, item_size as int, c as int, item_count as int).len() + k],
                    decreases item_count - c,
                {
                    assert((c + 1) * item_size <= item_count * item_size) by (nonlinear_arith)
                        requires
                            c < item_count,
                            item_size >= 0,
                    ;
                    assert((c + 1) * item_size == c * item_size + item_size) by (nonlinear_arith);
                    assert(item_count * item_size == item_size * item_count) by (nonlinear_arith);
                    assert(off + item_size <= raw@.len());
                    let lat = be_i32(raw, off);
                    let lon = be_i32(raw, off + 4);
                    let ghost tail = block_coords(raw@, data_start as int, item_size as int, c + 1, item_count as int);
                    if lat != 0 && lon != 0 {
                        assert(16 * (points@.len() + 1) <= raw@.len()) by (nonlinear_arith)
                            requires
                                before * 16 <= i,
                                points@.len() <= before + c,
                                c < item_count,
                                item_size >= 16,
                                i + 8 + item_size * item_count <= raw@.len(),
                        ;
                        let ghost k0 = points@.len();
                        points.push(GpsFix { time_ms: current_time_ms, lat_e7: lat, lon_e7: lon });
                        current_time_ms = current_time_ms + GPS_SAMPLE_SPACING_MS;
                        assert(block_coords(raw@, data_start as int, item_size as int, c as int, item_count as int)[0] == (lat as int, lon as int));
                        assert forall|k: int| 0 <= k < tail.len() implies #[trigger] tail[k] == all[points@.len() + k] by {
                            assert(tail[k] == block_coords(raw@, data_start as int, item_size as int, c as int, item_count as int)[k + 1]);
                        }
                    }
                    c = c + 1;
                    off = off + item_size;
                }
                proof {
                    lemma_block_len(raw@, data_start as int, item_size as int, 0, item_count as int);
                    assert(points@.len() * 16 <= data_start + data_len) by (nonlinear_arith)
                        requires
                            before * 16 <= i,
                            points@.len() <= before + item_count,
                            item_size >= 16,
                            data_start == i + 8,
                            data_len == item_size * item_count,
                    ;
                }
            } else {
                assert(gps5_coords_from(raw@, i as int) == rest);
            }
            i = i + 8 + data_len;
            if i % 4 != 0 {
                i = i + (4 - i % 4);
            }
            assert(i == align4(data_start + data_len));
        } else {
            i = i + 1;
        }
    }
    points
}

} // verus!

verus! {

#[verifier::external_type_specification]
#[verifier::external_body]
pub struct ExIoError(std::io::Error);

/// std's text for an I/O error (`Display`); nothing is stated of it.
#[verifier::external_body]
fn io_error_text(e: &std::io::Error) -> String {
    format!("{}", e)
}

/// Why GPMF extraction failed.
#[derive(Debug)]
pub enum GpmfError {
    Io(std::io::Error),
    CommandFailed(String),
    NoGpmdStream,
    ExtractionFailed,
}

impl GpmfError {
    /// The message shown for this error.
    pub fn message(&self) -> (s: String)
        ensures
            self is Io ==> "I/O error: "@.is_prefix_of(s@),
            self matches GpmfError::CommandFailed(m) ==> s@ == "Command failed: "@ + m@,
            self is NoGpmdStream ==> s@ == "No GPMD stream found in MP4"@,
            self is ExtractionFailed ==> s@ == "Failed to extract GPMD data track"@,
    {
        match self {
            GpmfError::Io(e) => {
                let head = String::from_str("I/O error: ");
                let r = head.concat(io_error_text(e).as_str());
                assert(head@.is_prefix_of(r@)) by {
                    assert(r@.subrange(0, head@.len() as int) =~= head@);
                }
                r
            },
            GpmfError::CommandFailed(m) => String::from_str("Command failed: ").concat(m.as_str()),
            GpmfError::NoGpmdStream => String::from_str("No GPMD stream found in MP4"),
            GpmfError::ExtractionFailed => String::from_str("Failed to extract GPMD data track"),
        }
    }
}

/// Every fix that the GPS5 scan yields has a non-zero latitude and
/// longitude.
pub proof fn law_gps5_fixes_nonzero(raw: Seq<u8>, i: int)
    ensures
        forall|k: int|
            0 <= k < gps5_coords_from(raw, i).len() ==> (#[trigger] gps5_coords_from(raw, i)[k]).0
                != 0 && gps5_coords_from(raw, i)[k].1 != 0,
    decreases (if i <= raw.len() { raw.len() - i } else { 0 }),
{
    if !(i < 0 || i + 8 > raw.len()) {
        if is_gps5_at(raw, i) {
            let size = raw[i + 5] as int;
            let count = raw[i + 6] * 256 + raw[i + 7];
            let data_len = size * count;
            assert(size * count >= 0) by (nonlinear_arith)
                requires
                    size >= 0,
                    count >= 0,
            ;
            let next = align4(i + 8 + data_len);
            law_gps5_fixes_nonzero(raw, next);
            if i + 8 + data_len <= raw.len() && size >= 16 {
                lemma_block_nonzero(raw, i + 8, size, 0, count);
            }
            let pts = if i + 8 + data_len <= raw.len() && size >= 16 {
                block_coords(raw, i + 8, size, 0, count)
            } else {
                Seq::empty()
            };
            let all = gps5_coords_from(raw, i);
            assert(all == pts + gps5_coords_from(raw, next));
            assert forall|k: int| 0 <= k < all.len() implies (#[trigger] all[k]).0 != 0 && all[k].1 != 0 by {
                if k < pts.len() {
                    assert(all[k] == pts[k]);
                } else {
                    assert(all[k] == gps5_coords_from(raw, next)[k - pts.len()]);
                }
            }
        } else {
            law_gps5_fixes_nonzero(raw, i + 1);
            assert(gps5_coords_from(raw, i) == gps5_coords_from(raw, i + 1));
        }
    }
}

proof fn lemma_block_nonzero(raw: Seq<u8>, start: int, size: int, c: int, count: int)
    ensures
        forall|k: int|
            0 <= k < block_coords(raw, start, size, c, count).len() ==> (#[trigger] block_coords(
                raw,
                start,
                size,
                c,
                count,
            )[k]).0 != 0 && block_coords(raw, start, size, c, count)[k].1 != 0,
    decreases count - c,
{
    if c < count {
        lemma_block_nonzero(raw, start, size, c + 1, count);
        let b = block_coords(raw, start, size, c, count);
        let rest = block_coords(raw, start, size, c + 1, count);
        assert forall|k: int| 0 <= k < b.len() implies (#[trigger] b[k]).0 != 0 && b[k].1 != 0 by {
            let o = start + c * size;
            if be_i32_at(raw, o) != 0 && be_i32_at(raw, o + 4) != 0 {
                if k > 0 {
                    assert(b[k] == rest[k - 1]);
                }
            } else {
                assert(b[k] == rest[k]);
            }
        }
    }
}

} // verus!
