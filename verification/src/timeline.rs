//! Searching a time-ordered series of millisecond time stamps.
use vstd::prelude::*;

verus! {

/// Time stamps in nondecreasing order.
pub open spec fn sorted_times(t: Seq<i64>) -> bool {
    forall|i: int, j: int| 0 <= i <= j < t.len() ==> t[i] <= t[j]
}

/// How many stamps of `t` are earlier than `x`; in a sorted series, the
/// position at which `x` would be inserted before any equal stamps.
pub open spec fn count_before(t: Seq<i64>, x: i64) -> nat
    decreases t.len(),
{
    if t.len() == 0 {
        0
    } else {
        count_before(t.drop_last(), x) + if t.last() < x {
            1nat
        } else {
            0nat
        }
    }
}

/// In a sorted series, the number of stamps before `x` is the split point:
/// everything before it is earlier than `x`, everything from it on is not.
pub proof fn lemma_count_before_split(t: Seq<i64>, x: i64, k: int)
    requires
        sorted_times(t),
        0 <= k <= t.len(),
        forall|j: int| 0 <= j < k ==> t[j] < x,
        forall|j: int| k <= j < t.len() ==> t[j] >= x,
    ensures
        count_before(t, x) == k,
    decreases t.len(),
{
    if t.len() > 0 {
        if k == t.len() {
            lemma_count_before_split(t.drop_last(), x, k - 1);
        } else {
            lemma_count_before_split(t.drop_last(), x, k);
        }
    }
}

/// In a sorted series, `count_before` lies on the right side of any stamp.
pub proof fn lemma_count_before_split_any(t: Seq<i64>, x: i64, j: int)
    requires
        sorted_times(t),
        0 <= j <= t.len(),
    ensures
        (j > 0 && t[j - 1] < x) ==> count_before(t, x) >= j,
        (j < t.len() && t[j] >= x) ==> count_before(t, x) <= j,
    decreases t.len(),
{
    if t.len() > 0 {
        let p = t.drop_last();
        assert(sorted_times(p));
        if j < t.len() {
            lemma_count_before_split_any(p, x, j);
        } else {
            lemma_count_before_split_any(p, x, j - 1);
        }
        lemma_count_before_le(p, x);
    }
}

/// No more stamps are earlier than `x` than there are stamps.
proof fn lemma_count_before_le(t: Seq<i64>, x: i64)
    ensures
        count_before(t, x) <= t.len(),
    decreases t.len(),
{
    if t.len() > 0 {
        lemma_count_before_le(t.drop_last(), x);
    }
}

/// Where `x` falls in `t`: the first position whose stamp is not earlier
/// than `x` (for a sorted series).
pub fn lower_bound(t: &[i64], x: i64) -> (r: usize)
    ensures
        r <= t@.len(),
        sorted_times(t@) ==> r == count_before(t@, x),
        sorted_times(t@) ==> forall|j: int| 0 <= j < r ==> t@[j] < x,
        sorted_times(t@) ==> forall|j: int| r <= j < t@.len() ==> t@[j] >= x,
{
    let mut lo: usize = 0;
    let mut hi: usize = t.len();
    while lo < hi
        invariant
            lo <= hi <= t@.len(),
            sorted_times(t@) ==> forall|j: int| 0 <= j < lo ==> t@[j] < x,
            sorted_times(t@) ==> forall|j: int| hi <= j < t@.len() ==> t@[j] >= x,
        decreases hi - lo,
    {
        let mid = lo + (hi - lo) / 2;
        if t[mid] < x {
            lo = mid + 1;
        } else {
            hi = mid;
        }
    }
    proof {
        if sorted_times(t@) {
            lemma_count_before_split(t@, x, lo as int);
        }
    }
    lo
}

/// `std`'s `binary_search` answer for `x`: `Ok(i)` when `t[i] == x`, else
/// `Err(i)` with `i` the insertion point. Among equal stamps the first is
/// the one found.
pub fn search_time(t: &[i64], x: i64) -> (r: Result<usize, usize>)
    ensures
        r matches Ok(i) ==> i < t@.len() && t@[i as int] == x,
        r matches Err(i) ==> i <= t@.len(),
        sorted_times(t@) ==> (match r {
            Ok(i) => i == count_before(t@, x),
            Err(i) => i == count_before(t@, x) && forall|j: int| 0 <= j < t@.len() ==> t@[j] != x,
        }),
        sorted_times(t@) ==> (match r {
            Ok(i) => forall|j: int| 0 <= j < i ==> t@[j] < x,
            Err(i) => (forall|j: int| 0 <= j < i ==> t@[j] < x) && (forall|j: int|
                i <= j < t@.len() ==> t@[j] > x),
        }),
{
    let i = lower_bound(t, x);
    if i < t.len() && t[i] == x {
        Ok(i)
    } else {
        Err(i)
    }
}

/// The first position whose stamp is at or after `x`, scanning from the
/// start (`None` when every stamp is earlier).
pub fn first_at_or_after(t: &[i64], x: i64) -> (r: Option<usize>)
    ensures
        match r {
            Some(i) => i < t@.len() && t@[i as int] >= x && forall|j: int| 0 <= j < i ==> t@[j]
                < x,
            None => forall|j: int| 0 <= j < t@.len() ==> t@[j] < x,
        },
{
    let mut i: usize = 0;
    while i < t.len()
        invariant
            i <= t@.len(),
            forall|j: int| 0 <= j < i ==> t@[j] < x,
        decreases t.len() - i,
    {
        if t[i] >= x {
            return Some(i);
        }
        i = i + 1;
    }
    None
}

/// Which recorded points a query time uses.
#[derive(Debug, Clone, Copy, PartialEq, Eq)]
pub enum Bracket {
    /// No points at all.
    Empty,
    /// Take point `i` as it is: it is at the query time, or the query
    /// time is before the first point or after the last.
    Point(usize),
    /// The query time lies strictly between points `i - 1` and `i`.
    Between(usize),
}

/// The bracket that the query time `x` falls in, over stamps `t`.
pub open spec fn bracket_ok(t: Seq<i64>, x: i64, b: Bracket) -> bool {
    &&& (t.len() == 0 <==> b is Empty)
    &&& (b matches Bracket::Point(i) ==> i < t.len())
    &&& (b matches Bracket::Between(i) ==> 0 < i < t.len())
    &&& sorted_times(t) ==> match b {
        Bracket::Empty => true,
        Bracket::Point(i) => {
            ||| (t[i as int] == x && forall|j: int| 0 <= j < i ==> t[j] < x)
            ||| (i == 0 && x < t[0])
            ||| (i == t.len() - 1 && t[i as int] < x)
        },
        Bracket::Between(i) => t[i - 1] < x < t[i as int],
    }
}

/// Locates `x` among the stamps `t`, as an interpolating lookup needs it.
pub fn bracket_time(t: &[i64], x: i64) -> (b: Bracket)
    ensures
        bracket_ok(t@, x, b),
{
    if t.len() == 0 {
        return Bracket::Empty;
    }
    match search_time(t, x) {
        Ok(i) => Bracket::Point(i),
        Err(i) => {
            if i == 0 {
                Bracket::Point(0)
            } else if i >= t.len() {
                Bracket::Point(t.len() - 1)
            } else {
                Bracket::Between(i)
            }
        },
    }
}

} // verus!
