//! Character-level text handling shared by the parsers and formatters:
//! line splitting, whitespace trimming and decimal rendering of integers.
use vstd::prelude::*;

verus! {

broadcast use vstd::string::group_string_axioms;

/// The characters of `s`, in order.
pub fn chars_of(s: &str) -> (v: Vec<char>)
    ensures
        v@ == s@,
{
    let mut v: Vec<char> = Vec::new();
    for c in it: s.chars()
        invariant
            v@ == it.seq().take(it.index() as int),
            it.seq() == s@,
    {
        v.push(c);
    }
    v
}

/// Appends one character to a `String` (std's `String::push`).
#[verifier::external_body]
pub(crate) fn push_char(s: &mut String, c: char)
    ensures
        final(s)@ == old(s)@.push(c),
{
    s.push(c);
}

/// Appends every character of `v` to `s`.
pub fn push_chars(s: &mut String, v: &Vec<char>)
    ensures
        final(s)@ == old(s)@ + v@,
{
    let mut i: usize = 0;
    while i < v.len()
        invariant
            i <= v.len(),
            s@ == old(s)@ + v@.take(i as int),
        decreases v.len() - i,
    {
        push_char(s, v[i]);
        assert(v@.take(i as int).push(v@[i as int]) == v@.take(i + 1));
        i = i + 1;
    }
    assert(v@.take(v.len() as int) == v@);
}

/// A `String` holding exactly the characters of `v`.
pub fn string_of(v: &Vec<char>) -> (s: String)
    ensures
        s@ == v@,
{
    let mut s = String::new();
    push_chars(&mut s, v);
    s
}

/// The elements `v[a..b]` as a new vector.
pub fn copy_range(v: &Vec<char>, a: usize, b: usize) -> (r: Vec<char>)
    requires
        a <= b <= v.len(),
    ensures
        r@ == v@.subrange(a as int, b as int),
{
    let mut r: Vec<char> = Vec::new();
    let mut i = a;
    while i < b
        invariant
            a <= i <= b <= v.len(),
            r@ == v@.subrange(a as int, i as int),
        decreases b - i,
    {
        r.push(v[i]);
        assert(v@.subrange(a as int, i as int).push(v@[i as int]) == v@.subrange(
            a as int,
            i + 1,
        ));
        i = i + 1;
    }
    r
}

// ---------------------------------------------------------------------------
// Whitespace and trimming
/// Unicode `White_Space`, the property that `char::is_whitespace` tests.
pub open spec fn is_ws(c: char) -> bool {
    let u = c as u32;
    ||| (0x09 <= u && u <= 0x0d)
    ||| u == 0x20
    ||| u == 0x85
    ||| u == 0xa0
    ||| u == 0x1680
    ||| (0x2000 <= u && u <= 0x200a)
    ||| u == 0x2028
    ||| u == 0x2029
    ||| u == 0x202f
    ||| u == 0x205f
    ||| u == 0x3000
}

/// Whether `c` is Unicode whitespace.
pub fn is_whitespace(c: char) -> (b: bool)
    ensures
        b == is_ws(c),
{
    let u = c as u32;
    (0x09 <= u && u <= 0x0d) || u == 0x20 || u == 0x85 || u == 0xa0 || u == 0x1680 || (0x2000
        <= u && u <= 0x200a) || u == 0x2028 || u == 0x2029 || u == 0x202f || u == 0x205f || u
        == 0x3000
}

/// Index of the first non-whitespace character of `t` at or after `i`
/// (`t.len()` when there is none).
pub open spec fn skip_ws_fwd(t: Seq<char>, i: int) -> int
    decreases t.len() - i,
{
    if i >= t.len() || i < 0 {
        t.len() as int
    } else if is_ws(t[i]) {
        skip_ws_fwd(t, i + 1)
    } else {
        i
    }
}

/// End of `t[..j]` once trailing whitespace at or after `lo` is dropped.
pub open spec fn skip_ws_back(t: Seq<char>, lo: int, j: int) -> int
    decreases j - lo,
{
    if j <= lo {
        lo
    } else if is_ws(t[j - 1]) {
        skip_ws_back(t, lo, j - 1)
    } else {
        j
    }
}

/// `t` without leading and trailing whitespace, as `str::trim` gives it.
pub open spec fn trim(t: Seq<char>) -> Seq<char> {
    let a = skip_ws_fwd(t, 0);
    t.subrange(a, skip_ws_back(t, a, t.len() as int))
}

proof fn lemma_skip_ws_fwd(t: Seq<char>, i: int, k: int)
    requires
        0 <= i <= k <= t.len(),
        forall|q: int| i <= q < k ==> is_ws(#[trigger] t[q]),
        k == t.len() || !is_ws(t[k]),
    ensures
        skip_ws_fwd(t, i) == k,
    decreases k - i,
{
    if i < k {
        lemma_skip_ws_fwd(t, i + 1, k);
    }
}

proof fn lemma_skip_ws_back(t: Seq<char>, lo: int, j: int, k: int)
    requires
        0 <= lo <= k <= j <= t.len(),
        forall|q: int| k <= q < j ==> is_ws(#[trigger] t[q]),
        k == lo || !is_ws(t[k - 1]),
    ensures
        skip_ws_back(t, lo, j) == k,
    decreases j - k,
{
    if k < j {
        lemma_skip_ws_back(t, lo, j - 1, k);
    }
}

/// `t` with surrounding whitespace removed.
pub fn trim_chars(t: &Vec<char>) -> (r: Vec<char>)
    ensures
        r@ == trim(t@),
{
    let mut a: usize = 0;
    while a < t.len() && is_whitespace(t[a])
        invariant
            a <= t.len(),
            forall|q: int| 0 <= q < a ==> is_ws(#[trigger] t@[q]),
        decreases t.len() - a,
    {
        a = a + 1;
    }
    proof {
        lemma_skip_ws_fwd(t@, 0, a as int);
    }
    let mut b: usize = t.len();
    while b > a && is_whitespace(t[b - 1])
        invariant
            a <= b <= t.len(),
            forall|q: int| b <= q < t.len() ==> is_ws(#[trigger] t@[q]),
        decreases b - a,
    {
        b = b - 1;
    }
    proof {
        lemma_skip_ws_back(t@, a as int, t.len() as int, b as int);
    }
    copy_range(t, a, b)
}

// ---------------------------------------------------------------------------
// Lines
/// Index of the first `c` in `s` at or after `p` (`s.len()` when there is none).
pub open spec fn index_of_from(s: Seq<char>, p: int, c: char) -> int
    decreases s.len() - p,
{
    if p >= s.len() || p < 0 {
        s.len() as int
    } else if s[p] == c {
        p
    } else {
        index_of_from(s, p + 1, c)
    }
}

/// Index of the first `'\n'` in `s` at or after `p` (`s.len()` when there is none).
pub open spec fn next_newline(s: Seq<char>, p: int) -> int {
    index_of_from(s, p, '\n')
}

/// The line of `s` that starts at `p` and ends before the newline at `e`,
/// without the `'\r'` of a `"\r\n"` ending.
pub open spec fn line_body(s: Seq<char>, p: int, e: int) -> Seq<char> {
    if e < s.len() && e > p && s[e - 1] == '\r' {
        s.subrange(p, e - 1)
    } else {
        s.subrange(p, e)
    }
}

/// The lines of `s[p..]`, as `str::lines` yields them: split at `'\n'`, a
/// `'\r'` just before a `'\n'` dropped, no empty line after a final newline.
pub open spec fn lines_from(s: Seq<char>, p: int) -> Seq<Seq<char>>
    decreases s.len() - p,
{
    if p >= s.len() || p < 0 {
        Seq::empty()
    } else {
        let e = next_newline(s, p);
        proof {
            lemma_next_newline_bounds(s, p);
        }
        if e >= s.len() {
            seq![line_body(s, p, e)]
        } else {
            seq![line_body(s, p, e)] + lines_from(s, e + 1)
        }
    }
}

/// The lines of `s`.
pub open spec fn lines(s: Seq<char>) -> Seq<Seq<char>> {
    lines_from(s, 0)
}

/// The next newline from `p` is at or after `p`, within `s`.
pub proof fn lemma_next_newline_bounds(s: Seq<char>, p: int)
    requires
        0 <= p <= s.len(),
    ensures
        p <= next_newline(s, p) <= s.len(),
{
    lemma_index_of_bounds(s, p, '\n');
}

/// A search from `p` stops at or after `p`, within `s`.
pub proof fn lemma_index_of_bounds(s: Seq<char>, p: int, c: char)
    requires
        0 <= p <= s.len(),
    ensures
        p <= index_of_from(s, p, c) <= s.len(),
    decreases s.len() - p,
{
    if p < s.len() && s[p] != c {
        lemma_index_of_bounds(s, p + 1, c);
    }
}

/// `k` is where the search for `c` from `p` stops.
pub proof fn lemma_index_of(s: Seq<char>, p: int, c: char, k: int)
    requires
        0 <= p <= k <= s.len(),
        forall|q: int| p <= q < k ==> #[trigger] s[q] != c,
        k == s.len() || s[k] == c,
    ensures
        index_of_from(s, p, c) == k,
    decreases k - p,
{
    if p < k {
        lemma_index_of(s, p + 1, c, k);
    }
}

/// Finds the first `c` in `s` at or after `p`.
pub fn find_char(s: &Vec<char>, p: usize, c: char) -> (k: usize)
    requires
        p <= s.len(),
    ensures
        k == index_of_from(s@, p as int, c),
        p <= k <= s.len(),
{
    let mut k = p;
    while k < s.len() && s[k] != c
        invariant
            p <= k <= s.len(),
            forall|q: int| p <= q < k ==> #[trigger] s@[q] != c,
        decreases s.len() - k,
    {
        k = k + 1;
    }
    proof {
        lemma_index_of(s@, p as int, c, k as int);
    }
    k
}

/// Finds where the line starting at `p` ends: returns the index `e` of the
/// newline (or `s.len()`) and the line's characters.
pub fn next_line(s: &Vec<char>, p: usize) -> (res: (usize, Vec<char>))
    requires
        p < s.len(),
    ensures
        res.0 == next_newline(s@, p as int),
        p <= res.0 <= s.len(),
        res.1@ == line_body(s@, p as int, res.0 as int),
{
    let e = find_char(s, p, '\n');
    let end = if e < s.len() && e > p && s[e - 1] == '\r' {
        e - 1
    } else {
        e
    };
    (e, copy_range(s, p, end))
}

// ---------------------------------------------------------------------------
// Decimal rendering
/// The ASCII digit for `d < 10`.
pub open spec fn digit_char(d: nat) -> char {
    (('0' as u32) + d) as char
}

/// Decimal digits of `n`, most significant first, with no leading zeros
/// (`"0"` for zero).
pub open spec fn decimal(n: nat) -> Seq<char>
    decreases n,
{
    if n < 10 {
        seq![digit_char(n)]
    } else {
        decimal(n / 10).push(digit_char(n % 10))
    }
}

/// `k` copies of `'0'`.
pub open spec fn zeros(k: int) -> Seq<char> {
    Seq::new(if k > 0 { k as nat } else { 0 }, |_i: int| '0')
}

/// `digits` left-padded with zeros to at least `width` characters.
pub open spec fn zero_pad(digits: Seq<char>, width: int) -> Seq<char> {
    zeros(width - digits.len()) + digits
}

/// How Rust's `{}` / `{:0w}` render a signed integer: a `'-'` for negative
/// values, then the digits of the magnitude, zero-padded so the whole text
/// (sign included) has at least `width` characters.
pub open spec fn signed_decimal(n: int, width: int) -> Seq<char> {
    if n < 0 {
        seq!['-'] + zero_pad(decimal((-n) as nat), width - 1)
    } else {
        zero_pad(decimal(n as nat), width)
    }
}

pub proof fn lemma_decimal_len(n: nat)
    ensures
        n < 10 ==> decimal(n).len() == 1,
        10 <= n < 100 ==> decimal(n).len() == 2,
        100 <= n < 1000 ==> decimal(n).len() == 3,
        1 <= decimal(n).len(),
    decreases n,
{
    if n >= 10 {
        lemma_decimal_len(n / 10);
    }
}

/// The decimal digits of `n`.
pub fn decimal_chars(n: u64) -> (v: Vec<char>)
    ensures
        v@ == decimal(n as nat),
    decreases n,
{
    if n < 10 {
        let c = char_of_digit(n);
        let mut v: Vec<char> = Vec::new();
        v.push(c);
        v
    } else {
        let mut v = decimal_chars(n / 10);
        v.push(char_of_digit(n % 10));
        v
    }
}

/// The ASCII digit for `d`.
pub fn char_of_digit(d: u64) -> (c: char)
    requires
        d < 10,
    ensures
        c == digit_char(d as nat),
{
    if d == 0 {
        '0'
    } else if d == 1 {
        '1'
    } else if d == 2 {
        '2'
    } else if d == 3 {
        '3'
    } else if d == 4 {
        '4'
    } else if d == 5 {
        '5'
    } else if d == 6 {
        '6'
    } else if d == 7 {
        '7'
    } else if d == 8 {
        '8'
    } else {
        '9'
    }
}

/// Appends `k` zeros to `s`.
pub fn push_zeros(s: &mut String, k: usize)
    ensures
        final(s)@ == old(s)@ + zeros(k as int),
{
    let mut i: usize = 0;
    while i < k
        invariant
            i <= k,
            s@ == old(s)@ + zeros(i as int),
        decreases k - i,
    {
        push_char(s, '0');
        assert(zeros(i as int).push('0') == zeros(i + 1));
        i = i + 1;
    }
}

/// Appends `n` rendered as `{:0width$}` renders an unsigned magnitude.
pub fn push_padded(s: &mut String, n: u64, width: usize)
    ensures
        final(s)@ == old(s)@ + zero_pad(decimal(n as nat), width as int),
{
    let d = decimal_chars(n);
    if d.len() < width {
        push_zeros(s, width - d.len());
    } else {
        assert(zeros(width - d@.len()) == Seq::<char>::empty());
    }
    push_chars(s, &d);
    assert(old(s)@ + zeros(width - d@.len()) + d@ == old(s)@ + (zeros(width - d@.len()) + d@));
}

/// Appends `n` rendered as `{:0width$}` renders a signed integer.
pub fn push_signed(s: &mut String, n: i64, width: usize)
    requires
        n > i64::MIN,
    ensures
        final(s)@ == old(s)@ + signed_decimal(n as int, width as int),
{
    if n < 0 {
        push_char(s, '-');
        let w = if width > 0 {
            width - 1
        } else {
            0
        };
        let m: i64 = -n;
        push_padded(s, m as u64, w);
        proof {
            let dm = decimal((-n) as nat);
            lemma_decimal_len((-n) as nat);
            assert(zero_pad(dm, w as int) == zero_pad(dm, width - 1));
            assert(old(s)@.push('-') + zero_pad(dm, w as int) == old(s)@ + (seq!['-'] + zero_pad(
                dm,
                width - 1,
            )));
        }
    } else {
        push_padded(s, n as u64, width);
    }
}

} // verus!
