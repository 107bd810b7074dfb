//! Joining two clips: the list file that ffmpeg's concat demuxer reads.
use crate::text::{chars_of, push_char, push_chars};
use vstd::prelude::*;

verus! {

/// How one character of a path is written inside a quoted concat-list
/// entry: backslashes become forward slashes (ffmpeg reads backslashes as
/// escapes even inside quotes) and a single quote closes the quote, adds
/// an escaped quote and reopens it.
pub open spec fn escaped_char(c: char) -> Seq<char> {
    if c == '\\' {
        seq!['/']
    } else if c == '\'' {
        seq!['\'', '\\', '\'', '\'']
    } else {
        seq![c]
    }
}

/// A path with every character written as `escaped_char` writes it.
pub open spec fn escaped_path(s: Seq<char>) -> Seq<char>
    decreases s.len(),
{
    if s.len() == 0 {
        Seq::empty()
    } else {
        escaped_path(s.drop_last()) + escaped_char(s.last())
    }
}

/// The list entry for one clip: `file '<escaped path>'`, then a newline.
pub open spec fn concat_entry(path: Seq<char>) -> Seq<char> {
    seq!['f', 'i', 'l', 'e', ' ', '\''] + escaped_path(path) + seq!['\'', '\n']
}

fn push_entry(s: &mut String, path: &str)
    ensures
        final(s)@ == old(s)@ + concat_entry(path@),
{
    let v = chars_of(path);
    push_char(s, 'f');
    push_char(s, 'i');
    push_char(s, 'l');
    push_char(s, 'e');
    push_char(s, ' ');
    push_char(s, '\'');
    let ghost head = s@;
    let mut i: usize = 0;
    while i < v.len()
        invariant
            i <= v@.len(),
            v@ == path@,
            s@ == head + escaped_path(v@.take(i as int)),
        decreases v.len() - i,
    {
        assert(v@.take(i + 1).drop_last() == v@.take(i as int));
        assert(v@.take(i + 1).last() == v@[i as int]);
        let c = v[i];
        let ghost before = s@;
        if c == '\\' {
            push_char(s, '/');
        } else if c == '\'' {
            push_char(s, '\'');
            push_char(s, '\\');
            push_char(s, '\'');
            push_char(s, '\'');
        } else {
            push_char(s, c);
        }
        assert(s@ =~= before + escaped_char(c));
        i = i + 1;
    }
    assert(v@.take(v@.len() as int) == v@);
    push_char(s, '\'');
    push_char(s, '\n');
    assert(s@ =~= old(s)@ + concat_entry(path@));
}

/// The concat list that plays `video1` and then `video2`.
pub fn concat_list(video1: &str, video2: &str) -> (s: String)
    ensures
        s@ == concat_entry(video1@) + concat_entry(video2@),
{
    let mut s = String::new();
    push_entry(&mut s, video1);
    push_entry(&mut s, video2);
    s
}

/// An escaped path never holds a backslash that is not part of an escaped
/// quote: every backslash in it is preceded by a quote.
pub proof fn law_escaped_backslashes(s: Seq<char>)
    ensures
        forall|k: int|
            0 <= k < escaped_path(s).len() && #[trigger] escaped_path(s)[k] == '\\' ==> k > 0
                && escaped_path(s)[k - 1] == '\'',
    decreases s.len(),
{
    if s.len() > 0 {
        let p = s.drop_last();
        law_escaped_backslashes(p);
        let e = escaped_path(s);
        let ep = escaped_path(p);
        let ec = escaped_char(s.last());
        assert(e == ep + ec);
        assert forall|k: int| 0 <= k < e.len() && #[trigger] e[k] == '\\' implies k > 0 && e[k - 1] == '\'' by {
            if k < ep.len() {
                assert(e[k] == ep[k]);
                assert(e[k - 1] == ep[k - 1]);
            } else {
                let q = k - ep.len();
                assert(e[k] == ec[q]);
                assert(q == 1);
                assert(e[k - 1] == ec[0]);
            }
        }
    }
}

/// Escaping rewrites only backslashes (to `/`) and single quotes (to
/// `'\''`); every other character is written as it is, so a path with
/// neither appears verbatim between the quotes of its entry.
pub proof fn law_escaping_keeps_other_chars(p: Seq<char>)
    ensures
        forall|c: char| c != '\\' && c != '\'' ==> #[trigger] escaped_char(c) == seq![c],
        escaped_char('\\') == seq!['/'],
        escaped_char('\'') == seq!['\'', '\\', '\'', '\''],
        (forall|i: int| 0 <= i < p.len() ==> p[i] != '\\' && p[i] != '\'') ==> escaped_path(p) == p,
        (forall|i: int| 0 <= i < p.len() ==> p[i] != '\\' && p[i] != '\'') ==> concat_entry(p) == seq![
            'f',
            'i',
            'l',
            'e',
            ' ',
            '\'',
        ] + p + seq!['\'', '\n'],
    decreases p.len(),
{
    if p.len() > 0 {
        law_escaping_keeps_other_chars(p.drop_last());
        if forall|i: int| 0 <= i < p.len() ==> p[i] != '\\' && p[i] != '\'' {
            assert(p.drop_last() + seq![p.last()] =~= p);
        }
    }
}

} // verus!
