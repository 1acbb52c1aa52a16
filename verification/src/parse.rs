//! The config-text parser: one `key : value` entry per line, split at the
//! first `:`, both sides trimmed, lines without a `:` or with an invalid key
//! dropped, and a later line with the same key winning.

use vstd::prelude::*;

use crate::store::StringMap;
use crate::text::{is_valid_key, trim_spec, trim_str, valid_key_str};

verus! {

/// Index of the first occurrence of `c` in `s`, or `s.len()` if absent.
pub open spec fn find_char_spec(s: Seq<char>, c: char) -> int
    decreases s.len(),
{
    if s.len() == 0 {
        0
    } else if s[0] == c {
        0
    } else {
        1 + find_char_spec(s.drop_first(), c)
    }
}

/// A position before which `c` does not occur, and at which it does (or
/// which is the end), is where `find_char_spec` points.
pub proof fn lemma_find_char_at(s: Seq<char>, c: char, i: int)
    requires
        0 <= i <= s.len(),
        forall|k: int| 0 <= k < i ==> s[k] != c,
        i == s.len() || s[i] == c,
    ensures
        find_char_spec(s, c) == i,
    decreases i,
{
    if s.len() == 0 {
    } else if s[0] == c {
        if i > 0 {
            assert(s[0] != c);
        }
    } else {
        assert(i >= 1);
        let t = s.drop_first();
        assert(forall|k: int| 0 <= k < i - 1 ==> t[k] == s[k + 1] && s[k + 1] != c);
        if i < s.len() {
            assert(t[i - 1] == s[i]);
        }
        lemma_find_char_at(t, c, i - 1);
    }
}

/// Index of the first occurrence of `c`, or the length if `c` is absent.
pub fn find_char(s: &str, c: char) -> (r: usize)
    ensures
        r as int == find_char_spec(s@, c),
        r <= s@.len(),
        forall|k: int| 0 <= k < r ==> s@[k] != c,
        r < s@.len() ==> s@[r as int] == c,
{
    let n = s.unicode_len();
    let mut i: usize = 0;
    while i < n && s.get_char(i) != c
        invariant
            n == s@.len(),
            0 <= i <= n,
            forall|k: int| 0 <= k < i ==> s@[k] != c,
        decreases n - i,
    {
        i += 1;
    }
    proof {
        lemma_find_char_at(s@, c, i as int);
    }
    i
}

/// `find_char_spec` stays within the sequence's bounds.
pub proof fn lemma_find_char_bounds(s: Seq<char>, c: char)
    ensures
        0 <= find_char_spec(s, c) <= s.len(),
    decreases s.len(),
{
    if s.len() > 0 && s[0] != c {
        lemma_find_char_bounds(s.drop_first(), c);
    }
}

/// A line with a final carriage return removed, as `str::lines` leaves a
/// line that ended in `\r\n`.
pub open spec fn strip_cr(l: Seq<char>) -> Seq<char> {
    if l.len() > 0 && l.last() == '\r' {
        l.drop_last()
    } else {
        l
    }
}

/// The lines of `s`: split at `\n`, a `\r` directly before the `\n`
/// removed, no line made for a final terminator.
pub open spec fn split_lines_spec(s: Seq<char>) -> Seq<Seq<char>>
    decreases s.len(),
    via split_lines_spec_dec
{
    if s.len() == 0 {
        Seq::empty()
    } else {
        let i = find_char_spec(s, '\n');
        if i == s.len() {
            seq![s]
        } else {
            seq![strip_cr(s.subrange(0, i))] + split_lines_spec(
                s.subrange(i + 1, s.len() as int),
            )
        }
    }
}

#[via_fn]
proof fn split_lines_spec_dec(s: Seq<char>) {
    lemma_find_char_bounds(s, '\n');
}

/// Split config text into lines, the same way `str::lines` does.
pub fn split_config_lines(s: &str) -> (r: Vec<String>)
    ensures
        r.deep_view() == split_lines_spec(s@),
{
    let n = s.unicode_len();
    let mut r: Vec<String> = Vec::new();
    proof {
        assert(s@.subrange(0, n as int) =~= s@);
    }
    let mut pos: usize = 0;
    while pos < n
        invariant
            n == s@.len(),
            0 <= pos <= n,
            r.deep_view() + split_lines_spec(s@.subrange(pos as int, n as int))
                == split_lines_spec(s@),
        decreases n - pos,
    {
        let mut k: usize = pos;
        while k < n && s.get_char(k) != '\n'
            invariant
                n == s@.len(),
                pos <= k <= n,
                forall|t: int| pos <= t < k ==> s@[t] != '\n',
            decreases n - k,
        {
            k += 1;
        }
        let mut endk = k;
        if k < n && endk > pos && s.get_char(endk - 1) == '\r' {
            endk -= 1;
        }
        let line = s.substring_char(pos, endk);
        let ghost r_before = r.deep_view();
        r.push(line.to_owned());
        proof {
            assert(r.deep_view() =~= r_before.push(line@));
            let t = s@.subrange(pos as int, n as int);
            assert forall|u: int| 0 <= u < k - pos implies t[u] != '\n' by {
                assert(t[u] == s@[pos + u]);
            }
            if k < n {
                assert(t[k - pos] == s@[k as int]);
            }
            lemma_find_char_at(t, '\n', k - pos);
            if k == n {
                assert(line@ == s@.subrange(pos as int, n as int));
                assert(split_lines_spec(t) == seq![t]);
                assert(line@ == t);
                assert(r_before.push(line@) =~= r_before + seq![t]);
                assert(s@.subrange(n as int, n as int) =~= Seq::<char>::empty());
            } else {
                let head = t.subrange(0, k - pos);
                assert(head =~= s@.subrange(pos as int, k as int));
                assert(strip_cr(head) =~= s@.subrange(pos as int, endk as int));
                assert(line@ == strip_cr(head));
                assert(t.subrange(k - pos + 1, t.len() as int) =~= s@.subrange(
                    k + 1,
                    n as int,
                ));
                assert(split_lines_spec(t) == seq![strip_cr(head)] + split_lines_spec(
                    s@.subrange(k + 1, n as int),
                ));
                assert(r_before.push(line@) + split_lines_spec(s@.subrange(k + 1, n as int))
                    =~= r_before + split_lines_spec(t));
            }
        }
        pos = if k < n {
            k + 1
        } else {
            n
        };
    }
    proof {
        assert(s@.subrange(n as int, n as int) =~= Seq::<char>::empty());
        assert(r.deep_view() + Seq::<Seq<char>>::empty() =~= r.deep_view());
    }
    r
}

/// What one line contributes: the trimmed key/value pair split at the first
/// `:`, or nothing when the line has no `:` or the key is invalid.
pub open spec fn parse_line_spec(l: Seq<char>) -> Option<(Seq<char>, Seq<char>)> {
    let i = find_char_spec(l, ':');
    if i == l.len() {
        None
    } else {
        let k = trim_spec(l.subrange(0, i));
        let v = trim_spec(l.subrange(i + 1, l.len() as int));
        if is_valid_key(k) {
            Some((k, v))
        } else {
            None
        }
    }
}

/// Parse one line.
pub fn parse_line(l: &str) -> (r: Option<(String, String)>)
    ensures
        match r {
            Some(p) => parse_line_spec(l@) == Some((p.0@, p.1@)),
            None => parse_line_spec(l@) is None,
        },
{
    let n = l.unicode_len();
    let i = find_char(l, ':');
    if i == n {
        return None;
    }
    let k = trim_str(l.substring_char(0, i));
    let v = trim_str(l.substring_char(i + 1, n));
    if valid_key_str(k.as_str()) {
        Some((k, v))
    } else {
        None
    }
}

/// The entries of a line sequence, a later line with the same key winning.
pub open spec fn parse_entries(lines: Seq<Seq<char>>) -> Map<Seq<char>, Seq<char>>
    decreases lines.len(),
{
    if lines.len() == 0 {
        Map::empty()
    } else {
        let m = parse_entries(lines.drop_last());
        match parse_line_spec(lines.last()) {
            Some(kv) => m.insert(kv.0, kv.1),
            None => m,
        }
    }
}

/// The mapping described by a whole config text.
pub open spec fn parse_spec(s: Seq<char>) -> Map<Seq<char>, Seq<char>> {
    parse_entries(split_lines_spec(s))
}

/// Parse config text into a table of entries.
pub fn parse_config_text(s: &str) -> (r: StringMap)
    ensures
        r@ == parse_spec(s@),
{
    let lines = split_config_lines(s);
    let mut m = StringMap::new();
    let n = lines.len();
    proof {
        assert(lines.deep_view().subrange(0, 0) =~= Seq::<Seq<char>>::empty());
    }
    let mut i: usize = 0;
    while i < n
        invariant
            n == lines@.len(),
            lines.deep_view() == split_lines_spec(s@),
            0 <= i <= n,
            m@ == parse_entries(lines.deep_view().subrange(0, i as int)),
        decreases n - i,
    {
        let line = &lines[i];
        proof {
            assert(lines.deep_view()[i as int] == lines@[i as int]@);
        }
        match parse_line(line.as_str()) {
            Some(p) => {
                let (k, v) = p;
                m.insert(k, v);
            },
            None => {},
        }
        proof {
            let dv = lines.deep_view();
            assert(dv.subrange(0, i + 1).drop_last() =~= dv.subrange(0, i as int));
            assert(dv.subrange(0, i + 1).last() == dv[i as int]);
        }
        i += 1;
    }
    proof {
        assert(lines.deep_view().subrange(0, n as int) =~= lines.deep_view());
    }
    m
}

} // verus!
