//! Helpers for the query operation: substring matching, the `key :\tvalue`
//! line format, lexicographic ordering of lines, and joining with newlines.

use vstd::prelude::*;

verus! {

/// Lexicographic order on character sequences, by code point, a prefix
/// ordered before its extensions.  This is the order `str` comparison uses.
pub open spec fn lex_le(a: Seq<char>, b: Seq<char>) -> bool
    decreases a.len(),
{
    if a.len() == 0 {
        true
    } else if b.len() == 0 {
        false
    } else if (a[0] as u32) < (b[0] as u32) {
        true
    } else if (a[0] as u32) > (b[0] as u32) {
        false
    } else {
        lex_le(a.drop_first(), b.drop_first())
    }
}

/// `lex_le` is total.
pub proof fn lemma_lex_total(a: Seq<char>, b: Seq<char>)
    ensures
        lex_le(a, b) || lex_le(b, a),
    decreases a.len(),
{
    if a.len() > 0 && b.len() > 0 && (a[0] as u32) == (b[0] as u32) {
        lemma_lex_total(a.drop_first(), b.drop_first());
    }
}

/// `lex_le` is transitive.
pub proof fn lemma_lex_trans(a: Seq<char>, b: Seq<char>, c: Seq<char>)
    requires
        lex_le(a, b),
        lex_le(b, c),
    ensures
        lex_le(a, c),
    decreases a.len(),
{
    if a.len() > 0 && b.len() > 0 && c.len() > 0 {
        if (a[0] as u32) == (b[0] as u32) && (b[0] as u32) == (c[0] as u32) {
            lemma_lex_trans(a.drop_first(), b.drop_first(), c.drop_first());
        }
    }
}

proof fn lemma_lex_at(a: Seq<char>, b: Seq<char>, j: int)
    requires
        0 <= j <= a.len(),
        j <= b.len(),
        forall|k: int| 0 <= k < j ==> (a[k] as u32) == (b[k] as u32),
        j == a.len() || j == b.len() || (a[j] as u32) != (b[j] as u32),
    ensures
        lex_le(a, b) == if j == a.len() {
            true
        } else if j == b.len() {
            false
        } else {
            (a[j] as u32) < (b[j] as u32)
        },
    decreases j,
{
    if j == 0 {
    } else {
        assert(a.len() > 0 && b.len() > 0);
        assert((a[0] as u32) == (b[0] as u32));
        let ta = a.drop_first();
        let tb = b.drop_first();
        assert(forall|k: int| 0 <= k < j - 1 ==> ta[k] == a[k + 1] && tb[k] == b[k + 1]);
        if j < a.len() && j < b.len() {
            assert(ta[j - 1] == a[j]);
            assert(tb[j - 1] == b[j]);
        }
        lemma_lex_at(ta, tb, j - 1);
    }
}

/// Compare two string slices in the order of [`lex_le`].
pub fn str_lex_le(a: &str, b: &str) -> (r: bool)
    ensures
        r == lex_le(a@, b@),
{
    let na = a.unicode_len();
    let nb = b.unicode_len();
    let mut j: usize = 0;
    while j < na && j < nb && (a.get_char(j) as u32) == (b.get_char(j) as u32)
        invariant
            na == a@.len(),
            nb == b@.len(),
            0 <= j <= na,
            j <= nb,
            forall|k: int| 0 <= k < j ==> (a@[k] as u32) == (b@[k] as u32),
        decreases na - j,
    {
        j += 1;
    }
    proof {
        lemma_lex_at(a@, b@, j as int);
    }
    if j == na {
        true
    } else if j == nb {
        false
    } else {
        (a.get_char(j) as u32) < (b.get_char(j) as u32)
    }
}

/// `q` occurs in `s` as a contiguous run; the empty sequence occurs in
/// everything.
pub open spec fn has_substring(s: Seq<char>, q: Seq<char>) -> bool {
    exists|i: int|
        0 <= i <= s.len() - q.len() && #[trigger] s.subrange(i, i + q.len() as int) == q
}

fn match_at(s: &str, q: &str, i: usize) -> (r: bool)
    requires
        i + q@.len() <= s@.len(),
    ensures
        r == (s@.subrange(i as int, i as int + q@.len() as int) == q@),
{
    let n = s.unicode_len();
    let m = q.unicode_len();
    let ghost sub = s@.subrange(i as int, i as int + q@.len() as int);
    let mut j: usize = 0;
    while j < m
        invariant
            n == s@.len(),
            m == q@.len(),
            i + m <= n,
            sub == s@.subrange(i as int, i as int + m as int),
            0 <= j <= m,
            forall|k: int| 0 <= k < j ==> s@[i + k] == q@[k],
        decreases m - j,
    {
        if s.get_char(i + j) != q.get_char(j) {
            proof {
                assert(sub[j as int] == s@[i + j]);
                assert(sub[j as int] != q@[j as int]);
            }
            return false;
        }
        j += 1;
    }
    proof {
        assert forall|k: int| 0 <= k < m implies sub[k] == q@[k] by {
            assert(sub[k] == s@[i + k]);
        }
        assert(sub =~= q@);
    }
    true
}

/// Whether `q` occurs in `s` as a substring.
pub fn str_contains(s: &str, q: &str) -> (r: bool)
    ensures
        r == has_substring(s@, q@),
{
    let n = s.unicode_len();
    let m = q.unicode_len();
    if m > n {
        return false;
    }
    if m == 0 {
        proof {
            assert(s@.subrange(0, 0 + q@.len() as int) =~= q@);
            assert(has_substring(s@, q@));
        }
        return true;
    }
    let mut i: usize = 0;
    while i <= n - m
        invariant
            n == s@.len(),
            m == q@.len(),
            0 < m <= n,
            0 <= i <= n - m + 1,
            forall|t: int|
                0 <= t < i ==> #[trigger] s@.subrange(t, t + q@.len() as int) != q@,
        decreases n - i,
    {
        if match_at(s, q, i) {
            return true;
        }
        i += 1;
    }
    false
}

/// The query output line for one entry: `key :<tab>value`.
pub open spec fn line_of(k: Seq<char>, v: Seq<char>) -> Seq<char> {
    k + seq![' ', ':', '\t'] + v
}

/// Format one entry as a query output line.
pub fn format_line(k: &String, v: &String) -> (r: String)
    ensures
        r@ == line_of(k@, v@),
{
    let mut l = k.clone();
    l.append(" :\t");
    l.append(v.as_str());
    proof {
        reveal_strlit(" :\t");
        assert(" :\t"@ =~= seq![' ', ':', '\t']);
        assert(l@ =~= line_of(k@, v@));
    }
    l
}

/// The lines stand in non-decreasing lexicographic order.
pub open spec fn sorted_lines(ls: Seq<Seq<char>>) -> bool {
    forall|i: int, j: int| 0 <= i < j < ls.len() ==> lex_le(#[trigger] ls[i], #[trigger] ls[j])
}

/// The lines joined with a newline between each adjacent pair.
pub open spec fn join_lines(ls: Seq<Seq<char>>) -> Seq<char>
    decreases ls.len(),
{
    if ls.len() == 0 {
        Seq::empty()
    } else if ls.len() == 1 {
        ls[0]
    } else {
        join_lines(ls.drop_last()) + seq!['\n'] + ls.last()
    }
}

/// `ks` lists, without repetition, exactly the keys of `m` that contain
/// `q` as a substring.
pub open spec fn query_keys(
    m: Map<Seq<char>, Seq<char>>,
    q: Seq<char>,
    ks: Seq<Seq<char>>,
) -> bool {
    &&& ks.no_duplicates()
    &&& forall|t: int|
        0 <= t < ks.len() ==> m.contains_key(#[trigger] ks[t]) && has_substring(ks[t], q)
    &&& forall|k: Seq<char>| m.contains_key(k) && #[trigger] has_substring(k, q) ==> ks.contains(k)
}

/// The output lines for the keys `ks`, each with its value in `m`.
pub open spec fn lines_for_keys(m: Map<Seq<char>, Seq<char>>, ks: Seq<Seq<char>>) -> Seq<
    Seq<char>,
> {
    Seq::new(ks.len(), |t: int| line_of(ks[t], m[ks[t]]))
}

/// `out` is the query answer for `q` on table `m`: the lines of all
/// matching entries, in lexicographic order, joined with newlines.  The
/// key sequence is determined up to reordering of keys with equal lines,
/// which leaves the output itself unique.
pub open spec fn is_query_result(
    m: Map<Seq<char>, Seq<char>>,
    q: Seq<char>,
    out: Seq<char>,
) -> bool {
    exists|ks: Seq<Seq<char>>|
        {
            &&& #[trigger] query_keys(m, q, ks)
            &&& sorted_lines(lines_for_keys(m, ks))
            &&& out == join_lines(lines_for_keys(m, ks))
        }
}

/// Join formatted lines with newlines.
pub fn join_with_newlines(v: &Vec<String>) -> (r: String)
    ensures
        r@ == join_lines(v.deep_view()),
{
    let mut acc = String::new();
    let n = v.len();
    proof {
        assert(v.deep_view().subrange(0, 0) =~= Seq::<Seq<char>>::empty());
    }
    let mut i: usize = 0;
    while i < n
        invariant
            n == v@.len(),
            0 <= i <= n,
            acc@ == join_lines(v.deep_view().subrange(0, i as int)),
        decreases n - i,
    {
        if i > 0 {
            acc.append("\n");
        }
        let line = &v[i];
        acc.append(line.as_str());
        proof {
            reveal_strlit("\n");
            assert("\n"@ =~= seq!['\n']);
            let dv = v.deep_view();
            assert(dv[i as int] == v@[i as int]@);
            assert(dv.subrange(0, i + 1).drop_last() =~= dv.subrange(0, i as int));
            assert(dv.subrange(0, i + 1).last() == dv[i as int]);
            if i == 0 {
                assert(acc@ =~= dv.subrange(0, 1)[0]);
            } else {
                assert(acc@ =~= join_lines(dv.subrange(0, i as int)) + seq!['\n'] + dv[i as int]);
            }
        }
        i += 1;
    }
    proof {
        assert(v.deep_view().subrange(0, n as int) =~= v.deep_view());
    }
    acc
}

} // verus!
