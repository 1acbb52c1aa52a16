//! The resource manager: the shared table together with the load, merge,
//! set, add, remove and query semantics, and the decision of when a change
//! event is due.
//!
//! Every mutating operation reports in its result whether it changed the
//! visible table; the caller publishes exactly one change notification when
//! it did and none when it did not.  File reading, the external
//! preprocessor and the bus live outside this module and exchange plain
//! strings with it.

use vstd::prelude::*;

use crate::parse::{find_char_spec, lemma_find_char_bounds, parse_config_text, parse_spec};
use crate::query::{
    format_line, has_substring, is_query_result, join_lines, join_with_newlines, lemma_lex_total,
    lemma_lex_trans, lex_le, line_of, lines_for_keys, query_keys, sorted_lines, str_contains,
    str_lex_le,
};
use crate::store::{kv_map, lemma_kv_map_facts, StringMap};
use crate::text::{is_valid_key, trim_spec, trim_str, valid_key_str};

verus! {

/// Startup configuration for the daemon, consumed at construction.
///
/// `set_resource` and `add_resource` deliberately skip the key validation
/// that file parsing enforces: programmatic callers are trusted.
pub struct CliArgs {
    /// Bootstrap file named by the load option.
    pub load: Option<String>,
    /// Bootstrap file named positionally; used when `load` is absent.
    pub filename: Option<String>,
    /// Preprocessor executable chosen on the command line.
    pub cpp: Option<String>,
    /// Skip preprocessing and read config files raw.
    pub nocpp: bool,
    /// Configured fallback preprocessor executable, used when `cpp` is
    /// absent.
    pub default_cpp: String,
}

fn clone_opt_string(o: &Option<String>) -> (r: Option<String>)
    ensures
        r == *o,
{
    match o {
        Some(s) => Some(s.clone()),
        None => None,
    }
}

impl CliArgs {
    /// An equal copy.
    pub fn duplicate(&self) -> (r: CliArgs)
        ensures
            r == *self,
    {
        CliArgs {
            load: clone_opt_string(&self.load),
            filename: clone_opt_string(&self.filename),
            cpp: clone_opt_string(&self.cpp),
            nocpp: self.nocpp,
            default_cpp: self.default_cpp.clone(),
        }
    }
}

/// An argument string split naively at every single space, empty tokens
/// kept.  Quoting is not supported: an argument containing a space cannot
/// be passed as one token.
pub open spec fn split_spaces_spec(s: Seq<char>) -> Seq<Seq<char>>
    decreases s.len(),
    via split_spaces_spec_dec
{
    let i = find_char_spec(s, ' ');
    if i == s.len() {
        seq![s]
    } else {
        seq![s.subrange(0, i)] + split_spaces_spec(s.subrange(i + 1, s.len() as int))
    }
}

#[via_fn]
proof fn split_spaces_spec_dec(s: Seq<char>) {
    lemma_find_char_bounds(s, ' ');
}

/// The argument list handed to the preprocessor for a configured argument
/// string: nothing when the string is all whitespace, else the string
/// split at spaces.
pub open spec fn cpp_args_spec(s: Seq<char>) -> Seq<Seq<char>> {
    if trim_spec(s).len() == 0 {
        Seq::empty()
    } else {
        split_spaces_spec(s)
    }
}

/// Split a preprocessor argument string into the tokens to pass before
/// the file path.
pub fn split_cpp_args(cpp_args: &str) -> (r: Vec<String>)
    ensures
        r.deep_view() == cpp_args_spec(cpp_args@),
{
    let t = trim_str(cpp_args);
    if t.unicode_len() == 0 {
        let r: Vec<String> = Vec::new();
        proof {
            assert(r.deep_view() =~= Seq::<Seq<char>>::empty());
        }
        return r;
    }
    let n = cpp_args.unicode_len();
    let mut r: Vec<String> = Vec::new();
    proof {
        assert(cpp_args@.subrange(0, n as int) =~= cpp_args@);
    }
    let mut pos: usize = 0;
    loop
        invariant_except_break
            n == cpp_args@.len(),
            0 <= pos <= n,
            trim_spec(cpp_args@).len() != 0,
            r.deep_view() + split_spaces_spec(cpp_args@.subrange(pos as int, n as int))
                == split_spaces_spec(cpp_args@),
        ensures
            r.deep_view() == cpp_args_spec(cpp_args@),
        decreases n - pos,
    {
        let mut k: usize = pos;
        while k < n && cpp_args.get_char(k) != ' '
            invariant
                n == cpp_args@.len(),
                pos <= k <= n,
                forall|u: int| pos <= u < k ==> cpp_args@[u] != ' ',
            decreases n - k,
        {
            k += 1;
        }
        let piece = cpp_args.substring_char(pos, k);
        let ghost r_before = r.deep_view();
        r.push(piece.to_owned());
        proof {
            assert(r.deep_view() =~= r_before.push(piece@));
            let tail = cpp_args@.subrange(pos as int, n as int);
            assert forall|u: int| 0 <= u < k - pos implies tail[u] != ' ' by {
                assert(tail[u] == cpp_args@[pos + u]);
            }
            if k < n {
                assert(tail[k - pos] == cpp_args@[k as int]);
            }
            crate::parse::lemma_find_char_at(tail, ' ', k - pos);
            if k == n {
                assert(piece@ == tail);
                assert(split_spaces_spec(tail) == seq![tail]);
                assert(r_before.push(piece@) =~= r_before + seq![tail]);
            } else {
                assert(piece@ == tail.subrange(0, k - pos));
                assert(tail.subrange(k - pos + 1, tail.len() as int) =~= cpp_args@.subrange(
                    k + 1,
                    n as int,
                ));
                assert(split_spaces_spec(tail) == seq![piece@] + split_spaces_spec(
                    cpp_args@.subrange(k + 1, n as int),
                ));
                assert(r_before.push(piece@) + split_spaces_spec(cpp_args@.subrange(k + 1, n as int))
                    =~= r_before + split_spaces_spec(tail));
            }
        }
        if k < n {
            pos = k + 1;
        } else {
            break ;
        }
    }
    r
}

/// The table after loading parsed entries `p`: a parsed entry is taken
/// only for a key the table does not already hold.
pub open spec fn spec_load(
    m: Map<Seq<char>, Seq<char>>,
    p: Map<Seq<char>, Seq<char>>,
) -> Map<Seq<char>, Seq<char>> {
    p.union_prefer_right(m)
}

/// Whether loading `p` changes the table: some parsed key is new.
pub open spec fn load_changes(m: Map<Seq<char>, Seq<char>>, p: Map<Seq<char>, Seq<char>>) -> bool {
    exists|k: Seq<char>| #[trigger] p.contains_key(k) && !m.contains_key(k)
}

/// The table after merging parsed entries `p`: every parsed entry is
/// taken, overwriting an existing value.
pub open spec fn spec_merge(
    m: Map<Seq<char>, Seq<char>>,
    p: Map<Seq<char>, Seq<char>>,
) -> Map<Seq<char>, Seq<char>> {
    m.union_prefer_right(p)
}

/// Whether merging `p` writes at all: some entry was parsed.  A merge
/// writes its entries unconditionally, so equal values still count.
pub open spec fn merge_changes(p: Map<Seq<char>, Seq<char>>) -> bool {
    p != Map::<Seq<char>, Seq<char>>::empty()
}

/// The table after `set_resource` with trimmed key `k` and value `v`.
pub open spec fn spec_set(
    m: Map<Seq<char>, Seq<char>>,
    k: Seq<char>,
    v: Seq<char>,
) -> Map<Seq<char>, Seq<char>> {
    if m.contains_key(k) && m[k] == v {
        m
    } else {
        m.insert(k, v)
    }
}

/// Whether `set_resource` changes the table: the key is absent or holds a
/// different value.
pub open spec fn set_changes(m: Map<Seq<char>, Seq<char>>, k: Seq<char>, v: Seq<char>) -> bool {
    !(m.contains_key(k) && m[k] == v)
}

/// The table after `add_resource` with trimmed key `k` and value `v`.
pub open spec fn spec_add(
    m: Map<Seq<char>, Seq<char>>,
    k: Seq<char>,
    v: Seq<char>,
) -> Map<Seq<char>, Seq<char>> {
    if m.contains_key(k) {
        m
    } else {
        m.insert(k, v)
    }
}

/// Whether `add_resource` changes the table: the key is absent.
pub open spec fn add_changes(m: Map<Seq<char>, Seq<char>>, k: Seq<char>) -> bool {
    !m.contains_key(k)
}

/// Stores and manages the resources.
pub struct ResourceManager {
    resources: StringMap,
    preprocessor: String,
    args: CliArgs,
}

impl ResourceManager {
    /// The table of resources, as a map from key to value.
    pub closed spec fn table(&self) -> Map<Seq<char>, Seq<char>> {
        self.resources@
    }

    /// The preprocessor executable the manager settled on.
    pub closed spec fn spec_preprocessor(&self) -> Seq<char> {
        self.preprocessor@
    }

    /// The startup configuration the manager was built from.
    pub closed spec fn spec_args(&self) -> CliArgs {
        self.args
    }

    /// Create a new ResourceManager object from CliArgs.
    pub fn from_args(args: &CliArgs) -> (r: ResourceManager)
        ensures
            r.table() == Map::<Seq<char>, Seq<char>>::empty(),
            r.spec_args() == *args,
            r.spec_preprocessor() == (match args.cpp {
                Some(cmd) => cmd@,
                None => args.default_cpp@,
            }),
    {
        let command = match &args.cpp {
            Some(cmd) => cmd.clone(),
            None => args.default_cpp.clone(),
        };
        ResourceManager { resources: StringMap::new(), preprocessor: command, args: args.duplicate() }
    }

    /// The bootstrap file the startup configuration asks to load, if any:
    /// the load option, else the positional filename.  The caller reads
    /// that file (through the preprocessor unless `nocpp` is set) and
    /// hands the text to `load_from_str`.
    pub fn init(&self) -> (r: Option<String>)
        ensures
            r == (match self.spec_args().load {
                Some(f) => Some(f),
                None => self.spec_args().filename,
            }),
    {
        match &self.args.load {
            Some(f) => Some(f.clone()),
            None => clone_opt_string(&self.args.filename),
        }
    }

    /// Whether a key may enter the table through file parsing.
    pub fn check_valid_key(&self, key: &str) -> (r: bool)
        ensures
            r == is_valid_key(key@),
    {
        valid_key_str(key)
    }

    /// Parse config text into key/value entries.
    pub fn parse_config(&self, config_str: &str) -> (r: StringMap)
        ensures
            r@ == parse_spec(config_str@),
    {
        parse_config_text(config_str)
    }

    /// Load entries parsed from preprocessed config text; a key already in
    /// the table keeps its value.  Reports whether the table changed.
    pub fn load_from_str(&mut self, config_str: &str) -> (changed: bool)
        ensures
            final(self).table() == spec_load(old(self).table(), parse_spec(config_str@)),
            changed == load_changes(old(self).table(), parse_spec(config_str@)),
            final(self).spec_preprocessor() == old(self).spec_preprocessor(),
            final(self).spec_args() == old(self).spec_args(),
    {
        let parsed = parse_config_text(config_str);
        let ghost p = parsed@;
        let ghost m0 = self.table();
        proof {
            parsed.lemma_view_is_kv_map();
            lemma_kv_map_facts(parsed.kv_seq());
            assert(parsed.kv_seq().subrange(0, 0) =~= Seq::<(Seq<char>, Seq<char>)>::empty());
        }
        let n = parsed.num_entries();
        let mut changed = false;
        let mut i: usize = 0;
        while i < n
            invariant
                n == parsed.kv_seq().len(),
                p == kv_map(parsed.kv_seq()),
                0 <= i <= n,
                m0 == old(self).table(),
                self.table() == kv_map(parsed.kv_seq().subrange(0, i as int)).union_prefer_right(
                    m0,
                ),
                changed == exists|t: int|
                    0 <= t < i && !m0.contains_key((#[trigger] parsed.kv_seq()[t]).0),
                self.preprocessor == old(self).preprocessor,
                self.args == old(self).args,
            decreases n - i,
        {
            let ghost pre = parsed.kv_seq().subrange(0, i as int);
            let e = parsed.entry_at(i);
            let k = e.0.clone();
            let v = e.1.clone();
            let absent = match self.resources.get(k.as_str()) {
                Some(_) => false,
                None => true,
            };
            proof {
                lemma_kv_map_facts(pre);
                if kv_map(pre).contains_key(k@) {
                    let t = choose|t: int| 0 <= t < pre.len() && (#[trigger] pre[t]).0 == k@;
                    assert(pre[t] == parsed.kv_seq()[t]);
                    assert(false);
                }
            }
            if absent {
                self.resources.insert(k, v);
                changed = true;
            }
            proof {
                let pre1 = parsed.kv_seq().subrange(0, i + 1);
                assert(pre1.drop_last() =~= pre);
                assert(pre1.last() == parsed.kv_seq()[i as int]);
                assert(kv_map(pre1) == kv_map(pre).insert(
                    parsed.kv_seq()[i as int].0,
                    parsed.kv_seq()[i as int].1,
                ));
                if absent {
                    assert(!m0.contains_key(k@));
                    assert(kv_map(pre1).union_prefer_right(m0) =~= kv_map(pre).union_prefer_right(
                        m0,
                    ).insert(k@, v@));
                    assert(!m0.contains_key((parsed.kv_seq()[i as int]).0));
                } else {
                    assert(m0.contains_key(k@));
                    assert(kv_map(pre1).union_prefer_right(m0) =~= kv_map(pre).union_prefer_right(
                        m0,
                    ));
                    assert forall|t: int|
                        0 <= t < i + 1 && !m0.contains_key(
                            (#[trigger] parsed.kv_seq()[t]).0,
                        ) implies exists|u: int|
                        0 <= u < i && !m0.contains_key((#[trigger] parsed.kv_seq()[u]).0) by {
                        assert(t != i);
                    }
                }
            }
            i += 1;
        }
        proof {
            assert(parsed.kv_seq().subrange(0, n as int) =~= parsed.kv_seq());
            if changed {
                let t = choose|t: int|
                    0 <= t < n && !m0.contains_key((#[trigger] parsed.kv_seq()[t]).0);
                assert(p.contains_key(parsed.kv_seq()[t].0));
                assert(load_changes(m0, p));
            } else {
                if load_changes(m0, p) {
                    let k = choose|k: Seq<char>| #[trigger] p.contains_key(k) && !m0.contains_key(
                        k,
                    );
                    let t = choose|t: int|
                        0 <= t < parsed.kv_seq().len() && (#[trigger] parsed.kv_seq()[t]).0 == k;
                    assert(false);
                }
            }
        }
        changed
    }

    /// Merge entries parsed from preprocessed config text; every parsed
    /// entry is written, overwriting an existing value.  Reports whether
    /// anything was written, which is whether any entry was parsed.
    pub fn merge_from_str(&mut self, config_str: &str) -> (changed: bool)
        ensures
            final(self).table() == spec_merge(old(self).table(), parse_spec(config_str@)),
            changed == merge_changes(parse_spec(config_str@)),
            final(self).spec_preprocessor() == old(self).spec_preprocessor(),
            final(self).spec_args() == old(self).spec_args(),
    {
        let parsed = parse_config_text(config_str);
        let ghost p = parsed@;
        let ghost m0 = self.table();
        proof {
            parsed.lemma_view_is_kv_map();
            lemma_kv_map_facts(parsed.kv_seq());
            assert(parsed.kv_seq().subrange(0, 0) =~= Seq::<(Seq<char>, Seq<char>)>::empty());
            assert(m0.union_prefer_right(kv_map(parsed.kv_seq().subrange(0, 0))) =~= m0);
        }
        let n = parsed.num_entries();
        let mut i: usize = 0;
        while i < n
            invariant
                n == parsed.kv_seq().len(),
                p == kv_map(parsed.kv_seq()),
                0 <= i <= n,
                m0 == old(self).table(),
                self.table() == m0.union_prefer_right(
                    kv_map(parsed.kv_seq().subrange(0, i as int)),
                ),
                self.preprocessor == old(self).preprocessor,
                self.args == old(self).args,
            decreases n - i,
        {
            let ghost pre = parsed.kv_seq().subrange(0, i as int);
            let e = parsed.entry_at(i);
            let k = e.0.clone();
            let v = e.1.clone();
            self.resources.insert(k, v);
            proof {
                let pre1 = parsed.kv_seq().subrange(0, i + 1);
                assert(pre1.drop_last() =~= pre);
                assert(pre1.last() == parsed.kv_seq()[i as int]);
                assert(kv_map(pre1) == kv_map(pre).insert(
                    parsed.kv_seq()[i as int].0,
                    parsed.kv_seq()[i as int].1,
                ));
                assert(m0.union_prefer_right(kv_map(pre1)) =~= m0.union_prefer_right(
                    kv_map(pre),
                ).insert(k@, v@));
            }
            i += 1;
        }
        proof {
            assert(parsed.kv_seq().subrange(0, n as int) =~= parsed.kv_seq());
            if n == 0 {
                assert(p =~= Map::<Seq<char>, Seq<char>>::empty());
            } else {
                assert(p.contains_key(parsed.kv_seq()[0].0));
                assert(!Map::<Seq<char>, Seq<char>>::empty().contains_key(
                    parsed.kv_seq()[0].0,
                ));
            }
        }
        n > 0
    }

    /// All entries whose key contains the trimmed query as a substring,
    /// each formatted as `key :<tab>value`, sorted lexicographically and
    /// joined with newlines.  Never mutates; an empty query matches every
    /// entry.
    pub fn query(&self, q: &str) -> (r: String)
        ensures
            is_query_result(self.table(), trim_spec(q@), r@),
    {
        let qt = trim_str(q);
        let n = self.resources.num_entries();
        let mut lines: Vec<String> = Vec::new();
        let ghost mut ks: Seq<Seq<char>> = Seq::empty();
        proof {
            self.resources.lemma_view_is_kv_map();
        }
        let mut i: usize = 0;
        while i < n
            invariant
                n == self.resources.kv_seq().len(),
                self.table() == kv_map(self.resources.kv_seq()),
                0 <= i <= n,
                qt@ == trim_spec(q@),
                ks.len() == lines.deep_view().len(),
                forall|t: int|
                    0 <= t < ks.len() ==> lines.deep_view()[t] == line_of(
                        #[trigger] ks[t],
                        self.table()[ks[t]],
                    ),
                forall|t: int|
                    0 <= t < ks.len() ==> self.table().contains_key(#[trigger] ks[t])
                        && has_substring(ks[t], qt@),
                forall|t: int| #![trigger ks[t]]
                    0 <= t < ks.len() ==> exists|j: int|
                        0 <= j < i && (#[trigger] self.resources.kv_seq()[j]).0 == ks[t],
                ks.no_duplicates(),
                forall|j: int|
                    0 <= j < i && has_substring((#[trigger] self.resources.kv_seq()[j]).0, qt@)
                        ==> ks.contains(self.resources.kv_seq()[j].0),
                sorted_lines(lines.deep_view()),
            decreases n - i,
        {
            let e = self.resources.entry_at(i);
            if str_contains(e.0.as_str(), qt.as_str()) {
                let lnew = format_line(&e.0, &e.1);
                let nl = lines.len();
                let mut t: usize = 0;
                while t < nl && !str_lex_le(lnew.as_str(), lines[t].as_str())
                    invariant
                        nl == lines.deep_view().len(),
                        0 <= t <= nl,
                        forall|u: int| 0 <= u < t ==> !lex_le(lnew@, lines.deep_view()[u]),
                    decreases nl - t,
                {
                    proof {
                        assert(lines.deep_view()[t as int] == lines@[t as int]@);
                    }
                    t += 1;
                }
                proof {
                    if t < nl {
                        assert(lines.deep_view()[t as int] == lines@[t as int]@);
                    }
                }
                let ghost dvo = lines.deep_view();
                let ghost kso = ks;
                let ghost knew = e.0@;
                let ghost m = self.table();
                lines.insert(t, lnew);
                proof {
                    ks = kso.insert(t as int, knew);
                    kso.insert_ensures(t as int, knew);
                    dvo.insert_ensures(t as int, lnew@);
                    assert forall|u: int| 0 <= u < lines@.len() implies lines.deep_view()[u]
                        == lines@[u]@ by {}
                    assert(lines.deep_view() =~= dvo.insert(t as int, lnew@));
                    let dv = lines.deep_view();
                    // the new key is not among the old ones
                    assert forall|u: int| 0 <= u < kso.len() implies kso[u] != knew by {
                        let j = choose|j: int|
                            0 <= j < i && (#[trigger] self.resources.kv_seq()[j]).0 == kso[u];
                        assert(self.resources.kv_seq()[j].0 != knew);
                    }
                    // distinctness survives the insert
                    assert forall|p: int, q2: int| 0 <= p < q2 < ks.len() implies ks[p]
                        != ks[q2] by {
                        let p0 = if p < t { p } else { p - 1 };
                        let q0 = if q2 < t { q2 } else { q2 - 1 };
                        if p == t {
                            assert(ks[q2] == kso[q0]);
                        } else if q2 == t {
                            assert(ks[p] == kso[p0]);
                        } else {
                            assert(ks[p] == kso[p0]);
                            assert(ks[q2] == kso[q0]);
                        }
                    }
                    assert(ks.no_duplicates());
                    // every old key is still listed
                    assert forall|x: Seq<char>| kso.contains(x) implies ks.contains(x) by {
                        let u = choose|u: int| 0 <= u < kso.len() && kso[u] == x;
                        if u < t {
                            assert(ks[u] == x);
                        } else {
                            assert(ks[u + 1] == x);
                        }
                    }
                    assert(ks[t as int] == knew);
                    assert(ks.contains(knew));
                    // the line list stays parallel to the key list
                    assert forall|u: int| 0 <= u < ks.len() implies dv[u] == line_of(
                        #[trigger] ks[u],
                        m[ks[u]],
                    ) && m.contains_key(ks[u]) && has_substring(ks[u], qt@) by {
                        if u < t {
                            assert(ks[u] == kso[u]);
                            assert(dv[u] == dvo[u]);
                        } else if u == t {
                            assert(dv[u] == lnew@);
                        } else {
                            assert(ks[u] == kso[u - 1]);
                            assert(dv[u] == dvo[u - 1]);
                        }
                    }
                    // each listed key comes from a scanned entry
                    assert forall|u: int| #![trigger ks[u]] 0 <= u < ks.len() implies exists|
                        j: int,
                    |
                        0 <= j < i + 1 && (#[trigger] self.resources.kv_seq()[j]).0 == ks[u] by {
                        if u == t {
                            assert((self.resources.kv_seq()[i as int]).0 == ks[u]);
                        } else {
                            let u0 = if u < t { u } else { u - 1 };
                            assert(ks[u] == kso[u0]);
                            let j = choose|j: int|
                                0 <= j < i && (#[trigger] self.resources.kv_seq()[j]).0 == kso[u0];
                            assert((self.resources.kv_seq()[j]).0 == ks[u]);
                        }
                    }
                    // order is kept
                    assert forall|a: int, b: int| 0 <= a < b < dv.len() implies lex_le(
                        #[trigger] dv[a],
                        #[trigger] dv[b],
                    ) by {
                        if b < t {
                            assert(dv[a] == dvo[a]);
                            assert(dv[b] == dvo[b]);
                        } else if a < t && b == t {
                            assert(dv[a] == dvo[a]);
                            lemma_lex_total(lnew@, dvo[a]);
                        } else if a == t {
                            assert(dv[b] == dvo[b - 1]);
                            assert(lex_le(lnew@, dvo[t as int]));
                            if b - 1 > t {
                                lemma_lex_trans(lnew@, dvo[t as int], dvo[b - 1]);
                            }
                        } else if a < t {
                            assert(dv[a] == dvo[a]);
                            assert(dv[b] == dvo[b - 1]);
                        } else {
                            assert(dv[a] == dvo[a - 1]);
                            assert(dv[b] == dvo[b - 1]);
                        }
                    }
                    assert(sorted_lines(dv));
                }
            }
            proof {
                if !has_substring(e.0@, qt@) {
                    assert forall|j: int|
                        0 <= j < i + 1 && has_substring(
                            (#[trigger] self.resources.kv_seq()[j]).0,
                            qt@,
                        ) implies ks.contains(self.resources.kv_seq()[j].0) by {
                        assert(j != i);
                    }
                }
            }
            i += 1;
        }
        let r = join_with_newlines(&lines);
        proof {
            let m = self.table();
            lemma_kv_map_facts(self.resources.kv_seq());
            assert forall|k: Seq<char>| m.contains_key(k) && #[trigger] has_substring(k, qt@)
                implies ks.contains(k) by {
                let j = choose|j: int|
                    0 <= j < self.resources.kv_seq().len()
                        && (#[trigger] self.resources.kv_seq()[j]).0 == k;
                assert(ks.contains(self.resources.kv_seq()[j].0));
            }
            assert(query_keys(m, trim_spec(q@), ks));
            assert(lines.deep_view() =~= lines_for_keys(m, ks));
            assert(sorted_lines(lines_for_keys(m, ks)));
            assert(r@ == join_lines(lines_for_keys(m, ks)));
            assert(is_query_result(m, trim_spec(q@), r@));
        }
        r
    }

    /// Get the resource value; a missing key reads as the empty string.
    pub fn get_resource(&self, key: &str) -> (r: String)
        ensures
            self.table().contains_key(trim_spec(key@)) ==> r@ == self.table()[trim_spec(key@)],
            !self.table().contains_key(trim_spec(key@)) ==> r@ == Seq::<char>::empty(),
    {
        let kt = trim_str(key);
        match self.resources.get(kt.as_str()) {
            Some(v) => v.clone(),
            None => String::new(),
        }
    }

    /// Set the value of a resource, overwriting an existing value; a write
    /// of the value the key already holds is a no-op.  Key and value are
    /// trimmed; the key is not revalidated on this programmatic path.
    /// Reports whether the table changed, which is when one change event
    /// is due.
    pub fn set_resource(&mut self, key: String, val: String) -> (changed: bool)
        ensures
            final(self).table() == spec_set(old(self).table(), trim_spec(key@), trim_spec(val@)),
            changed == set_changes(old(self).table(), trim_spec(key@), trim_spec(val@)),
            final(self).spec_preprocessor() == old(self).spec_preprocessor(),
            final(self).spec_args() == old(self).spec_args(),
    {
        let kt = trim_str(key.as_str());
        let vt = trim_str(val.as_str());
        let same = match self.resources.get(kt.as_str()) {
            Some(cur) => crate::text::str_eq(cur.as_str(), vt.as_str()),
            None => false,
        };
        if same {
            return false;
        }
        self.resources.insert(kt, vt);
        true
    }

    /// Add a new resource; a key already present keeps its value, whatever
    /// it is.  Key and value are trimmed; the key is not revalidated on
    /// this programmatic path.  Reports whether the table changed, which
    /// is when one change event is due.
    pub fn add_resource(&mut self, key: String, val: String) -> (changed: bool)
        ensures
            final(self).table() == spec_add(old(self).table(), trim_spec(key@), trim_spec(val@)),
            changed == add_changes(old(self).table(), trim_spec(key@)),
            final(self).spec_preprocessor() == old(self).spec_preprocessor(),
            final(self).spec_args() == old(self).spec_args(),
    {
        let kt = trim_str(key.as_str());
        let vt = trim_str(val.as_str());
        let present = match self.resources.get(kt.as_str()) {
            Some(_) => true,
            None => false,
        };
        if present {
            return false;
        }
        self.resources.insert(kt, vt);
        true
    }

    /// Remove every resource.
    pub fn handle_remove_all(&mut self)
        ensures
            final(self).table() == Map::<Seq<char>, Seq<char>>::empty(),
            final(self).spec_preprocessor() == old(self).spec_preprocessor(),
            final(self).spec_args() == old(self).spec_args(),
    {
        self.resources.clear();
    }

    /// Remove a single resource under the exact key given; hand back the
    /// removed pair if the key was present.
    pub fn handle_remove_one(&mut self, key: &str) -> (r: Option<(String, String)>)
        ensures
            match r {
                Some(pair) => {
                    &&& old(self).table().contains_key(key@)
                    &&& pair.0@ == key@
                    &&& pair.1@ == old(self).table()[key@]
                    &&& final(self).table() == old(self).table().remove(key@)
                },
                None => {
                    &&& !old(self).table().contains_key(key@)
                    &&& final(self).table() == old(self).table()
                },
            },
            final(self).spec_preprocessor() == old(self).spec_preprocessor(),
            final(self).spec_args() == old(self).spec_args(),
    {
        self.resources.remove(key)
    }

    /// Remove every resource; report whether the table changed, which is
    /// when one change event is due: only a non-empty table raises one.
    pub fn remove_all(&mut self) -> (changed: bool)
        ensures
            final(self).table() == Map::<Seq<char>, Seq<char>>::empty(),
            changed == (old(self).table() != Map::<Seq<char>, Seq<char>>::empty()),
            final(self).spec_preprocessor() == old(self).spec_preprocessor(),
            final(self).spec_args() == old(self).spec_args(),
    {
        let was_empty = self.resources.is_empty();
        self.handle_remove_all();
        !was_empty
    }

    /// Remove the resource under the trimmed key; hand back the removed
    /// pair if the key was present, which is exactly when one change event
    /// is due.
    pub fn remove_one(&mut self, key: &str) -> (r: Option<(String, String)>)
        ensures
            match r {
                Some(pair) => {
                    &&& old(self).table().contains_key(trim_spec(key@))
                    &&& pair.0@ == trim_spec(key@)
                    &&& pair.1@ == old(self).table()[trim_spec(key@)]
                    &&& final(self).table() == old(self).table().remove(trim_spec(key@))
                },
                None => {
                    &&& !old(self).table().contains_key(trim_spec(key@))
                    &&& final(self).table() == old(self).table()
                },
            },
            final(self).spec_preprocessor() == old(self).spec_preprocessor(),
            final(self).spec_args() == old(self).spec_args(),
    {
        let kt = trim_str(key);
        self.handle_remove_one(kt.as_str())
    }

    /// A snapshot of the whole table.
    pub fn resources(&self) -> (r: StringMap)
        ensures
            r@ == self.table(),
    {
        let n = self.resources.num_entries();
        let mut out = StringMap::new();
        proof {
            self.resources.lemma_view_is_kv_map();
            assert(self.resources.kv_seq().subrange(0, 0) =~= Seq::<(
                Seq<char>,
                Seq<char>,
            )>::empty());
        }
        let mut i: usize = 0;
        while i < n
            invariant
                n == self.resources.kv_seq().len(),
                0 <= i <= n,
                out@ == kv_map(self.resources.kv_seq().subrange(0, i as int)),
            decreases n - i,
        {
            let e = self.resources.entry_at(i);
            out.insert(e.0.clone(), e.1.clone());
            proof {
                let kvs = self.resources.kv_seq();
                let pre1 = kvs.subrange(0, i + 1);
                assert(pre1.drop_last() =~= kvs.subrange(0, i as int));
                assert(pre1.last() == kvs[i as int]);
            }
            i += 1;
        }
        proof {
            assert(self.resources.kv_seq().subrange(0, n as int) =~= self.resources.kv_seq());
            self.resources.lemma_view_is_kv_map();
        }
        out
    }

    /// The preprocessor executable to run config files through.
    pub fn preprocessor_path(&self) -> (r: &String)
        ensures
            r@ == self.spec_preprocessor(),
    {
        &self.preprocessor
    }

    /// The startup configuration the manager was built from.
    pub fn cli_args(&self) -> (r: &CliArgs)
        ensures
            *r == self.spec_args(),
    {
        &self.args
    }
}

/// Loading a text and then loading it again gives the table a single load
/// gives: a load never overwrites, so the second pass finds nothing new.
pub proof fn lemma_load_idempotent(m: Map<Seq<char>, Seq<char>>, t: Seq<char>)
    ensures
        spec_load(spec_load(m, parse_spec(t)), parse_spec(t)) == spec_load(m, parse_spec(t)),
{
    let p = parse_spec(t);
    assert(spec_load(spec_load(m, p), p) =~= spec_load(m, p));
}

/// Merging a text and then merging it again gives the table a single
/// merge gives: the second pass overwrites every entry with the value it
/// already has.  It still counts as a write, so it may still raise an
/// event; the value-equality suppression belongs to `set_resource` only.
pub proof fn lemma_merge_idempotent(m: Map<Seq<char>, Seq<char>>, t: Seq<char>)
    ensures
        spec_merge(spec_merge(m, parse_spec(t)), parse_spec(t)) == spec_merge(m, parse_spec(t)),
{
    let p = parse_spec(t);
    assert(spec_merge(spec_merge(m, p), p) =~= spec_merge(m, p));
}

/// An add never overwrites: a second add under the same key is a no-op,
/// and when the key was fresh the first value is the one that stays.
pub proof fn lemma_add_keeps_first(
    m: Map<Seq<char>, Seq<char>>,
    k: Seq<char>,
    v1: Seq<char>,
    v2: Seq<char>,
)
    ensures
        spec_add(spec_add(m, k, v1), k, v2) == spec_add(m, k, v1),
        !m.contains_key(k) ==> spec_add(m, k, v1)[k] == v1,
{
}

/// Setting a key to a value and then setting it to the same value again
/// raises exactly one change event: the first call changes the table, the
/// second finds the value already there and raises none.
pub proof fn lemma_set_twice_one_event(m: Map<Seq<char>, Seq<char>>, k: Seq<char>, v: Seq<char>)
    requires
        set_changes(m, k, v),
    ensures
        !set_changes(spec_set(m, k, v), k, v),
        spec_set(spec_set(m, k, v), k, v) == spec_set(m, k, v),
{
}

/// File parsing only ever yields valid keys, so no load or merge can put
/// an invalid key into the table.
pub proof fn lemma_parse_keys_valid(t: Seq<char>)
    ensures
        forall|k: Seq<char>| #[trigger] parse_spec(t).contains_key(k) ==> is_valid_key(k),
{
    lemma_parse_entries_keys_valid(crate::parse::split_lines_spec(t));
}

proof fn lemma_parse_entries_keys_valid(lines: Seq<Seq<char>>)
    ensures
        forall|k: Seq<char>| #[trigger] crate::parse::parse_entries(lines).contains_key(k)
            ==> is_valid_key(k),
    decreases lines.len(),
{
    if lines.len() > 0 {
        let pre = lines.drop_last();
        lemma_parse_entries_keys_valid(pre);
        assert forall|k: Seq<char>| #[trigger] crate::parse::parse_entries(lines).contains_key(
            k,
        ) implies is_valid_key(k) by {
            match crate::parse::parse_line_spec(lines.last()) {
                Some(kv) => {
                    if k != kv.0 {
                        assert(crate::parse::parse_entries(pre).contains_key(k));
                    } else {
                        assert(is_valid_key(kv.0));
                    }
                },
                None => {
                    assert(crate::parse::parse_entries(pre).contains_key(k));
                },
            }
        }
    }
}

} // verus!
