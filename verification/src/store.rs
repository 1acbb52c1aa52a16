//! The resource table: a string-keyed map with a `Map<Seq<char>, Seq<char>>`
//! view, backed by a vector of key/value pairs with pairwise distinct keys.

use vstd::prelude::*;

verus! {

/// The map described by a sequence of key/value pairs: the pairs are
/// inserted in order, so a later pair with the same key wins.
pub open spec fn kv_map(kvs: Seq<(Seq<char>, Seq<char>)>) -> Map<Seq<char>, Seq<char>>
    decreases kvs.len(),
{
    if kvs.len() == 0 {
        Map::empty()
    } else {
        kv_map(kvs.drop_last()).insert(kvs.last().0, kvs.last().1)
    }
}

/// No two pairs of the sequence share a key.
pub open spec fn unique_keys(kvs: Seq<(Seq<char>, Seq<char>)>) -> bool {
    forall|i: int, j: int| 0 <= i < j < kvs.len() ==> (#[trigger] kvs[i]).0 != (#[trigger] kvs[j]).0
}

/// The keys of `kv_map(kvs)` are exactly the keys of the pairs, and under
/// `unique_keys` each key maps to its pair's value.
pub proof fn lemma_kv_map_facts(kvs: Seq<(Seq<char>, Seq<char>)>)
    ensures
        forall|k: Seq<char>| #[trigger]
            kv_map(kvs).contains_key(k) ==> exists|i: int|
                0 <= i < kvs.len() && (#[trigger] kvs[i]).0 == k,
        forall|i: int|
            0 <= i < kvs.len() ==> kv_map(kvs).contains_key((#[trigger] kvs[i]).0),
        unique_keys(kvs) ==> forall|i: int|
            0 <= i < kvs.len() ==> kv_map(kvs)[(#[trigger] kvs[i]).0] == kvs[i].1,
    decreases kvs.len(),
{
    if kvs.len() == 0 {
    } else {
        let pre = kvs.drop_last();
        lemma_kv_map_facts(pre);
        assert(kv_map(kvs) == kv_map(pre).insert(kvs.last().0, kvs.last().1));
        assert forall|k: Seq<char>| #[trigger] kv_map(kvs).contains_key(k) implies exists|i: int|
            0 <= i < kvs.len() && (#[trigger] kvs[i]).0 == k by {
            if k == kvs.last().0 {
                assert((kvs[kvs.len() - 1]).0 == k);
            } else {
                assert(kv_map(pre).contains_key(k));
                let i = choose|i: int| 0 <= i < pre.len() && (#[trigger] pre[i]).0 == k;
                assert(pre[i] == kvs[i]);
                assert((kvs[i]).0 == k);
            }
        }
        assert forall|i: int| 0 <= i < kvs.len() implies kv_map(kvs).contains_key(
            (#[trigger] kvs[i]).0,
        ) by {
            if i < kvs.len() - 1 {
                assert(pre[i] == kvs[i]);
                assert(kv_map(pre).contains_key(pre[i].0));
            } else {
                assert(kvs[i].0 == kvs.last().0);
            }
        }
        if unique_keys(kvs) {
            assert forall|a: int, b: int| 0 <= a < b < pre.len() implies (#[trigger] pre[a]).0
                != (#[trigger] pre[b]).0 by {
                assert(pre[a] == kvs[a]);
                assert(pre[b] == kvs[b]);
            }
            assert(unique_keys(pre));
            assert forall|i: int| 0 <= i < kvs.len() implies kv_map(kvs)[(#[trigger] kvs[i]).0]
                == kvs[i].1 by {
                if i < kvs.len() - 1 {
                    assert(pre[i] == kvs[i]);
                    assert(kv_map(pre)[pre[i].0] == pre[i].1);
                    assert((kvs[kvs.len() - 1]).0 == kvs.last().0);
                    assert(kvs[i].0 != kvs.last().0);
                } else {
                    assert(kvs[i].0 == kvs.last().0);
                }
            }
        }
    }
}

/// A table of named text values; keys are unique.
pub struct StringMap {
    entries: Vec<(String, String)>,
}

impl View for StringMap {
    type V = Map<Seq<char>, Seq<char>>;

    closed spec fn view(&self) -> Map<Seq<char>, Seq<char>> {
        kv_map(self.entries.deep_view())
    }
}

impl StringMap {
    /// The table's pairs, in their storage order.
    pub closed spec fn kv_seq(&self) -> Seq<(Seq<char>, Seq<char>)> {
        self.entries.deep_view()
    }

    #[verifier::type_invariant]
    spec fn inv(&self) -> bool {
        unique_keys(self.entries.deep_view())
    }

    /// The view is the map described by the pair sequence.
    pub proof fn lemma_view_is_kv_map(&self)
        ensures
            self@ == kv_map(self.kv_seq()),
    {
    }

    /// An empty table.
    pub fn new() -> (r: StringMap)
        ensures
            r@ == Map::<Seq<char>, Seq<char>>::empty(),
            r.kv_seq().len() == 0,
    {
        let entries: Vec<(String, String)> = Vec::new();
        StringMap { entries }
    }

    /// How many pairs the table holds.
    pub fn num_entries(&self) -> (r: usize)
        ensures
            r == self.kv_seq().len(),
    {
        self.entries.len()
    }

    /// The pair at a storage index; its key occurs at no other index.
    pub fn entry_at(&self, i: usize) -> (r: &(String, String))
        requires
            i < self.kv_seq().len(),
        ensures
            r.0@ == self.kv_seq()[i as int].0,
            r.1@ == self.kv_seq()[i as int].1,
            forall|j: int|
                0 <= j < self.kv_seq().len() && j != i ==> (#[trigger] self.kv_seq()[j]).0 != r.0@,
            self@.contains_key(r.0@),
            self@[r.0@] == r.1@,
    {
        proof {
            use_type_invariant(&*self);
            lemma_kv_map_facts(self.kv_seq());
            assert(self.kv_seq()[i as int] == self.entries@[i as int].deep_view());
            assert forall|j: int| 0 <= j < self.kv_seq().len() && j != i implies (#[trigger] self
                .kv_seq()[j]).0 != self.kv_seq()[i as int].0 by {
                if j < i {
                    assert((self.kv_seq()[j]).0 != (self.kv_seq()[i as int]).0);
                }
            }
        }
        &self.entries[i]
    }

    /// Look a key up.
    pub fn get(&self, key: &str) -> (r: Option<&String>)
        ensures
            match r {
                Some(v) => self@.contains_key(key@) && v@ == self@[key@],
                None => !self@.contains_key(key@),
            },
    {
        let n = self.entries.len();
        let mut i: usize = 0;
        while i < n
            invariant
                n == self.kv_seq().len(),
                0 <= i <= n,
                forall|j: int| 0 <= j < i ==> (#[trigger] self.kv_seq()[j]).0 != key@,
            decreases n - i,
        {
            if crate::text::str_eq(self.entries[i].0.as_str(), key) {
                proof {
                    use_type_invariant(&*self);
                    lemma_kv_map_facts(self.kv_seq());
                    assert(self.kv_seq()[i as int] == self.entries@[i as int].deep_view());
                    assert((self.kv_seq()[i as int]).0 == key@);
                    assert(self@.contains_key(key@));
                }
                return Some(&self.entries[i].1);
            }
            proof {
                assert(self.kv_seq()[i as int] == self.entries@[i as int].deep_view());
            }
            i += 1;
        }
        proof {
            lemma_kv_map_facts(self.kv_seq());
            if self@.contains_key(key@) {
                let j = choose|j: int|
                    0 <= j < self.kv_seq().len() && (#[trigger] self.kv_seq()[j]).0 == key@;
                assert(false);
            }
        }
        None
    }

    /// Insert a pair, replacing the value if the key is already present.
    pub fn insert(&mut self, key: String, value: String)
        ensures
            final(self)@ == old(self)@.insert(key@, value@),
    {
        proof {
            use_type_invariant(&*self);
        }
        let mut es: Vec<(String, String)> = Vec::new();
        core::mem::swap(&mut es, &mut self.entries);
        let ghost orig = es.deep_view();
        let n = es.len();
        let mut i: usize = 0;
        while i < n
            invariant
                n == es.deep_view().len(),
                es.deep_view() == orig,
                unique_keys(orig),
                old(self)@ == kv_map(orig),
                0 <= i <= n,
                forall|j: int| 0 <= j < i ==> (#[trigger] orig[j]).0 != key@,
            decreases n - i,
        {
            proof {
                assert(orig[i as int] == es@[i as int].deep_view());
            }
            if crate::text::str_eq(es[i].0.as_str(), key.as_str()) {
                let _replaced = es.remove(i);
                es.push((key, value));
                proof {
                    let newdv = es.deep_view();
                    assert(newdv =~= orig.remove(i as int).push((key@, value@)));
                    lemma_unique_remove_push(orig, i as int, key@, value@);
                    lemma_kv_map_facts(newdv);
                    lemma_kv_map_facts(orig);
                    assert forall|k: Seq<char>| #[trigger] kv_map(newdv).contains_key(k)
                        implies kv_map(orig).insert(key@, value@).contains_key(k) by {
                        if k != key@ {
                            let t = choose|t: int|
                                0 <= t < newdv.len() && (#[trigger] newdv[t]).0 == k;
                            assert(t < newdv.len() - 1);
                            let s = if t < i { t } else { t + 1 };
                            assert(orig[s] == newdv[t]);
                            assert(kv_map(orig).contains_key(k));
                        }
                    }
                    assert forall|k: Seq<char>| #[trigger]
                        kv_map(orig).insert(key@, value@).contains_key(k)
                        implies kv_map(newdv).contains_key(k) by {
                        if k != key@ {
                            assert(kv_map(orig).contains_key(k));
                            let s = choose|s: int|
                                0 <= s < orig.len() && (#[trigger] orig[s]).0 == k;
                            assert(s != i);
                            let t = if s < i { s } else { s - 1 };
                            assert(newdv[t] == orig[s]);
                            assert(kv_map(newdv).contains_key(newdv[t].0));
                        } else {
                            assert((newdv[newdv.len() - 1]).0 == key@);
                            assert(kv_map(newdv).contains_key(newdv[newdv.len() - 1].0));
                        }
                    }
                    assert forall|k: Seq<char>| #[trigger] kv_map(newdv).contains_key(k)
                        implies kv_map(newdv)[k] == kv_map(orig).insert(key@, value@)[k] by {
                        if k == key@ {
                            assert(newdv[newdv.len() - 1] == (key@, value@));
                            assert(kv_map(newdv)[k] == value@);
                        } else {
                            let t = choose|t: int|
                                0 <= t < newdv.len() && (#[trigger] newdv[t]).0 == k;
                            assert(t < newdv.len() - 1);
                            let s = if t < i { t } else { t + 1 };
                            assert(orig[s] == newdv[t]);
                            assert(kv_map(newdv)[newdv[t].0] == newdv[t].1);
                            assert(kv_map(orig)[orig[s].0] == orig[s].1);
                        }
                    }
                    assert(kv_map(newdv) =~= kv_map(orig).insert(key@, value@));
                }
                self.entries = es;
                return ;
            }
            i += 1;
        }
        es.push((key, value));
        proof {
            let newdv = es.deep_view();
            assert(newdv.drop_last() =~= orig);
            assert(newdv.last() == (key@, value@));
            assert(kv_map(newdv) == kv_map(orig).insert(key@, value@));
            assert forall|a: int, b: int| 0 <= a < b < newdv.len() implies (#[trigger] newdv[a]).0
                != (#[trigger] newdv[b]).0 by {
                if b < newdv.len() - 1 {
                    assert(newdv[a] == orig[a]);
                    assert(newdv[b] == orig[b]);
                } else {
                    assert(newdv[a] == orig[a]);
                    assert((orig[a]).0 != key@);
                }
            }
            assert(unique_keys(newdv));
        }
        self.entries = es;
    }

    /// Remove a key; hand back the removed pair if it was present.
    pub fn remove(&mut self, key: &str) -> (r: Option<(String, String)>)
        ensures
            match r {
                Some(p) => {
                    &&& old(self)@.contains_key(key@)
                    &&& p.0@ == key@
                    &&& p.1@ == old(self)@[key@]
                    &&& final(self)@ == old(self)@.remove(key@)
                },
                None => {
                    &&& !old(self)@.contains_key(key@)
                    &&& final(self)@ == old(self)@
                },
            },
    {
        proof {
            use_type_invariant(&*self);
        }
        let mut es: Vec<(String, String)> = Vec::new();
        core::mem::swap(&mut es, &mut self.entries);
        let ghost orig = es.deep_view();
        let n = es.len();
        let mut i: usize = 0;
        while i < n
            invariant
                n == es.deep_view().len(),
                es.deep_view() == orig,
                unique_keys(orig),
                old(self)@ == kv_map(orig),
                0 <= i <= n,
                forall|j: int| 0 <= j < i ==> (#[trigger] orig[j]).0 != key@,
            decreases n - i,
        {
            proof {
                assert(orig[i as int] == es@[i as int].deep_view());
            }
            if crate::text::str_eq(es[i].0.as_str(), key) {
                let p = es.remove(i);
                proof {
                    assert((orig[i as int]).0 == key@);
                    let newdv = es.deep_view();
                    assert(newdv =~= orig.remove(i as int));
                    lemma_unique_remove(orig, i as int);
                    lemma_kv_map_facts(newdv);
                    lemma_kv_map_facts(orig);
                    assert(kv_map(orig).contains_key(key@));
                    assert(kv_map(orig)[orig[i as int].0] == orig[i as int].1);
                    assert forall|k: Seq<char>| #[trigger] kv_map(newdv).contains_key(k)
                        implies kv_map(orig).remove(key@).contains_key(k) by {
                        let t = choose|t: int|
                            0 <= t < newdv.len() && (#[trigger] newdv[t]).0 == k;
                        let s = if t < i { t } else { t + 1 };
                        assert(orig[s] == newdv[t]);
                        assert(kv_map(orig).contains_key(orig[s].0));
                        assert(s != i);
                        assert(k != key@);
                    }
                    assert forall|k: Seq<char>| #[trigger]
                        kv_map(orig).remove(key@).contains_key(k)
                        implies kv_map(newdv).contains_key(k) by {
                        assert(kv_map(orig).contains_key(k));
                        assert(k != key@);
                        let s = choose|s: int|
                            0 <= s < orig.len() && (#[trigger] orig[s]).0 == k;
                        assert(s != i);
                        let t = if s < i { s } else { s - 1 };
                        assert(newdv[t] == orig[s]);
                        assert(kv_map(newdv).contains_key(newdv[t].0));
                    }
                    assert forall|k: Seq<char>| #[trigger] kv_map(newdv).contains_key(k)
                        implies kv_map(newdv)[k] == kv_map(orig).remove(key@)[k] by {
                        let t = choose|t: int|
                            0 <= t < newdv.len() && (#[trigger] newdv[t]).0 == k;
                        let s = if t < i { t } else { t + 1 };
                        assert(orig[s] == newdv[t]);
                        assert(s != i);
                        assert(k != key@);
                        assert(kv_map(newdv)[newdv[t].0] == newdv[t].1);
                        assert(kv_map(orig)[orig[s].0] == orig[s].1);
                    }
                    assert(kv_map(newdv) =~= kv_map(orig).remove(key@));
                }
                self.entries = es;
                return Some(p);
            }
            i += 1;
        }
        proof {
            lemma_kv_map_facts(orig);
            if kv_map(orig).contains_key(key@) {
                let j = choose|j: int| 0 <= j < orig.len() && (#[trigger] orig[j]).0 == key@;
                assert(false);
            }
        }
        self.entries = es;
        None
    }

    /// Drop every pair.
    pub fn clear(&mut self)
        ensures
            final(self)@ == Map::<Seq<char>, Seq<char>>::empty(),
            final(self).kv_seq().len() == 0,
    {
        let es: Vec<(String, String)> = Vec::new();
        self.entries = es;
    }

    /// Whether the table holds nothing.
    pub fn is_empty(&self) -> (r: bool)
        ensures
            r == (self@ == Map::<Seq<char>, Seq<char>>::empty()),
    {
        proof {
            lemma_kv_map_facts(self.kv_seq());
            if self.kv_seq().len() > 0 {
                assert(self@.contains_key(self.kv_seq()[0].0));
            } else {
                assert(self@ =~= Map::<Seq<char>, Seq<char>>::empty());
            }
        }
        self.entries.len() == 0
    }
}

proof fn lemma_unique_remove(kvs: Seq<(Seq<char>, Seq<char>)>, i: int)
    requires
        unique_keys(kvs),
        0 <= i < kvs.len(),
    ensures
        unique_keys(kvs.remove(i)),
{
    let r = kvs.remove(i);
    assert forall|a: int, b: int| 0 <= a < b < r.len() implies (#[trigger] r[a]).0
        != (#[trigger] r[b]).0 by {
        let a0 = if a < i { a } else { a + 1 };
        let b0 = if b < i { b } else { b + 1 };
        assert(r[a] == kvs[a0]);
        assert(r[b] == kvs[b0]);
    }
}

proof fn lemma_unique_remove_push(
    kvs: Seq<(Seq<char>, Seq<char>)>,
    i: int,
    k: Seq<char>,
    v: Seq<char>,
)
    requires
        unique_keys(kvs),
        0 <= i < kvs.len(),
        kvs[i].0 == k,
        forall|j: int| 0 <= j < kvs.len() && j != i ==> (#[trigger] kvs[j]).0 != k,
    ensures
        unique_keys(kvs.remove(i).push((k, v))),
{
    lemma_unique_remove(kvs, i);
    let r = kvs.remove(i);
    let p = r.push((k, v));
    assert forall|a: int, b: int| 0 <= a < b < p.len() implies (#[trigger] p[a]).0
        != (#[trigger] p[b]).0 by {
        if b == p.len() - 1 {
            let a0 = if a < i { a } else { a + 1 };
            assert(p[a] == r[a]);
            assert(r[a] == kvs[a0]);
        } else {
            assert(p[a] == r[a]);
            assert(p[b] == r[b]);
        }
    }
}

} // verus!
