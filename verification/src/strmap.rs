//! Association maps keyed by strings, with a `Map` view over the keys'
//! character sequences. Entries keep their insertion order, so every run
//! over the same history produces the same table.

use vstd::prelude::*;
use crate::order::str_eq;

verus! {

/// A map from strings to values, stored as a vector of entries with
/// pairwise distinct keys.
pub struct StrMap<V> {
    pub entries: Vec<(String, V)>,
}

/// Whether the keys of an entry sequence are pairwise distinct.
pub open spec fn distinct_keys<V>(s: Seq<(String, V)>) -> bool {
    forall|i: int, j: int| 0 <= i < j < s.len() ==> s[i].0@ != s[j].0@
}

/// The mathematical map an entry sequence stands for; later entries win,
/// though with distinct keys every entry is visible.
pub open spec fn assoc_view<V>(s: Seq<(String, V)>) -> Map<Seq<char>, V>
    decreases s.len(),
{
    if s.len() == 0 {
        Map::empty()
    } else {
        assoc_view(s.drop_last()).insert(s.last().0@, s.last().1)
    }
}

impl<V> View for StrMap<V> {
    type V = Map<Seq<char>, V>;

    open spec fn view(&self) -> Map<Seq<char>, V> {
        assoc_view(self.entries@)
    }
}

/// A key is in the view exactly when some entry carries it.
pub proof fn lemma_assoc_view_contains<V>(s: Seq<(String, V)>, k: Seq<char>)
    ensures
        assoc_view(s).contains_key(k) <==> exists|i: int| 0 <= i < s.len() && s[i].0@ == k,
    decreases s.len(),
{
    if s.len() > 0 {
        lemma_assoc_view_contains(s.drop_last(), k);
        if assoc_view(s).contains_key(k) && s.last().0@ != k {
            let i = choose|i: int| 0 <= i < s.drop_last().len() && s.drop_last()[i].0@ == k;
            assert(s[i].0@ == k);
        }
        if exists|i: int| 0 <= i < s.len() && s[i].0@ == k {
            let i = choose|i: int| 0 <= i < s.len() && s[i].0@ == k;
            if i < s.len() - 1 {
                assert(s.drop_last()[i].0@ == k);
            }
        }
    }
}

/// With distinct keys, the view sends each entry's key to its value.
pub proof fn lemma_assoc_view_at<V>(s: Seq<(String, V)>, i: int)
    requires
        distinct_keys(s),
        0 <= i < s.len(),
    ensures
        assoc_view(s).contains_key(s[i].0@),
        assoc_view(s)[s[i].0@] == s[i].1,
    decreases s.len(),
{
    if i < s.len() - 1 {
        assert(distinct_keys(s.drop_last()));
        assert(s.drop_last()[i] == s[i]);
        lemma_assoc_view_at(s.drop_last(), i);
        assert(s.last().0@ != s[i].0@);
    }
}

/// Replacing the value at an existing key updates the view at that key.
pub proof fn lemma_assoc_view_update<V>(s: Seq<(String, V)>, i: int, e: (String, V))
    requires
        distinct_keys(s),
        0 <= i < s.len(),
        e.0@ == s[i].0@,
    ensures
        distinct_keys(s.update(i, e)),
        assoc_view(s.update(i, e)) =~= assoc_view(s).insert(e.0@, e.1),
    decreases s.len(),
{
    let t = s.update(i, e);
    assert(forall|j: int| 0 <= j < s.len() ==> t[j].0@ == s[j].0@);
    if i == s.len() - 1 {
        assert(t.drop_last() =~= s.drop_last());
    } else {
        assert(distinct_keys(s.drop_last()));
        assert(s.drop_last()[i] == s[i]);
        lemma_assoc_view_update(s.drop_last(), i, e);
        assert(t.drop_last() =~= s.drop_last().update(i, e));
        assert(t.last() == s.last());
        assert(s.last().0@ != e.0@);
    }
}

/// Appending an entry inserts its key into the view.
pub proof fn lemma_assoc_view_push<V>(s: Seq<(String, V)>, e: (String, V))
    ensures
        assoc_view(s.push(e)) == assoc_view(s).insert(e.0@, e.1),
{
    assert(s.push(e).drop_last() =~= s);
    assert(s.push(e).last() == e);
}

/// With distinct keys, the view's domain is finite and as large as the
/// entry sequence.
pub proof fn lemma_assoc_view_len<V>(s: Seq<(String, V)>)
    requires
        distinct_keys(s),
    ensures
        assoc_view(s).dom().finite(),
        assoc_view(s).dom().len() == s.len(),
    decreases s.len(),
{
    if s.len() > 0 {
        assert(distinct_keys(s.drop_last()));
        lemma_assoc_view_len(s.drop_last());
        lemma_assoc_view_contains(s.drop_last(), s.last().0@);
    }
}

impl<V> StrMap<V> {
    /// Whether this map's representation is well formed.
    pub open spec fn wf(&self) -> bool {
        distinct_keys(self.entries@)
    }

    /// An empty map.
    pub fn new() -> (r: Self)
        ensures
            r.wf(),
            r@ == Map::<Seq<char>, V>::empty(),
            r.entries@.len() == 0,
    {
        StrMap { entries: Vec::new() }
    }

    /// The number of entries, which under `wf` is the size of the domain.
    pub fn len(&self) -> (r: usize)
        ensures
            r == self.entries@.len(),
    {
        self.entries.len()
    }

    /// The position of the entry holding `k`, if there is one.
    pub fn index_of(&self, k: &str) -> (r: Option<usize>)
        ensures
            match r {
                Some(i) => i < self.entries@.len() && self.entries@[i as int].0@ == k@,
                None => forall|i: int| 0 <= i < self.entries@.len() ==> self.entries@[i].0@ != k@,
            },
    {
        let n = self.entries.len();
        let mut i: usize = 0;
        while i < n
            invariant
                n == self.entries@.len(),
                i <= n,
                forall|j: int| 0 <= j < i ==> self.entries@[j].0@ != k@,
            decreases n - i,
        {
            if str_eq(self.entries[i].0.as_str(), k) {
                return Some(i);
            }
            i = i + 1;
        }
        None
    }

    /// Look a key up in the map.
    pub fn get(&self, k: &str) -> (r: Option<&V>)
        requires
            self.wf(),
        ensures
            match r {
                Some(v) => self@.contains_key(k@) && *v == self@[k@],
                None => !self@.contains_key(k@),
            },
    {
        proof {
            lemma_assoc_view_contains(self.entries@, k@);
        }
        match self.index_of(k) {
            Some(i) => {
                proof {
                    lemma_assoc_view_at(self.entries@, i as int);
                }
                Some(&self.entries[i].1)
            },
            None => None,
        }
    }

    /// Insert a value for a key, replacing any value the key held.
    pub fn insert(&mut self, k: &str, v: V)
        requires
            old(self).wf(),
        ensures
            final(self).wf(),
            final(self)@ == old(self)@.insert(k@, v),
            final(self).entries@.len() == if old(self)@.contains_key(k@) {
                old(self).entries@.len() as int
            } else {
                old(self).entries@.len() + 1 as int
            },
    {
        proof {
            lemma_assoc_view_contains(self.entries@, k@);
        }
        match self.index_of(k) {
            Some(i) => {
                let e = (k.to_owned(), v);
                proof {
                    lemma_assoc_view_update(self.entries@, i as int, e);
                }
                self.entries[i] = e;
            },
            None => {
                let e = (k.to_owned(), v);
                proof {
                    lemma_assoc_view_push(self.entries@, e);
                }
                self.entries.push(e);
            },
        }
    }
}

impl StrMap<usize> {
    /// Add one to the counter a key holds, starting it at one for a key
    /// not yet present.
    pub fn bump(&mut self, k: &str)
        requires
            old(self).wf(),
            old(self)@.contains_key(k@) ==> old(self)@[k@] < usize::MAX,
        ensures
            final(self).wf(),
            final(self)@ == old(self)@.insert(
                k@,
                if old(self)@.contains_key(k@) {
                    (old(self)@[k@] + 1) as usize
                } else {
                    1usize
                },
            ),
    {
        proof {
            lemma_assoc_view_contains(self.entries@, k@);
        }
        match self.index_of(k) {
            Some(i) => {
                proof {
                    lemma_assoc_view_at(self.entries@, i as int);
                }
                let next = self.entries[i].1 + 1;
                let e = (k.to_owned(), next);
                proof {
                    lemma_assoc_view_update(self.entries@, i as int, e);
                }
                self.entries[i] = e;
            },
            None => {
                let e = (k.to_owned(), 1usize);
                proof {
                    lemma_assoc_view_push(self.entries@, e);
                }
                self.entries.push(e);
            },
        }
    }
}

/// Whether one of the first `i` entries carries key `p`.
pub open spec fn key_in_prefix<V>(s: Seq<(String, V)>, i: int, p: Seq<char>) -> bool {
    exists|l: int| 0 <= l < i && (#[trigger] s[l]).0@ == p
}

/// Well-formedness of a two-level map: the outer table and every inner
/// table have distinct keys.
pub open spec fn nested_wf(m: &StrMap<StrMap<usize>>) -> bool {
    &&& m.wf()
    &&& forall|k: Seq<char>| #[trigger] m@.contains_key(k) ==> m@[k].wf()
}

impl StrMap<StrMap<usize>> {
    /// Add one to the inner counter at `(p, a)`, creating the inner table
    /// or the counter where they are missing.
    pub fn bump_nested(&mut self, p: &str, a: &str)
        requires
            nested_wf(old(self)),
            old(self)@.contains_key(p@) && old(self)@[p@]@.contains_key(a@) ==> old(
                self,
            )@[p@]@[a@] < usize::MAX,
        ensures
            nested_wf(final(self)),
            final(self)@.dom() == old(self)@.dom().insert(p@),
            forall|q: Seq<char>|
                #[trigger] final(self)@.contains_key(q) && q != p@ ==> final(self)@[q] == old(
                    self,
                )@[q],
            final(self)@[p@]@ == if old(self)@.contains_key(p@) {
                old(self)@[p@]@
            } else {
                Map::<Seq<char>, usize>::empty()
            }.insert(
                a@,
                if old(self)@.contains_key(p@) && old(self)@[p@]@.contains_key(a@) {
                    (old(self)@[p@]@[a@] + 1) as usize
                } else {
                    1usize
                },
            ),
    {
        proof {
            lemma_assoc_view_contains(self.entries@, p@);
        }
        match self.index_of(p) {
            Some(i) => {
                proof {
                    lemma_assoc_view_at(self.entries@, i as int);
                }
                self.entries[i].1.bump(a);
                proof {
                    lemma_assoc_view_update(
                        old(self).entries@,
                        i as int,
                        self.entries@[i as int],
                    );
                    assert(self.entries@ =~= old(self).entries@.update(
                        i as int,
                        self.entries@[i as int],
                    ));
                    assert(self@.dom() =~= old(self)@.dom().insert(p@));
                }
            },
            None => {
                let mut inner: StrMap<usize> = StrMap::new();
                inner.bump(a);
                self.insert(p, inner);
                proof {
                    assert(self@.dom() =~= old(self)@.dom().insert(p@));
                }
            },
        }
    }
}

} // verus!
