//! Co-change coupling: for every unordered pair of files, how many
//! commits touch both. Pair keys are canonicalized by lexicographic
//! ordering, so each unordered pair has exactly one counter.

use vstd::prelude::*;
use itertools::Itertools;
use crate::order::{lex_lt, lex_leq, str_lt, str_eq, lemma_lex_trichotomy, lemma_lex_leq_trans};
use crate::repo::{CommitInfo, wf_commit, wf_commits};
use crate::analysis::metrics::{commit_touches, touch_count};

verus! {

/// A counter map keyed by an ordered pair of strings, stored as a vector
/// of entries with pairwise distinct keys.
pub struct PairMap {
    pub entries: Vec<((String, String), usize)>,
}

/// The view of a pair key: the two character sequences.
pub open spec fn pair_key_view(k: (String, String)) -> (Seq<char>, Seq<char>) {
    (k.0@, k.1@)
}

/// Whether the keys of a pair-entry sequence are pairwise distinct.
pub open spec fn distinct_pair_keys(s: Seq<((String, String), usize)>) -> bool {
    forall|i: int, j: int|
        0 <= i < j < s.len() ==> pair_key_view(s[i].0) != pair_key_view(s[j].0)
}

/// The mathematical map a pair-entry sequence stands for.
pub open spec fn pair_assoc_view(s: Seq<((String, String), usize)>) -> Map<
    (Seq<char>, Seq<char>),
    usize,
>
    decreases s.len(),
{
    if s.len() == 0 {
        Map::empty()
    } else {
        pair_assoc_view(s.drop_last()).insert(pair_key_view(s.last().0), s.last().1)
    }
}

impl View for PairMap {
    type V = Map<(Seq<char>, Seq<char>), usize>;

    open spec fn view(&self) -> Map<(Seq<char>, Seq<char>), usize> {
        pair_assoc_view(self.entries@)
    }
}

/// A key is in the view exactly when some entry carries it.
pub proof fn lemma_pair_view_contains(s: Seq<((String, String), usize)>, k: (Seq<char>, Seq<char>))
    ensures
        pair_assoc_view(s).contains_key(k) <==> exists|i: int|
            0 <= i < s.len() && pair_key_view(s[i].0) == k,
    decreases s.len(),
{
    if s.len() > 0 {
        lemma_pair_view_contains(s.drop_last(), k);
        if pair_assoc_view(s).contains_key(k) && pair_key_view(s.last().0) != k {
            let i = choose|i: int|
                0 <= i < s.drop_last().len() && pair_key_view(s.drop_last()[i].0) == k;
            assert(pair_key_view(s[i].0) == k);
        }
        if exists|i: int| 0 <= i < s.len() && pair_key_view(s[i].0) == k {
            let i = choose|i: int| 0 <= i < s.len() && pair_key_view(s[i].0) == k;
            if i < s.len() - 1 {
                assert(pair_key_view(s.drop_last()[i].0) == k);
            }
        }
    }
}

/// With distinct keys, the view sends each entry's key to its value.
pub proof fn lemma_pair_view_at(s: Seq<((String, String), usize)>, i: int)
    requires
        distinct_pair_keys(s),
        0 <= i < s.len(),
    ensures
        pair_assoc_view(s).contains_key(pair_key_view(s[i].0)),
        pair_assoc_view(s)[pair_key_view(s[i].0)] == s[i].1,
    decreases s.len(),
{
    if i < s.len() - 1 {
        assert(distinct_pair_keys(s.drop_last()));
        assert(s.drop_last()[i] == s[i]);
        lemma_pair_view_at(s.drop_last(), i);
        assert(pair_key_view(s.last().0) != pair_key_view(s[i].0));
    }
}

/// Replacing the value at an existing key updates the view at that key.
pub proof fn lemma_pair_view_update(
    s: Seq<((String, String), usize)>,
    i: int,
    e: ((String, String), usize),
)
    requires
        distinct_pair_keys(s),
        0 <= i < s.len(),
        pair_key_view(e.0) == pair_key_view(s[i].0),
    ensures
        distinct_pair_keys(s.update(i, e)),
        pair_assoc_view(s.update(i, e)) =~= pair_assoc_view(s).insert(pair_key_view(e.0), e.1),
    decreases s.len(),
{
    let t = s.update(i, e);
    assert(forall|j: int| 0 <= j < s.len() ==> pair_key_view(t[j].0) == pair_key_view(s[j].0));
    if i == s.len() - 1 {
        assert(t.drop_last() =~= s.drop_last());
    } else {
        assert(distinct_pair_keys(s.drop_last()));
        assert(s.drop_last()[i] == s[i]);
        lemma_pair_view_update(s.drop_last(), i, e);
        assert(t.drop_last() =~= s.drop_last().update(i, e));
        assert(t.last() == s.last());
        assert(pair_key_view(s.last().0) != pair_key_view(e.0));
    }
}

/// Appending an entry inserts its key into the view.
pub proof fn lemma_pair_view_push(s: Seq<((String, String), usize)>, e: ((String, String), usize))
    ensures
        pair_assoc_view(s.push(e)) == pair_assoc_view(s).insert(pair_key_view(e.0), e.1),
{
    assert(s.push(e).drop_last() =~= s);
    assert(s.push(e).last() == e);
}

impl PairMap {
    /// Whether this map's representation is well formed.
    pub open spec fn wf(&self) -> bool {
        distinct_pair_keys(self.entries@)
    }

    /// An empty map.
    pub fn new() -> (r: Self)
        ensures
            r.wf(),
            r@ == Map::<(Seq<char>, Seq<char>), usize>::empty(),
            r.entries@.len() == 0,
    {
        PairMap { entries: Vec::new() }
    }

    /// The position of the entry holding the key `(a, b)`, if any.
    pub fn index_of(&self, a: &str, b: &str) -> (r: Option<usize>)
        ensures
            match r {
                Some(i) => i < self.entries@.len() && pair_key_view(self.entries@[i as int].0)
                    == (a@, b@),
                None => forall|i: int|
                    0 <= i < self.entries@.len() ==> pair_key_view(self.entries@[i].0) != (a@, b@),
            },
    {
        let n = self.entries.len();
        let mut i: usize = 0;
        while i < n
            invariant
                n == self.entries@.len(),
                i <= n,
                forall|j: int| 0 <= j < i ==> pair_key_view(self.entries@[j].0) != (a@, b@),
            decreases n - i,
        {
            if str_eq(self.entries[i].0.0.as_str(), a) && str_eq(self.entries[i].0.1.as_str(), b) {
                return Some(i);
            }
            i = i + 1;
        }
        None
    }

    /// Look a pair key up in the map.
    pub fn get(&self, a: &str, b: &str) -> (r: Option<&usize>)
        requires
            self.wf(),
        ensures
            match r {
                Some(v) => self@.contains_key((a@, b@)) && *v == self@[(a@, b@)],
                None => !self@.contains_key((a@, b@)),
            },
    {
        proof {
            lemma_pair_view_contains(self.entries@, (a@, b@));
        }
        match self.index_of(a, b) {
            Some(i) => {
                proof {
                    lemma_pair_view_at(self.entries@, i as int);
                }
                Some(&self.entries[i].1)
            },
            None => None,
        }
    }

    /// Add one to the counter a pair key holds, starting it at one for a
    /// key not yet present.
    pub fn bump(&mut self, a: &String, b: &String)
        requires
            old(self).wf(),
            old(self)@.contains_key((a@, b@)) ==> old(self)@[(a@, b@)] < usize::MAX,
        ensures
            final(self).wf(),
            final(self)@ == old(self)@.insert(
                (a@, b@),
                if old(self)@.contains_key((a@, b@)) {
                    (old(self)@[(a@, b@)] + 1) as usize
                } else {
                    1usize
                },
            ),
    {
        proof {
            lemma_pair_view_contains(self.entries@, (a@, b@));
        }
        match self.index_of(a.as_str(), b.as_str()) {
            Some(i) => {
                proof {
                    lemma_pair_view_at(self.entries@, i as int);
                }
                let next = self.entries[i].1 + 1;
                let e = ((a.clone(), b.clone()), next);
                proof {
                    lemma_pair_view_update(self.entries@, i as int, e);
                }
                self.entries[i] = e;
            },
            None => {
                let e = ((a.clone(), b.clone()), 1usize);
                proof {
                    lemma_pair_view_push(self.entries@, e);
                }
                self.entries.push(e);
            },
        }
    }
}

/// The views of a string sequence.
pub open spec fn views_of(s: Seq<String>) -> Seq<Seq<char>> {
    s.map_values(|x: String| x@)
}

/// How many elements of `s` have view `q`.
pub open spec fn view_occ(s: Seq<String>, q: Seq<char>) -> nat
    decreases s.len(),
{
    if s.len() == 0 {
        0
    } else {
        view_occ(s.drop_last(), q) + if s.last()@ == q {
            1nat
        } else {
            0nat
        }
    }
}

/// Whether some element of `s` has view `q`.
pub open spec fn contains_view(s: Seq<String>, q: Seq<char>) -> bool {
    exists|i: int| 0 <= i < s.len() && s[i]@ == q
}

/// Non-strict lexicographic sortedness by view.
pub open spec fn sorted_leq(s: Seq<String>) -> bool {
    forall|i: int, j: int| 0 <= i < j < s.len() ==> lex_leq(s[i]@, s[j]@)
}

proof fn lemma_view_occ_concat(x: Seq<String>, y: Seq<String>, q: Seq<char>)
    ensures
        view_occ(x + y, q) == view_occ(x, q) + view_occ(y, q),
    decreases y.len(),
{
    if y.len() == 0 {
        assert(x + y =~= x);
    } else {
        assert((x + y).drop_last() =~= x + y.drop_last());
        assert((x + y).last() == y.last());
        lemma_view_occ_concat(x, y.drop_last(), q);
    }
}

proof fn lemma_view_occ_contains(s: Seq<String>, q: Seq<char>)
    ensures
        view_occ(s, q) > 0 <==> contains_view(s, q),
    decreases s.len(),
{
    if s.len() > 0 {
        lemma_view_occ_contains(s.drop_last(), q);
        if view_occ(s, q) > 0 && s.last()@ != q {
            let i = choose|i: int| 0 <= i < s.drop_last().len() && s.drop_last()[i]@ == q;
            assert(s[i]@ == q);
        }
        if contains_view(s, q) {
            let i = choose|i: int| 0 <= i < s.len() && s[i]@ == q;
            if i < s.len() - 1 {
                assert(s.drop_last()[i]@ == q);
            }
        }
    }
}

/// Sort strings into non-strict lexicographic order, keeping every
/// element: the result holds each view as often as the input does.
pub fn sort_paths(input: &Vec<String>) -> (r: Vec<String>)
    ensures
        r@.len() == input@.len(),
        sorted_leq(r@),
        forall|q: Seq<char>| #[trigger] view_occ(r@, q) == view_occ(input@, q),
{
    let n = input.len();
    let mut r: Vec<String> = Vec::new();
    let mut i: usize = 0;
    proof {
        assert(input@.take(0) =~= Seq::<String>::empty());
    }
    while i < n
        invariant
            n == input@.len(),
            i <= n,
            r@.len() == i,
            sorted_leq(r@),
            forall|q: Seq<char>| #[trigger]
                view_occ(r@, q) == view_occ(input@.take(i as int), q),
        decreases n - i,
    {
        let x = input[i].clone();
        let m = r.len();
        let mut pos: usize = 0;
        while pos < m && str_lt(r[pos].as_str(), x.as_str())
            invariant
                m == r@.len(),
                pos <= m,
                x@ == input@[i as int]@,
                forall|k: int| 0 <= k < pos ==> lex_lt(r@[k]@, x@),
            decreases m - pos,
        {
            pos = pos + 1;
        }
        proof {
            if pos < m {
                lemma_lex_trichotomy(r@[pos as int]@, x@);
            }
        }
        let ghost old_r = r@;
        r.insert(pos, x);
        proof {
            assert(r@ =~= old_r.take(pos as int) + seq![x] + old_r.skip(pos as int));
            // sortedness of the extended sequence
            assert forall|k1: int, k2: int| 0 <= k1 < k2 < r@.len() implies lex_leq(
                r@[k1]@,
                r@[k2]@,
            ) by {
                if k1 < pos && k2 == pos {
                } else if k1 == pos && k2 > pos {
                    if pos < old_r.len() {
                        lemma_lex_leq_trans(x@, old_r[pos as int]@, old_r[k2 - 1]@);
                    }
                } else if k1 < pos && k2 > pos {
                } else if k1 > pos && k2 > pos {
                } else {
                }
            }
            // every view keeps its count
            assert forall|q: Seq<char>| #[trigger]
                view_occ(r@, q) == view_occ(input@.take(i + 1), q) by {
                lemma_view_occ_concat(old_r.take(pos as int) + seq![x], old_r.skip(pos as int), q);
                lemma_view_occ_concat(old_r.take(pos as int), seq![x], q);
                lemma_view_occ_concat(old_r.take(pos as int), old_r.skip(pos as int), q);
                assert(old_r.take(pos as int) + old_r.skip(pos as int) =~= old_r);
                assert(view_occ(seq![x], q) == if x@ == q {
                    1nat
                } else {
                    0nat
                }) by {
                    assert(seq![x].drop_last() =~= Seq::<String>::empty());
                    assert(seq![x].last() == x);
                    assert(view_occ(Seq::<String>::empty(), q) == 0);
                }
                assert(input@.take(i + 1).drop_last() =~= input@.take(i as int));
                assert(input@.take(i + 1).last() == input@[i as int]);
            }
        }
        i = i + 1;
    }
    proof {
        assert(input@.take(n as int) =~= input@);
    }
    r
}

/// Strict lexicographic sortedness by view; holds after sorting a
/// duplicate-free sequence.
pub open spec fn sorted_lt(s: Seq<String>) -> bool {
    forall|i: int, j: int| 0 <= i < j < s.len() ==> lex_lt(s[i]@, s[j]@)
}

/// All ordered index pairs `i < j` of `s`, as value pairs `(s[i], s[j])`,
/// in lexicographic index order.
pub open spec fn spec_pairs(s: Seq<String>) -> Seq<(String, String)>
    decreases s.len(),
{
    if s.len() == 0 {
        Seq::empty()
    } else {
        s.skip(1).map_values(|x: String| (s[0], x)) + spec_pairs(s.skip(1))
    }
}

/// Relies on itertools' `Itertools::combinations` with size two: over the
/// elements of `v` it yields, for every index pair `i < j` in
/// lexicographic index order, one combination, whose entries are clones
/// of `v[i]` and `v[j]`.
#[verifier::external_body]
fn pairs_of(v: &Vec<String>) -> (r: Vec<(String, String)>)
    ensures
        r@ == spec_pairs(v@),
{
    v.iter().combinations(2).map(|p| (p[0].clone(), p[1].clone())).collect()
}

/// How many pairs of `ps` have the views `(a, b)`.
pub open spec fn pair_occ(ps: Seq<(String, String)>, a: Seq<char>, b: Seq<char>) -> nat
    decreases ps.len(),
{
    if ps.len() == 0 {
        0
    } else {
        pair_occ(ps.drop_last(), a, b) + if ps.last().0@ == a && ps.last().1@ == b {
            1nat
        } else {
            0nat
        }
    }
}

proof fn lemma_pair_occ_concat(x: Seq<(String, String)>, y: Seq<(String, String)>, a: Seq<char>, b: Seq<char>)
    ensures
        pair_occ(x + y, a, b) == pair_occ(x, a, b) + pair_occ(y, a, b),
    decreases y.len(),
{
    if y.len() == 0 {
        assert(x + y =~= x);
    } else {
        assert((x + y).drop_last() =~= x + y.drop_last());
        assert((x + y).last() == y.last());
        lemma_pair_occ_concat(x, y.drop_last(), a, b);
    }
}

proof fn lemma_pair_occ_step(ps: Seq<(String, String)>, k: int, a: Seq<char>, b: Seq<char>)
    requires
        0 <= k < ps.len(),
    ensures
        pair_occ(ps.take(k + 1), a, b) == pair_occ(ps.take(k), a, b) + if ps[k].0@ == a
            && ps[k].1@ == b {
            1int
        } else {
            0int
        },
{
    assert(ps.take(k + 1).drop_last() =~= ps.take(k));
    assert(ps.take(k + 1).last() == ps[k]);
}

proof fn lemma_pair_occ_prefix(ps: Seq<(String, String)>, k: int, a: Seq<char>, b: Seq<char>)
    requires
        0 <= k <= ps.len(),
    ensures
        pair_occ(ps.take(k), a, b) <= pair_occ(ps, a, b),
    decreases ps.len() - k,
{
    if k < ps.len() {
        lemma_pair_occ_step(ps, k, a, b);
        lemma_pair_occ_prefix(ps, k + 1, a, b);
    } else {
        assert(ps.take(k) =~= ps);
    }
}

proof fn lemma_head_pair_occ(h: String, t: Seq<String>, a: Seq<char>, b: Seq<char>)
    ensures
        pair_occ(t.map_values(|x: String| (h, x)), a, b) == if h@ == a {
            view_occ(t, b) as int
        } else {
            0int
        },
    decreases t.len(),
{
    let m = t.map_values(|x: String| (h, x));
    if t.len() > 0 {
        assert(m.drop_last() =~= t.drop_last().map_values(|x: String| (h, x)));
        assert(m.last() == (h, t.last()));
        lemma_head_pair_occ(h, t.drop_last(), a, b);
    }
}

proof fn lemma_contains_view_cons(s: Seq<String>, q: Seq<char>)
    requires
        s.len() > 0,
    ensures
        contains_view(s, q) <==> s[0]@ == q || contains_view(s.skip(1), q),
{
    if contains_view(s, q) {
        let i = choose|i: int| 0 <= i < s.len() && s[i]@ == q;
        if i > 0 {
            assert(s.skip(1)[i - 1]@ == q);
        }
    }
    if contains_view(s.skip(1), q) {
        let i = choose|i: int| 0 <= i < s.skip(1).len() && s.skip(1)[i]@ == q;
        assert(s[i + 1]@ == q);
    }
}

proof fn lemma_view_occ_distinct(s: Seq<String>, q: Seq<char>)
    requires
        forall|i: int, j: int| 0 <= i < j < s.len() ==> s[i]@ != s[j]@,
    ensures
        view_occ(s, q) <= 1,
    decreases s.len(),
{
    if s.len() > 0 {
        assert(forall|i: int, j: int|
            0 <= i < j < s.drop_last().len() ==> s.drop_last()[i]@ != s.drop_last()[j]@);
        lemma_view_occ_distinct(s.drop_last(), q);
        if s.last()@ == q && view_occ(s.drop_last(), q) > 0 {
            lemma_view_occ_contains(s.drop_last(), q);
            let i = choose|i: int| 0 <= i < s.drop_last().len() && s.drop_last()[i]@ == q;
            assert(s[i]@ == s[s.len() - 1]@);
        }
    }
}

proof fn lemma_view_occ_two(s: Seq<String>, i: int, j: int)
    requires
        0 <= i < j < s.len(),
        s[i]@ == s[j]@,
    ensures
        view_occ(s, s[i]@) >= 2,
    decreases s.len(),
{
    let q = s[i]@;
    if j == s.len() - 1 {
        assert(s.drop_last()[i]@ == q);
        lemma_view_occ_contains(s.drop_last(), q);
    } else {
        assert(s.drop_last()[i]@ == q && s.drop_last()[j]@ == q);
        lemma_view_occ_two(s.drop_last(), i, j);
    }
}

/// Over a strictly sorted sequence, the pair enumeration yields the pair
/// with views `(a, b)` exactly once when both views occur and `a` comes
/// first, and never otherwise.
proof fn lemma_spec_pairs_occ(s: Seq<String>, a: Seq<char>, b: Seq<char>)
    requires
        sorted_lt(s),
    ensures
        pair_occ(spec_pairs(s), a, b) == if contains_view(s, a) && contains_view(s, b) && lex_lt(
            a,
            b,
        ) {
            1int
        } else {
            0int
        },
    decreases s.len(),
{
    if s.len() == 0 {
    } else {
        let h = s[0];
        let t = s.skip(1);
        assert(forall|k: int| 0 <= k < t.len() ==> t[k] == s[k + 1]);
        assert(sorted_lt(t));
        assert(forall|k: int| 0 <= k < t.len() ==> lex_lt(h@, t[k]@));
        lemma_pair_occ_concat(t.map_values(|x: String| (h, x)), spec_pairs(t), a, b);
        lemma_head_pair_occ(h, t, a, b);
        lemma_spec_pairs_occ(t, a, b);
        lemma_contains_view_cons(s, a);
        lemma_contains_view_cons(s, b);
        lemma_view_occ_contains(t, a);
        lemma_view_occ_contains(t, b);
        lemma_lex_trichotomy(a, b);
        if h@ == a {
            // the head's view cannot reappear in the strictly larger tail
            if contains_view(t, a) {
                let k = choose|k: int| 0 <= k < t.len() && t[k]@ == a;
                lemma_lex_trichotomy(h@, t[k]@);
            }
            if contains_view(t, b) {
                let k = choose|k: int| 0 <= k < t.len() && t[k]@ == b;
                assert(lex_lt(a, b));
                assert(forall|i2: int, j2: int| 0 <= i2 < j2 < t.len() ==> t[i2]@ != t[j2]@) by {
                    assert forall|i2: int, j2: int|
                        0 <= i2 < j2 < t.len() implies t[i2]@ != t[j2]@ by {
                        lemma_lex_trichotomy(t[i2]@, t[j2]@);
                    }
                }
                lemma_view_occ_distinct(t, b);
            } else {
                if b == h@ {
                    lemma_lex_trichotomy(a, b);
                }
            }
        } else {
            if contains_view(t, a) && b == h@ && !contains_view(t, b) {
                // the head comes before everything, so `lex_lt(a, b)` fails
                let k = choose|k: int| 0 <= k < t.len() && t[k]@ == a;
                assert(lex_lt(b, a));
                lemma_lex_trichotomy(a, b);
            }
        }
    }
}

/// The number of commits of `cs` whose change set contains both `a` and
/// `b`.
pub open spec fn pair_count(cs: Seq<CommitInfo>, a: Seq<char>, b: Seq<char>) -> nat
    decreases cs.len(),
{
    if cs.len() == 0 {
        0
    } else {
        pair_count(cs.drop_last(), a, b) + if commit_touches(cs.last(), a) && commit_touches(
            cs.last(),
            b,
        ) {
            1nat
        } else {
            0nat
        }
    }
}

/// Co-change is symmetric: the count does not depend on the order in
/// which the two paths are given.
pub proof fn lemma_pair_count_symmetric(cs: Seq<CommitInfo>, a: Seq<char>, b: Seq<char>)
    ensures
        pair_count(cs, a, b) == pair_count(cs, b, a),
    decreases cs.len(),
{
    if cs.len() > 0 {
        lemma_pair_count_symmetric(cs.drop_last(), a, b);
    }
}

/// A pair's co-change count never exceeds the number of commits.
pub proof fn lemma_pair_count_le(cs: Seq<CommitInfo>, a: Seq<char>, b: Seq<char>)
    ensures
        pair_count(cs, a, b) <= cs.len(),
    decreases cs.len(),
{
    if cs.len() > 0 {
        lemma_pair_count_le(cs.drop_last(), a, b);
    }
}

/// Co-change coupling: for each canonical file pair `(a, b)` with `a`
/// lexicographically before `b`, the number of commits touching both;
/// pairs no commit couples are absent.
pub fn get_coupling(commits: &[CommitInfo]) -> (r: PairMap)
    requires
        wf_commits(commits@),
    ensures
        r.wf(),
        forall|a: Seq<char>, b: Seq<char>| #[trigger]
            r@.contains_key((a, b)) <==> (lex_lt(a, b) && pair_count(commits@, a, b) > 0),
        forall|a: Seq<char>, b: Seq<char>| #[trigger]
            r@.contains_key((a, b)) ==> r@[(a, b)] == pair_count(commits@, a, b),
{
    let n = commits.len();
    let mut r = PairMap::new();
    let mut i: usize = 0;
    proof {
        assert(commits@.take(0) =~= Seq::<CommitInfo>::empty());
    }
    while i < n
        invariant
            n == commits@.len(),
            wf_commits(commits@),
            i <= n,
            r.wf(),
            forall|a: Seq<char>, b: Seq<char>| #[trigger]
                r@.contains_key((a, b)) <==> (lex_lt(a, b) && pair_count(
                    commits@.take(i as int),
                    a,
                    b,
                ) > 0),
            forall|a: Seq<char>, b: Seq<char>| #[trigger]
                r@.contains_key((a, b)) ==> r@[(a, b)] == pair_count(commits@.take(i as int), a, b),
        decreases n - i,
    {
        let ghost pre = commits@.take(i as int);
        let c = &commits[i];
        let m = c.file_changes.len();
        let mut paths: Vec<String> = Vec::new();
        let mut j: usize = 0;
        while j < m
            invariant
                i < n,
                n == commits@.len(),
                *c == commits@[i as int],
                m == c.file_changes@.len(),
                j <= m,
                paths@.len() == j,
                forall|k: int| 0 <= k < j ==> (#[trigger] paths@[k])@ == c.file_changes@[k].path@,
            decreases m - j,
        {
            paths.push(c.file_changes[j].path.clone());
            j = j + 1;
        }
        proof {
            assert(wf_commit(commits@[i as int]));
            assert forall|q: Seq<char>|
                contains_view(paths@, q) <==> commit_touches(commits@[i as int], q) by {
                if contains_view(paths@, q) {
                    let k = choose|k: int| 0 <= k < paths@.len() && paths@[k]@ == q;
                    assert(c.file_changes@[k].path@ == q);
                }
                if commit_touches(commits@[i as int], q) {
                    let k = choose|k: int|
                        0 <= k < c.file_changes@.len() && c.file_changes@[k].path@ == q;
                    assert(paths@[k]@ == q);
                }
            }
            assert(forall|k1: int, k2: int|
                0 <= k1 < k2 < paths@.len() ==> paths@[k1]@ != paths@[k2]@);
            assert forall|q: Seq<char>| view_occ(paths@, q) <= 1 by {
                lemma_view_occ_distinct(paths@, q);
            }
        }
        let sorted = sort_paths(&paths);
        proof {
            assert(sorted_lt(sorted@)) by {
                assert forall|k1: int, k2: int|
                    0 <= k1 < k2 < sorted@.len() implies lex_lt(sorted@[k1]@, sorted@[k2]@) by {
                    assert(lex_leq(sorted@[k1]@, sorted@[k2]@));
                    if sorted@[k1]@ == sorted@[k2]@ {
                        lemma_view_occ_two(sorted@, k1, k2);
                        assert(view_occ(sorted@, sorted@[k1]@) == view_occ(paths@, sorted@[k1]@));
                        lemma_view_occ_distinct(paths@, sorted@[k1]@);
                    }
                }
            }
            assert forall|q: Seq<char>|
                contains_view(sorted@, q) <==> commit_touches(commits@[i as int], q) by {
                lemma_view_occ_contains(sorted@, q);
                lemma_view_occ_contains(paths@, q);
            }
        }
        let prs = pairs_of(&sorted);
        let np = prs.len();
        let mut k: usize = 0;
        proof {
            assert(prs@.take(0) =~= Seq::<(String, String)>::empty());
        }
        while k < np
            invariant
                i < n,
                n == commits@.len(),
                pre == commits@.take(i as int),
                *c == commits@[i as int],
                sorted_lt(sorted@),
                forall|q: Seq<char>|
                    contains_view(sorted@, q) <==> commit_touches(commits@[i as int], q),
                prs@ == spec_pairs(sorted@),
                np == prs@.len(),
                k <= np,
                r.wf(),
                forall|a: Seq<char>, b: Seq<char>| #[trigger]
                    r@.contains_key((a, b)) <==> ((lex_lt(a, b) && pair_count(pre, a, b) > 0)
                        || pair_occ(prs@.take(k as int), a, b) > 0),
                forall|a: Seq<char>, b: Seq<char>| #[trigger]
                    r@.contains_key((a, b)) ==> r@[(a, b)] == pair_count(pre, a, b) + pair_occ(
                        prs@.take(k as int),
                        a,
                        b,
                    ),
            decreases np - k,
        {
            let ghost ak = prs@[k as int].0@;
            let ghost bk = prs@[k as int].1@;
            proof {
                lemma_spec_pairs_occ(sorted@, ak, bk);
                lemma_pair_occ_step(prs@, k as int, ak, bk);
                lemma_pair_occ_prefix(prs@, k + 1, ak, bk);
                assert(pair_occ(prs@.take(k as int), ak, bk) == 0);
                lemma_pair_count_le(pre, ak, bk);
                assert(pre.len() == i as int);
            }
            let pr = &prs[k];
            r.bump(&pr.0, &pr.1);
            proof {
                assert forall|a: Seq<char>, b: Seq<char>|
                    !(a == ak && b == bk) implies pair_occ(prs@.take(k + 1), a, b) == pair_occ(
                    prs@.take(k as int),
                    a,
                    b,
                ) by {
                    lemma_pair_occ_step(prs@, k as int, a, b);
                }
            }
            k = k + 1;
        }
        proof {
            assert(prs@.take(np as int) =~= prs@);
            assert(commits@.take(i + 1).drop_last() =~= pre);
            assert(commits@.take(i + 1).last() == commits@[i as int]);
            assert forall|a: Seq<char>, b: Seq<char>| #[trigger]
                r@.contains_key((a, b)) <==> (lex_lt(a, b) && pair_count(commits@.take(i + 1), a, b)
                    > 0) by {
                lemma_spec_pairs_occ(sorted@, a, b);
            }
            assert forall|a: Seq<char>, b: Seq<char>| #[trigger]
                r@.contains_key((a, b)) implies r@[(a, b)] == pair_count(
                commits@.take(i + 1),
                a,
                b,
            ) by {
                lemma_spec_pairs_occ(sorted@, a, b);
            }
        }
        i = i + 1;
    }
    proof {
        assert(commits@.take(n as int) =~= commits@);
    }
    r
}

} // verus!
