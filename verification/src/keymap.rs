//! An ordered map from byte strings to watch ids.

use vstd::prelude::*;

use crate::bytes;

verus! {

/// Lexicographic order of byte strings.
pub open spec fn lex_lt(a: Seq<u8>, b: Seq<u8>) -> bool
    decreases b.len(),
{
    if b.len() == 0 {
        false
    } else if a.len() == 0 {
        true
    } else if a[0] != b[0] {
        a[0] < b[0]
    } else {
        lex_lt(a.skip(1), b.skip(1))
    }
}

/// `k` is the least key of `m`.
pub open spec fn is_least(m: Map<Seq<u8>, u64>, k: Seq<u8>) -> bool {
    m.contains_key(k) && forall|j: Seq<u8>| #[trigger] m.contains_key(j) ==> j == k || lex_lt(k, j)
}

/// The values of `m` in ascending order of their keys.
pub open spec fn ids_in_order(m: Map<Seq<u8>, u64>) -> Seq<u64>
    decreases m.dom().len(),
{
    if m.dom().finite() && exists|k: Seq<u8>| is_least(m, k) {
        let k = choose|k: Seq<u8>| is_least(m, k);
        seq![m[k]] + ids_in_order(m.remove(k))
    } else {
        seq![]
    }
}

proof fn lemma_lex_irreflexive(a: Seq<u8>)
    ensures
        !lex_lt(a, a),
    decreases a.len(),
{
    if a.len() > 0 {
        lemma_lex_irreflexive(a.skip(1));
    }
}

proof fn lemma_lex_transitive(a: Seq<u8>, b: Seq<u8>, c: Seq<u8>)
    requires
        lex_lt(a, b),
        lex_lt(b, c),
    ensures
        lex_lt(a, c),
    decreases a.len(),
{
    if a.len() > 0 && a[0] == b[0] && b[0] == c[0] {
        lemma_lex_transitive(a.skip(1), b.skip(1), c.skip(1));
    }
}

proof fn lemma_lex_total(a: Seq<u8>, b: Seq<u8>)
    ensures
        lex_lt(a, b) || lex_lt(b, a) || a == b,
    decreases a.len(),
{
    if a.len() == 0 || b.len() == 0 {
        if a.len() == b.len() {
            assert(a =~= b);
        }
    } else if a[0] == b[0] {
        lemma_lex_total(a.skip(1), b.skip(1));
        if a.skip(1) == b.skip(1) {
            assert(a =~= seq![a[0]] + a.skip(1));
            assert(b =~= seq![b[0]] + b.skip(1));
        }
    }
}

/// A finite map that is not empty has a least key.
proof fn lemma_least_exists(m: Map<Seq<u8>, u64>)
    requires
        m.dom().finite(),
        m.dom().len() > 0,
    ensures
        exists|k: Seq<u8>| is_least(m, k),
    decreases m.dom().len(),
{
    let a = m.dom().choose();
    let rest = m.remove(a);
    assert(rest.dom() =~= m.dom().remove(a));
    if rest.dom().len() == 0 {
        assert forall|j: Seq<u8>| #[trigger] m.contains_key(j) implies j == a || lex_lt(a, j) by {
            if j != a {
                assert(rest.dom().contains(j));
            }
        }
        assert(is_least(m, a));
    } else {
        lemma_least_exists(rest);
        let b = choose|k: Seq<u8>| is_least(rest, k);
        assert(rest.contains_key(b));
        lemma_lex_total(a, b);
        let k = if lex_lt(a, b) {
            a
        } else {
            b
        };
        assert forall|j: Seq<u8>| #[trigger] m.contains_key(j) implies j == k || lex_lt(k, j) by {
            if j != a {
                assert(rest.contains_key(j));
                if j != b && k == a {
                    lemma_lex_transitive(a, b, j);
                }
            }
        }
        assert(is_least(m, k));
    }
}

/// The values in order are the values, and each once if no two keys share
/// one.
pub proof fn lemma_ids_in_order(m: Map<Seq<u8>, u64>)
    requires
        m.dom().finite(),
        forall|j: Seq<u8>, k: Seq<u8>| #[trigger]
            m.contains_key(j) && #[trigger] m.contains_key(k) && m[j] == m[k] ==> j == k,
    ensures
        ids_in_order(m).no_duplicates(),
        forall|id: u64|
            #![trigger ids_in_order(m).contains(id)]
            ids_in_order(m).contains(id) <==> exists|k: Seq<u8>| #[trigger] m.contains_key(k)
                && m[k] == id,
    decreases m.dom().len(),
{
    if m.dom().len() > 0 {
        lemma_least_exists(m);
    }
    let all = ids_in_order(m);
    if exists|k: Seq<u8>| is_least(m, k) {
        let k0 = choose|k: Seq<u8>| is_least(m, k);
        let rest = m.remove(k0);
        let tail = ids_in_order(rest);
        assert(rest.dom() =~= m.dom().remove(k0));
        lemma_ids_in_order(rest);
        assert(all =~= seq![m[k0]] + tail);
        if tail.contains(m[k0]) {
            let k = choose|k: Seq<u8>| #[trigger] rest.contains_key(k) && rest[k] == m[k0];
            assert(m.contains_key(k) && m.contains_key(k0));
        }
        assert forall|i: int, j: int| 0 <= i < j < all.len() implies all[i] != all[j] by {
            assert(all[j] == tail[j - 1]);
            if i > 0 {
                assert(all[i] == tail[i - 1]);
            } else {
                assert(tail.contains(tail[j - 1]));
            }
        }
        assert forall|id: u64| #[trigger] all.contains(id) implies exists|k: Seq<u8>| #[trigger]
            m.contains_key(k) && m[k] == id by {
            let i = all.index_of(id);
            if i > 0 {
                assert(tail[i - 1] == id);
                assert(tail.contains(id));
                let k = choose|k: Seq<u8>| #[trigger] rest.contains_key(k) && rest[k] == id;
                assert(m.contains_key(k));
            } else {
                assert(m.contains_key(k0));
            }
        }
        assert forall|id: u64| (exists|k: Seq<u8>| #[trigger] m.contains_key(k) && m[k] == id) implies #[trigger] all.contains(id) by {
            let k = choose|k: Seq<u8>| #[trigger] m.contains_key(k) && m[k] == id;
            if k == k0 {
                assert(all[0] == id);
            } else {
                assert(rest.contains_key(k));
                assert(tail.contains(id));
                let i = tail.index_of(id);
                assert(all[i + 1] == id);
            }
        }
    } else {
        assert(m.dom().len() == 0);
        assert forall|k: Seq<u8>| !#[trigger] m.contains_key(k) by {
            assert(!m.dom().contains(k));
        }
    }
}

type Pair = (Seq<u8>, u64);

spec fn sorted(p: Seq<Pair>) -> bool {
    forall|i: int, j: int| 0 <= i < j < p.len() ==> lex_lt(#[trigger] p[i].0, #[trigger] p[j].0)
}

spec fn has_key(p: Seq<Pair>, k: Seq<u8>) -> bool {
    exists|i: int| 0 <= i < p.len() && #[trigger] p[i].0 == k
}

spec fn index_of(p: Seq<Pair>, k: Seq<u8>) -> int {
    choose|i: int| 0 <= i < p.len() && #[trigger] p[i].0 == k
}

spec fn as_map(p: Seq<Pair>) -> Map<Seq<u8>, u64> {
    Map::new(|k: Seq<u8>| has_key(p, k), |k: Seq<u8>| p[index_of(p, k)].1)
}

proof fn lemma_index(p: Seq<Pair>, i: int)
    requires
        sorted(p),
        0 <= i < p.len(),
    ensures
        has_key(p, p[i].0),
        index_of(p, p[i].0) == i,
        as_map(p).contains_key(p[i].0),
        as_map(p)[p[i].0] == p[i].1,
{
    let k = index_of(p, p[i].0);
    assert(p[i].0 == p[i].0);
    assert(0 <= k < p.len() && p[k].0 == p[i].0);
    if k < i {
        lemma_lex_irreflexive(p[i].0);
        assert(lex_lt(p[k].0, p[i].0));
    } else if i < k {
        lemma_lex_irreflexive(p[i].0);
        assert(lex_lt(p[i].0, p[k].0));
    }
}

/// Cutting the first pair off a sorted list removes its key from the map.
proof fn lemma_tail(p: Seq<Pair>)
    requires
        sorted(p),
        p.len() > 0,
    ensures
        sorted(p.skip(1)),
        as_map(p).remove(p[0].0) == as_map(p.skip(1)),
        !as_map(p.skip(1)).contains_key(p[0].0),
{
    let t = p.skip(1);
    assert(sorted(t)) by {
        assert forall|i: int, j: int| 0 <= i < j < t.len() implies lex_lt(
            #[trigger] t[i].0,
            #[trigger] t[j].0,
        ) by {
            assert(lex_lt(p[i + 1].0, p[j + 1].0));
        }
    }
    lemma_index(p, 0);
    assert forall|k: Seq<u8>| has_key(t, k) implies has_key(p, k) && k != p[0].0 && as_map(p)[k]
        == as_map(t)[k] by {
        let i = index_of(t, k);
        assert(t[i].0 == p[i + 1].0);
        lemma_index(p, i + 1);
        lemma_index(t, i);
        assert(lex_lt(p[0].0, p[i + 1].0));
        lemma_lex_irreflexive(k);
    }
    assert forall|k: Seq<u8>| has_key(p, k) && k != p[0].0 implies has_key(t, k) by {
        let i = index_of(p, k);
        assert(t[i - 1].0 == k);
    }
    assert(as_map(p).remove(p[0].0) =~= as_map(t));
}

proof fn lemma_size(p: Seq<Pair>)
    requires
        sorted(p),
    ensures
        as_map(p).dom().finite(),
        as_map(p).dom().len() == p.len(),
    decreases p.len(),
{
    if p.len() == 0 {
        assert(as_map(p) =~= Map::empty());
        assert(as_map(p).dom() =~= Set::empty());
    } else {
        lemma_tail(p);
        lemma_size(p.skip(1));
        lemma_index(p, 0);
        let m = as_map(p);
        assert(m.remove(p[0].0).dom() =~= m.dom().remove(p[0].0));
        assert(m.dom() =~= m.dom().remove(p[0].0).insert(p[0].0));
    }
}

/// A sorted list holds the map's values in ascending order of the keys.
proof fn lemma_order(p: Seq<Pair>)
    requires
        sorted(p),
    ensures
        ids_in_order(as_map(p)) == p.map_values(|x: Pair| x.1),
    decreases p.len(),
{
    let m = as_map(p);
    lemma_size(p);
    if p.len() == 0 {
        if exists|k: Seq<u8>| is_least(m, k) {
            let k = choose|k: Seq<u8>| is_least(m, k);
            assert(has_key(p, k));
        }
        assert(ids_in_order(m) =~= p.map_values(|x: Pair| x.1));
    } else {
        let k0 = p[0].0;
        lemma_index(p, 0);
        assert(is_least(m, k0)) by {
            assert forall|j: Seq<u8>| m.contains_key(j) implies j == k0 || lex_lt(k0, j) by {
                let i = index_of(p, j);
                assert(has_key(p, j));
                if i > 0 {
                    assert(lex_lt(p[0].0, p[i].0));
                }
            }
        }
        let k = choose|k: Seq<u8>| is_least(m, k);
        assert(k == k0) by {
            if k != k0 {
                assert(m.contains_key(k));
                assert(m.contains_key(k0));
                lemma_lex_transitive(k, k0, k);
                lemma_lex_irreflexive(k);
            }
        }
        lemma_tail(p);
        lemma_order(p.skip(1));
        assert(ids_in_order(m) =~= p.map_values(|x: Pair| x.1));
    }
}

/// An ordered map from byte strings to watch ids, as a list sorted by key.
pub struct KeyMap {
    entries: Vec<(Vec<u8>, u64)>,
}

impl View for KeyMap {
    type V = Map<Seq<u8>, u64>;

    closed spec fn view(&self) -> Map<Seq<u8>, u64> {
        as_map(self.pairs())
    }
}

/// Whether `a` comes before `b`.
fn less(a: &[u8], b: &[u8]) -> (yes: bool)
    ensures
        yes == lex_lt(a@, b@),
{
    let mut i: usize = 0;
    assert(a@.skip(0) =~= a@);
    assert(b@.skip(0) =~= b@);
    while i < a.len() && i < b.len()
        invariant
            i <= a.len(),
            i <= b.len(),
            lex_lt(a@, b@) == lex_lt(a@.skip(i as int), b@.skip(i as int)),
        decreases a.len() - i,
    {
        if a[i] != b[i] {
            return a[i] < b[i];
        }
        assert(a@.skip(i as int).skip(1) =~= a@.skip(i + 1));
        assert(b@.skip(i as int).skip(1) =~= b@.skip(i + 1));
        i = i + 1;
    }
    i < b.len()
}

impl KeyMap {
    spec fn pairs(&self) -> Seq<Pair> {
        self.entries@.map_values(|e: (Vec<u8>, u64)| (e.0@, e.1))
    }

    /// The keys stand in ascending order, each once.
    pub closed spec fn wf(&self) -> bool {
        sorted(self.pairs())
    }

    pub fn new() -> (m: KeyMap)
        ensures
            m.wf(),
            m@ == Map::<Seq<u8>, u64>::empty(),
    {
        let m = KeyMap { entries: Vec::new() };
        assert(m@ =~= Map::<Seq<u8>, u64>::empty());
        m
    }

    /// Number of keys below `key`; what follows is at or above it.
    fn lower_bound(&self, key: &[u8]) -> (n: usize)
        requires
            self.wf(),
        ensures
            n <= self.entries@.len(),
            forall|i: int| 0 <= i < n ==> lex_lt(#[trigger] self.pairs()[i].0, key@),
            forall|i: int|
                n <= i < self.entries@.len() ==> !lex_lt(#[trigger] self.pairs()[i].0, key@),
    {
        let ghost p = self.pairs();
        let mut lo: usize = 0;
        let mut hi: usize = self.entries.len();
        while lo < hi
            invariant
                p == self.pairs(),
                sorted(p),
                p.len() == self.entries@.len(),
                lo <= hi <= p.len(),
                forall|i: int| 0 <= i < lo ==> lex_lt(#[trigger] p[i].0, key@),
                forall|i: int| hi <= i < p.len() ==> !lex_lt(#[trigger] p[i].0, key@),
            decreases hi - lo,
        {
            let mid: usize = lo + (hi - lo) / 2;
            assert(p[mid as int].0 == self.entries@[mid as int].0@);
            if less(self.entries[mid].0.as_slice(), key) {
                assert forall|i: int| 0 <= i < mid + 1 implies lex_lt(#[trigger] p[i].0, key@) by {
                    if i < mid {
                        lemma_lex_transitive(p[i].0, p[mid as int].0, key@);
                    }
                }
                lo = mid + 1;
            } else {
                assert forall|i: int| mid <= i < p.len() implies !lex_lt(
                    #[trigger] p[i].0,
                    key@,
                ) by {
                    if i > mid && lex_lt(p[i].0, key@) {
                        lemma_lex_transitive(p[mid as int].0, p[i].0, key@);
                    }
                }
                hi = mid;
            }
        }
        lo
    }

    /// Where `key` stands, if it does.
    fn find(&self, key: &[u8]) -> (r: (usize, bool))
        requires
            self.wf(),
        ensures
            r.0 <= self.entries@.len(),
            forall|i: int| 0 <= i < r.0 ==> lex_lt(#[trigger] self.pairs()[i].0, key@),
            r.1 == self@.contains_key(key@),
            r.1 ==> r.0 < self.entries@.len() && self.pairs()[r.0 as int].0 == key@,
            !r.1 ==> forall|i: int|
                r.0 <= i < self.entries@.len() ==> lex_lt(key@, #[trigger] self.pairs()[i].0),
    {
        let n = self.lower_bound(key);
        let ghost p = self.pairs();
        assert(p.len() == self.entries@.len());
        if n < self.entries.len() && bytes::bytes_eq(self.entries[n].0.as_slice(), key) {
            assert(p[n as int].0 == key@);
            proof {
                lemma_index(p, n as int);
            }
            (n, true)
        } else {
            assert forall|i: int| n <= i < p.len() implies lex_lt(key@, #[trigger] p[i].0) by {
                lemma_lex_total(key@, p[i].0);
                if p[i].0 == key@ && i > n {
                    assert(lex_lt(p[n as int].0, p[i].0));
                }
                if i == n {
                    assert(p[i].0 == self.entries@[i].0@);
                }
            }
            proof {
                if has_key(p, key@) {
                    let i = index_of(p, key@);
                    assert(p[i].0 == key@);
                    lemma_lex_irreflexive(key@);
                }
            }
            (n, false)
        }
    }

    pub fn get(&self, key: &[u8]) -> (id: Option<u64>)
        requires
            self.wf(),
        ensures
            id == if self@.contains_key(key@) {
                Some(self@[key@])
            } else {
                None
            },
    {
        let (n, found) = self.find(key);
        if found {
            proof {
                lemma_index(self.pairs(), n as int);
            }
            Some(self.entries[n].1)
        } else {
            None
        }
    }

    /// Add `key` unless it is already there.  Returns whether it was added.
    pub fn insert_vacant(&mut self, key: &[u8], id: u64) -> (added: bool)
        requires
            old(self).wf(),
        ensures
            final(self).wf(),
            added == !old(self)@.contains_key(key@),
            final(self)@ == if added {
                old(self)@.insert(key@, id)
            } else {
                old(self)@
            },
    {
        let (n, found) = self.find(key);
        if found {
            return false;
        }
        let ghost p = self.pairs();
        self.entries.insert(n, (bytes::to_vec(key), id));
        let ghost q = self.pairs();
        proof {
            assert(q =~= p.insert(n as int, (key@, id)));
            assert(sorted(q)) by {
                assert forall|i: int, j: int| 0 <= i < j < q.len() implies lex_lt(
                    #[trigger] q[i].0,
                    #[trigger] q[j].0,
                ) by {
                    let pi = if i < n {
                        i
                    } else {
                        i - 1
                    };
                    let pj = if j < n {
                        j
                    } else {
                        j - 1
                    };
                    if i == n {
                        assert(lex_lt(key@, p[pj].0));
                    } else if j == n {
                        assert(lex_lt(p[pi].0, key@));
                    } else {
                        assert(lex_lt(p[pi].0, p[pj].0));
                    }
                }
            }
            lemma_index(q, n as int);
            assert forall|k: Seq<u8>| #[trigger] has_key(q, k) implies k == key@ || (has_key(p, k)
                && as_map(p)[k] == as_map(q)[k]) by {
                let i = index_of(q, k);
                lemma_index(q, i);
                if i != n {
                    let pi = if i < n {
                        i
                    } else {
                        i - 1
                    };
                    assert(p[pi].0 == k);
                    lemma_index(p, pi);
                }
            }
            assert forall|k: Seq<u8>| #[trigger] has_key(p, k) implies has_key(q, k) by {
                let i = index_of(p, k);
                let qi = if i < n {
                    i
                } else {
                    i + 1
                };
                assert(q[qi].0 == k);
            }
            assert(as_map(q) =~= as_map(p).insert(key@, id));
        }
        true
    }

    pub fn remove(&mut self, key: &[u8])
        requires
            old(self).wf(),
        ensures
            final(self).wf(),
            final(self)@ == old(self)@.remove(key@),
    {
        let (n, found) = self.find(key);
        if !found {
            assert(self@.remove(key@) =~= self@);
            return ;
        }
        let ghost p = self.pairs();
        self.entries.remove(n);
        let ghost q = self.pairs();
        proof {
            assert(q =~= p.remove(n as int));
            assert(sorted(q)) by {
                assert forall|i: int, j: int| 0 <= i < j < q.len() implies lex_lt(
                    #[trigger] q[i].0,
                    #[trigger] q[j].0,
                ) by {
                    let pi = if i < n {
                        i
                    } else {
                        i + 1
                    };
                    let pj = if j < n {
                        j
                    } else {
                        j + 1
                    };
                    assert(lex_lt(p[pi].0, p[pj].0));
                }
            }
            lemma_index(p, n as int);
            assert forall|k: Seq<u8>| #[trigger] has_key(q, k) implies k != key@ && has_key(p, k)
                && as_map(p)[k] == as_map(q)[k] by {
                let i = index_of(q, k);
                lemma_index(q, i);
                let pi = if i < n {
                    i
                } else {
                    i + 1
                };
                assert(p[pi].0 == k);
                lemma_index(p, pi);
            }
            assert forall|k: Seq<u8>| #[trigger] has_key(p, k) && k != key@ implies has_key(
                q,
                k,
            ) by {
                let i = index_of(p, k);
                let qi = if i < n {
                    i
                } else {
                    i - 1
                };
                assert(q[qi].0 == k);
            }
            assert(as_map(q) =~= as_map(p).remove(key@));
        }
    }

    pub proof fn lemma_finite(&self)
        requires
            self.wf(),
        ensures
            self@.dom().finite(),
    {
        lemma_size(self.pairs());
    }

    pub fn len(&self) -> (n: usize)
        requires
            self.wf(),
        ensures
            self@.dom().finite(),
            n == self@.dom().len(),
    {
        proof {
            lemma_size(self.pairs());
        }
        self.entries.len()
    }

    pub fn clear(&mut self)
        ensures
            final(self).wf(),
            final(self)@ == Map::<Seq<u8>, u64>::empty(),
    {
        self.entries.clear();
        assert(self@ =~= Map::<Seq<u8>, u64>::empty());
    }

    /// The ids in ascending order of their keys.
    pub fn ids(&self) -> (v: Vec<u64>)
        requires
            self.wf(),
        ensures
            v@ == ids_in_order(self@),
    {
        let mut v: Vec<u64> = Vec::new();
        let mut i: usize = 0;
        let ghost p = self.pairs();
        while i < self.entries.len()
            invariant
                i <= self.entries@.len(),
                p == self.pairs(),
                v@ == p.take(i as int).map_values(|x: Pair| x.1),
            decreases self.entries.len() - i,
        {
            v.push(self.entries[i].1);
            i = i + 1;
            assert(v@ =~= p.take(i as int).map_values(|x: Pair| x.1));
        }
        proof {
            assert(p.take(i as int) =~= p);
            lemma_order(p);
        }
        v
    }
}

/// Byte strings are ordered by the first byte in which they differ, and one
/// that begins another comes before it.
pub proof fn law_order_of_byte_strings(p: Seq<u8>, x: u8, y: u8, a: Seq<u8>, b: Seq<u8>)
    ensures
        x < y ==> lex_lt(p + seq![x] + a, p + seq![y] + b),
        x > y ==> !lex_lt(p + seq![x] + a, p + seq![y] + b),
        lex_lt(p, p + seq![y] + b),
        !lex_lt(p + seq![x] + a, p),
    decreases p.len(),
{
    let s = p + seq![x] + a;
    let t = p + seq![y] + b;
    if p.len() > 0 {
        law_order_of_byte_strings(p.skip(1), x, y, a, b);
        assert(s.skip(1) =~= p.skip(1) + seq![x] + a);
        assert(t.skip(1) =~= p.skip(1) + seq![y] + b);
        assert(s[0] == p[0] && t[0] == p[0]);
    } else {
        assert(s[0] == x && t[0] == y);
    }
}

/// The values come in the order of their keys: the one with the least key
/// first, then the others.
pub proof fn law_values_come_in_order(m: Map<Seq<u8>, u64>, k: Seq<u8>)
    requires
        m.dom().finite(),
        m.contains_key(k),
        forall|j: Seq<u8>| #[trigger] m.contains_key(j) ==> j == k || lex_lt(k, j),
    ensures
        ids_in_order(m).len() > 0,
        ids_in_order(m)[0] == m[k],
        ids_in_order(m).skip(1) == ids_in_order(m.remove(k)),
{
    assert(is_least(m, k));
    let c = choose|c: Seq<u8>| is_least(m, c);
    if c != k {
        assert(m.contains_key(c) && m.contains_key(k));
        lemma_lex_transitive(c, k, c);
        lemma_lex_irreflexive(c);
    }
    assert((seq![m[k]] + ids_in_order(m.remove(k))).skip(1) =~= ids_in_order(m.remove(k)));
}

} // verus!
