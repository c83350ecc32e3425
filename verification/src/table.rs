//! Small association tables keyed by text or by pairs of texts.
use crate::text;
use vstd::prelude::*;

verus! {

broadcast use {
    vstd::seq_lib::group_seq_properties,
    vstd::map::group_map_axioms,
    vstd::set::group_set_axioms,
};

/// A key that can be compared and copied.
pub trait Label: View + Sized {
    fn equals(&self, other: &Self) -> (r: bool)
        ensures
            r == (self@ == other@),
    ;

    fn duplicate(&self) -> (r: Self)
        ensures
            r@ == self@,
    ;
}

impl Label for String {
    fn equals(&self, other: &Self) -> (r: bool) {
        text::same(self, other)
    }

    fn duplicate(&self) -> (r: Self) {
        self.clone()
    }
}

/// A table of entries; no key occurs twice in a well-formed one.
#[derive(Debug)]
pub struct Table<K: Label, V> {
    pub entries: Vec<(K, V)>,
}

pub open spec fn map_of<K: Label, V>(entries: Seq<(K, V)>) -> Map<K::V, V>
    decreases entries.len(),
{
    if entries.len() == 0 {
        Map::empty()
    } else {
        map_of(entries.drop_last()).insert(entries.last().0@, entries.last().1)
    }
}

pub open spec fn distinct_keys<K: Label, V>(entries: Seq<(K, V)>) -> bool {
    forall|i: int, j: int|
        0 <= i < j < entries.len() ==> (#[trigger] entries[i]).0@ != (#[trigger] entries[j]).0@
}

/// The entries of a map that satisfy a predicate.
pub open spec fn kept<A, V>(m: Map<A, V>, p: spec_fn(A, V) -> bool) -> Map<A, V> {
    m.restrict(m.dom().filter(|k: A| p(k, m[k])))
}

pub proof fn lemma_map_of<K: Label, V>(entries: Seq<(K, V)>)
    requires
        distinct_keys(entries),
    ensures
        map_of(entries).dom().finite(),
        map_of(entries).dom().len() == entries.len(),
        forall|i: int|
            0 <= i < entries.len() ==> map_of(entries).contains_key((#[trigger] entries[i]).0@),
        forall|i: int|
            0 <= i < entries.len() ==> map_of(entries)[(#[trigger] entries[i]).0@] == entries[i].1,
        forall|k: K::V| #[trigger]
            map_of(entries).contains_key(k) ==> exists|i: int|
                0 <= i < entries.len() && (#[trigger] entries[i]).0@ == k,
    decreases entries.len(),
{
    if entries.len() > 0 {
        let front = entries.drop_last();
        assert forall|i: int, j: int| 0 <= i < j < front.len() implies (#[trigger] front[i]).0@ != (
        #[trigger] front[j]).0@ by {
            assert(entries[i].0@ != entries[j].0@);
        }
        lemma_map_of(front);
        let last = entries.last();
        if map_of(front).contains_key(last.0@) {
            let i = choose|i: int| 0 <= i < front.len() && (#[trigger] front[i]).0@ == last.0@;
            assert(entries[i].0@ != entries[entries.len() - 1].0@);
        }
        assert forall|i: int| 0 <= i < entries.len() implies map_of(entries).contains_key(
            (#[trigger] entries[i]).0@,
        ) && map_of(entries)[entries[i].0@] == entries[i].1 by {
            if i < front.len() {
                assert(front[i] == entries[i]);
                assert(entries[i].0@ != entries[entries.len() - 1].0@);
            }
        }
        assert forall|k: K::V| #[trigger] map_of(entries).contains_key(k) implies exists|i: int|
            0 <= i < entries.len() && (#[trigger] entries[i]).0@ == k by {
            if k == last.0@ {
                assert(entries[entries.len() - 1].0@ == k);
            } else {
                assert(map_of(front).contains_key(k));
                let i = choose|i: int| 0 <= i < front.len() && (#[trigger] front[i]).0@ == k;
                assert(entries[i].0@ == k);
            }
        }
    }
}

pub proof fn lemma_same_map<A, V>(a: Map<A, V>, b: Map<A, V>)
    requires
        forall|k: A| #[trigger] a.contains_key(k) ==> b.contains_key(k) && a[k] == b[k],
        forall|k: A| #[trigger] b.contains_key(k) ==> a.contains_key(k),
    ensures
        a == b,
{
    assert(a.dom() =~= b.dom());
    assert(a =~= b);
}

proof fn lemma_replaced<K: Label, V>(before: Seq<(K, V)>, after: Seq<(K, V)>, at: int)
    requires
        distinct_keys(before),
        0 <= at < before.len(),
        after == before.update(at, after[at]),
        after[at].0@ == before[at].0@,
    ensures
        distinct_keys(after),
        map_of(after) == map_of(before).insert(after[at].0@, after[at].1),
{
    assert forall|a: int, b: int| 0 <= a < b < after.len() implies (#[trigger] after[a]).0@ != (
    #[trigger] after[b]).0@ by {
        assert(before[a].0@ != before[b].0@);
    }
    lemma_map_of(before);
    lemma_map_of(after);
    let target = map_of(before).insert(after[at].0@, after[at].1);
    assert forall|k: K::V| #[trigger] map_of(after).contains_key(k) implies target.contains_key(k)
        && map_of(after)[k] == target[k] by {
        let a = choose|a: int| 0 <= a < after.len() && (#[trigger] after[a]).0@ == k;
        assert(before[a].0@ == k);
        if a < at {
            assert(before[a].0@ != before[at].0@);
        } else if at < a {
            assert(before[at].0@ != before[a].0@);
        }
    }
    assert forall|k: K::V| #[trigger] target.contains_key(k) implies map_of(after).contains_key(
        k,
    ) by {
        if k == after[at].0@ {
            assert(map_of(after).contains_key(after[at].0@));
        } else {
            assert(map_of(before).contains_key(k));
            let a = choose|a: int| 0 <= a < before.len() && (#[trigger] before[a]).0@ == k;
            assert(after[a].0@ == k);
        }
    }
    lemma_same_map(map_of(after), target);
}

pub proof fn lemma_mapped_insert<A, V, W>(m: Map<A, V>, f: spec_fn(V) -> W, k: A, v: V)
    ensures
        m.insert(k, v).map_values(f) == m.map_values(f).insert(k, f(v)),
{
    lemma_same_map(m.insert(k, v).map_values(f), m.map_values(f).insert(k, f(v)));
}

pub proof fn lemma_mapped_remove<A, V, W>(m: Map<A, V>, f: spec_fn(V) -> W, k: A)
    ensures
        m.remove(k).map_values(f) == m.map_values(f).remove(k),
{
    lemma_same_map(m.remove(k).map_values(f), m.map_values(f).remove(k));
}

/// Keeping entries by what they stand for is the same before and after mapping them to it.
pub proof fn lemma_mapped_kept<A, V, W>(
    m: Map<A, V>,
    f: spec_fn(V) -> W,
    p: spec_fn(A, V) -> bool,
    q: spec_fn(A, W) -> bool,
)
    requires
        forall|k: A| #[trigger] m.contains_key(k) ==> p(k, m[k]) == q(k, f(m[k])),
    ensures
        kept(m, p).map_values(f) == kept(m.map_values(f), q),
{
    let a = kept(m, p).map_values(f);
    let b = kept(m.map_values(f), q);
    assert forall|k: A| #[trigger] a.contains_key(k) implies b.contains_key(k) && a[k] == b[k] by {
        assert(m.contains_key(k));
    }
    assert forall|k: A| #[trigger] b.contains_key(k) implies a.contains_key(k) by {
        assert(m.contains_key(k));
    }
    lemma_same_map(a, b);
}

/// Changing every value in place changes every value of the map.
pub proof fn lemma_changed_all<K: Label, V, W>(
    before: Seq<(K, V)>,
    after: Seq<(K, V)>,
    f: spec_fn(V) -> W,
    g: spec_fn(W) -> W,
)
    requires
        distinct_keys(before),
        after.len() == before.len(),
        forall|i: int|
            0 <= i < before.len() ==> (#[trigger] after[i]).0@ == before[i].0@ && f(after[i].1)
                == g(f(before[i].1)),
    ensures
        distinct_keys(after),
        map_of(after).map_values(f) == map_of(before).map_values(f).map_values(g),
{
    assert forall|a: int, b: int| 0 <= a < b < after.len() implies (#[trigger] after[a]).0@ != (
    #[trigger] after[b]).0@ by {
        assert(before[a].0@ != before[b].0@);
    }
    lemma_map_of(before);
    lemma_map_of(after);
    let x = map_of(after).map_values(f);
    let y = map_of(before).map_values(f).map_values(g);
    assert forall|k: K::V| #[trigger] x.contains_key(k) implies y.contains_key(k) && x[k] == y[k] by {
        assert(map_of(after).contains_key(k));
        let i = choose|i: int| 0 <= i < after.len() && (#[trigger] after[i]).0@ == k;
        assert(before[i].0@ == k);
    }
    assert forall|k: K::V| #[trigger] y.contains_key(k) implies x.contains_key(k) by {
        assert(map_of(before).contains_key(k));
        let i = choose|i: int| 0 <= i < before.len() && (#[trigger] before[i]).0@ == k;
        assert(after[i].0@ == k);
    }
    lemma_same_map(x, y);
}

impl<K: Label, V> View for Table<K, V> {
    type V = Map<K::V, V>;

    open spec fn view(&self) -> Map<K::V, V> {
        map_of(self.entries@)
    }
}

impl<K: Label, V> Table<K, V> {
    pub open spec fn wf(&self) -> bool {
        distinct_keys(self.entries@)
    }

    pub fn new() -> (r: Self)
        ensures
            r.wf(),
            r@ == Map::<K::V, V>::empty(),
    {
        Table { entries: Vec::new() }
    }

    pub fn len(&self) -> (r: usize)
        requires
            self.wf(),
        ensures
            r == self.entries@.len(),
            r == self@.dom().len(),
            self@.dom().finite(),
    {
        proof {
            lemma_map_of(self.entries@);
        }
        self.entries.len()
    }

    /// The position of a key.
    pub fn find(&self, key: &K) -> (r: Option<usize>)
        requires
            self.wf(),
        ensures
            r is Some <==> self@.contains_key(key@),
            r matches Some(i) ==> i < self.entries@.len() && self.entries@[i as int].0@ == key@
                && self.entries@[i as int].1 == self@[key@],
    {
        let mut i: usize = 0;
        while i < self.entries.len()
            invariant
                self.wf(),
                i <= self.entries.len(),
                forall|j: int| 0 <= j < i ==> (#[trigger] self.entries@[j]).0@ != key@,
            decreases self.entries.len() - i,
        {
            proof {
                lemma_map_of(self.entries@);
            }
            if self.entries[i].0.equals(key) {
                return Some(i);
            }
            i += 1;
        }
        proof {
            lemma_map_of(self.entries@);
        }
        None
    }

    pub fn has(&self, key: &K) -> (r: bool)
        requires
            self.wf(),
        ensures
            r == self@.contains_key(key@),
    {
        match self.find(key) {
            Some(_) => true,
            None => false,
        }
    }

    pub fn get(&self, key: &K) -> (r: Option<&V>)
        requires
            self.wf(),
        ensures
            r is Some <==> self@.contains_key(key@),
            r matches Some(v) ==> *v == self@[key@],
    {
        match self.find(key) {
            Some(i) => Some(&self.entries[i].1),
            None => None,
        }
    }

    /// Replaces the value of a key, or adds it at the end.
    pub fn insert(&mut self, key: K, value: V)
        requires
            old(self).wf(),
        ensures
            final(self).wf(),
            final(self)@ == old(self)@.insert(key@, value),
            final(self).entries@.len() == old(self).entries@.len() + (if old(
                self,
            )@.contains_key(key@) {
                0int
            } else {
                1int
            }),
    {
        let ghost before = self.entries@;
        proof {
            lemma_map_of(before);
        }
        match self.find(&key) {
            Some(i) => {
                self.entries.set(i, (key, value));
                proof {
                    lemma_replaced(before, self.entries@, i as int);
                }
            },
            None => {
                self.entries.push((key, value));
                proof {
                    let after = self.entries@;
                    assert(after.drop_last() == before);
                    assert forall|a: int, b: int| 0 <= a < b < after.len() implies (
                    #[trigger] after[a]).0@ != (#[trigger] after[b]).0@ by {
                        assert(map_of(before).contains_key(before[a].0@));
                        if b < before.len() {
                            assert(before[a].0@ != before[b].0@);
                        }
                    }
                }
            },
        }
    }

    /// Removes the entry at a position.
    pub fn remove_at(&mut self, i: usize) -> (r: (K, V))
        requires
            old(self).wf(),
            i < old(self).entries@.len(),
        ensures
            final(self).wf(),
            r == old(self).entries@[i as int],
            final(self).entries@ == old(self).entries@.remove(i as int),
            final(self)@ == old(self)@.remove(r.0@),
            old(self)@.contains_key(r.0@),
            old(self)@[r.0@] == r.1,
    {
        let ghost before = self.entries@;
        let r = self.entries.remove(i);
        proof {
            let after = self.entries@;
            lemma_map_of(before);
            assert forall|a: int, b: int| 0 <= a < b < after.len() implies (#[trigger] after[a]).0@
                != (#[trigger] after[b]).0@ by {
                let x = if a < i {
                    a
                } else {
                    a + 1
                };
                let y = if b < i {
                    b
                } else {
                    b + 1
                };
                assert(before[x].0@ != before[y].0@);
            }
            lemma_map_of(after);
            let target = map_of(before).remove(r.0@);
            assert forall|k: K::V| #[trigger] map_of(after).contains_key(k) implies
                target.contains_key(k) && map_of(after)[k] == target[k] by {
                let a = choose|a: int| 0 <= a < after.len() && (#[trigger] after[a]).0@ == k;
                let x = if a < i {
                    a
                } else {
                    a + 1
                };
                assert(before[x].0@ == k);
                if x < i {
                    assert(before[x].0@ != before[i as int].0@);
                } else {
                    assert(before[i as int].0@ != before[x].0@);
                }
            }
            assert forall|k: K::V| #[trigger] target.contains_key(k) implies map_of(
                after,
            ).contains_key(k) by {
                assert(map_of(before).contains_key(k));
                let x = choose|x: int| 0 <= x < before.len() && (#[trigger] before[x]).0@ == k;
                let a = if x < i {
                    x
                } else {
                    x - 1
                };
                assert(after[a].0@ == k);
            }
            lemma_same_map(map_of(after), target);
        }
        r
    }

    pub fn remove(&mut self, key: &K) -> (r: Option<V>)
        requires
            old(self).wf(),
        ensures
            final(self).wf(),
            final(self)@ == old(self)@.remove(key@),
            r is Some <==> old(self)@.contains_key(key@),
            r matches Some(v) ==> v == old(self)@[key@],
    {
        match self.find(key) {
            Some(i) => Some(self.remove_at(i).1),
            None => {
                assert(self@.remove(key@) =~= self@);
                None
            },
        }
    }

    /// The value of a key, to be changed in place.
    pub fn get_mut(&mut self, key: &K) -> (r: Option<&mut V>)
        requires
            old(self).wf(),
        ensures
            r is Some <==> old(self)@.contains_key(key@),
            r is None ==> *final(self) == *old(self),
            r matches Some(v) ==> {
                &&& *v == old(self)@[key@]
                &&& final(self).wf()
                &&& final(self)@ == old(self)@.insert(key@, *final(v))
                &&& final(self).entries@.len() == old(self).entries@.len()
            },
    {
        match self.find(key) {
            Some(i) => {
                let ghost before = self.entries@;
                let r = &mut self.entries[i].1;
                proof {
                    let after = before.update(i as int, (before[i as int].0, *final(r)));
                    lemma_replaced(before, after, i as int);
                }
                Some(r)
            },
            None => None,
        }
    }

    /// The value at a position, to be changed in place.
    pub fn value_mut(&mut self, i: usize) -> (r: &mut V)
        requires
            i < old(self).entries@.len(),
        ensures
            *r == old(self).entries@[i as int].1,
            final(self).entries@ == old(self).entries@.update(
                i as int,
                (old(self).entries@[i as int].0, *final(r)),
            ),
    {
        &mut self.entries[i].1
    }

    /// Keeps the entries for which `test` answers yes.
    pub fn retain<F: Fn(&K, &V) -> bool>(
        &mut self,
        test: F,
        Ghost(p): Ghost<spec_fn(K::V, V) -> bool>,
    )
        requires
            old(self).wf(),
            forall|k: &K, v: &V| #[trigger] test.requires((k, v)),
            forall|k: &K, v: &V, b: bool| #[trigger] test.ensures((k, v), b) ==> b == p(k@, *v),
        ensures
            final(self).wf(),
            final(self)@ == kept(old(self)@, p),
    {
        let ghost start = self@;
        let mut i: usize = 0;
        while i < self.entries.len()
            invariant
                self.wf(),
                i <= self.entries@.len(),
                forall|k: &K, v: &V| #[trigger] test.requires((k, v)),
                forall|k: &K, v: &V, b: bool| #[trigger] test.ensures((k, v), b) ==> b == p(k@, *v),
                forall|j: int|
                    0 <= j < i ==> p((#[trigger] self.entries@[j]).0@, self.entries@[j].1),
                forall|k: K::V| #[trigger]
                    self@.contains_key(k) ==> start.contains_key(k) && self@[k] == start[k],
                forall|k: K::V| #[trigger]
                    start.contains_key(k) && p(k, start[k]) ==> self@.contains_key(k),
            decreases self.entries@.len() - i,
        {
            proof {
                lemma_map_of(self.entries@);
            }
            let ghost key = self.entries@[i as int].0@;
            assert(self@.contains_key(key));
            if test(&self.entries[i].0, &self.entries[i].1) {
                i += 1;
            } else {
                assert(!p(key, start[key]));
                let _ = self.remove_at(i);
            }
        }
        proof {
            lemma_map_of(self.entries@);
            assert forall|k: K::V| self@.contains_key(k) implies p(k, self@[k]) by {
                let j = choose|j: int|
                    0 <= j < self.entries@.len() && (#[trigger] self.entries@[j]).0@ == k;
                assert(p(self.entries@[j].0@, self.entries@[j].1));
            }
            assert forall|k: K::V| #[trigger] self@.contains_key(k) implies kept(
                start,
                p,
            ).contains_key(k) && self@[k] == kept(start, p)[k] by {
                assert(start.contains_key(k));
            }
            assert forall|k: K::V| #[trigger] kept(
                start,
                p,
            ).contains_key(k) implies self@.contains_key(k) by {
                assert(start.contains_key(k));
            }
            lemma_same_map(self@, kept(start, p));
        }
    }

    /// The position of an entry of least rank among those that have one.
    pub fn least<F: Fn(&K, &V) -> Option<u128>>(
        &self,
        rank: F,
        Ghost(p): Ghost<spec_fn(K::V, V) -> Option<u128>>,
    ) -> (r: Option<usize>)
        requires
            self.wf(),
            forall|k: &K, v: &V| #[trigger] rank.requires((k, v)),
            forall|k: &K, v: &V, b: Option<u128>| #[trigger]
                rank.ensures((k, v), b) ==> b == p(k@, *v),
        ensures
            r is None <==> forall|k: K::V| #[trigger]
                self@.contains_key(k) ==> p(k, self@[k]) is None,
            r matches Some(i) ==> i < self.entries@.len() && is_least(
                self@,
                p,
                self.entries@[i as int].0@,
            ),
    {
        proof {
            lemma_map_of(self.entries@);
        }
        let mut best: Option<(usize, u128)> = None;
        let mut i: usize = 0;
        while i < self.entries.len()
            invariant
                self.wf(),
                i <= self.entries@.len(),
                forall|k: &K, v: &V| #[trigger] rank.requires((k, v)),
                forall|k: &K, v: &V, b: Option<u128>| #[trigger]
                    rank.ensures((k, v), b) ==> b == p(k@, *v),
                best is None ==> forall|j: int|
                    0 <= j < i ==> p((#[trigger] self.entries@[j]).0@, self.entries@[j].1) is None,
                best matches Some((at, value)) ==> {
                    &&& at < i
                    &&& p(self.entries@[at as int].0@, self.entries@[at as int].1) == Some(value)
                    &&& forall|j: int|
                        0 <= j < i ==> (p((#[trigger] self.entries@[j]).0@, self.entries@[j].1)
                            matches Some(other) ==> value <= other)
                },
            decreases self.entries@.len() - i,
        {
            let here = rank(&self.entries[i].0, &self.entries[i].1);
            if let Some(value) = here {
                let better = match best {
                    Some((_, least)) => value < least,
                    None => true,
                };
                if better {
                    best = Some((i, value));
                }
            }
            i += 1;
        }
        match best {
            Some((at, _)) => {
                proof {
                    let key = self.entries@[at as int].0@;
                    assert(self@.contains_key(key));
                    assert forall|k: K::V| #[trigger] self@.contains_key(k) implies (p(k, self@[k])
                        matches Some(other) ==> p(key, self@[key])->0 <= other) by {
                        let j = choose|j: int|
                            0 <= j < self.entries@.len() && (#[trigger] self.entries@[j]).0@ == k;
                        assert(p(self.entries@[j].0@, self.entries@[j].1) == p(k, self@[k]));
                    }
                }
                Some(at)
            },
            None => {
                proof {
                    assert forall|k: K::V| #[trigger] self@.contains_key(k) implies p(
                        k,
                        self@[k],
                    ) is None by {
                        let j = choose|j: int|
                            0 <= j < self.entries@.len() && (#[trigger] self.entries@[j]).0@ == k;
                        assert(p(self.entries@[j].0@, self.entries@[j].1) is None);
                    }
                }
                None
            },
        }
    }
}

/// Whether a key has a rank that no other ranked key goes below.
pub open spec fn is_least<A, V>(m: Map<A, V>, p: spec_fn(A, V) -> Option<u128>, key: A) -> bool {
    &&& m.contains_key(key)
    &&& p(key, m[key]) is Some
    &&& forall|k: A| #[trigger]
        m.contains_key(k) ==> (p(k, m[k]) matches Some(other) ==> p(key, m[key])->0 <= other)
}

} // verus!
