//! A small map that keeps its pairs in the order in which their keys came.

use crate::bytes::bytes_eq;
use vstd::prelude::*;

verus! {

/// Whether some pair of `s` has the key `k`.
pub open spec fn has_key<A, B>(s: Seq<(A, B)>, k: A) -> bool {
    exists|i: int| 0 <= i < s.len() && (#[trigger] s[i]).0 == k
}

/// The offset of a pair of `s` with the key `k`, where there is one.
pub open spec fn index_of<A, B>(s: Seq<(A, B)>, k: A) -> int {
    choose|i: int| 0 <= i < s.len() && (#[trigger] s[i]).0 == k
}

/// Whether no key stands twice in `s`.
pub open spec fn distinct_keys<A, B>(s: Seq<(A, B)>) -> bool {
    forall|i: int, j: int| 0 <= i < j < s.len() ==> (#[trigger] s[i]).0 != (#[trigger] s[j]).0
}

/// The map that takes each key of `s` to the value that stands beside it.
pub open spec fn to_map<A, B>(s: Seq<(A, B)>) -> Map<A, B> {
    Map::new(|k: A| has_key(s, k), |k: A| s[index_of(s, k)].1)
}

/// `s` with `v` under `k`: in the place of the pair that had `k`, or else at
/// the end.
pub open spec fn put<A, B>(s: Seq<(A, B)>, k: A, v: B) -> Seq<(A, B)> {
    if has_key(s, k) {
        s.update(index_of(s, k), (k, v))
    } else {
        s.push((k, v))
    }
}

/// `s` without the pair that has the key `k`, if there is one.
pub open spec fn without<A, B>(s: Seq<(A, B)>, k: A) -> Seq<(A, B)> {
    if has_key(s, k) {
        s.remove(index_of(s, k))
    } else {
        s
    }
}

/// The values of `s`, in order.
pub open spec fn values_of<A, B>(s: Seq<(A, B)>) -> Seq<B> {
    Seq::new(s.len(), |i: int| s[i].1)
}

/// With distinct keys, the pair at offset `i` is the one found under its key.
pub proof fn lemma_index_of<A, B>(s: Seq<(A, B)>, i: int)
    requires
        distinct_keys(s),
        0 <= i < s.len(),
    ensures
        has_key(s, s[i].0),
        index_of(s, s[i].0) == i,
        to_map(s).contains_key(s[i].0),
        to_map(s)[s[i].0] == s[i].1,
{
    let j = index_of(s, s[i].0);
    assert(0 <= j < s.len() && s[j].0 == s[i].0);
    if j < i {
        assert(s[j].0 != s[i].0);
    } else if i < j {
        assert(s[i].0 != s[j].0);
    }
}

/// `put` keeps the keys distinct and is `insert` on the map.
pub proof fn lemma_put<A, B>(s: Seq<(A, B)>, k: A, v: B)
    requires
        distinct_keys(s),
    ensures
        distinct_keys(put(s, k, v)),
        to_map(put(s, k, v)) == to_map(s).insert(k, v),
        has_key(put(s, k, v), k),
        put(s, k, v).len() == if has_key(s, k) { s.len() } else { s.len() + 1 },
{
    let t = put(s, k, v);
    if has_key(s, k) {
        let p = index_of(s, k);
        assert(0 <= p < s.len() && s[p].0 == k);
        assert(t[p].0 == k);
        assert forall|i: int, j: int| 0 <= i < j < t.len() implies (#[trigger] t[i]).0 != (
        #[trigger] t[j]).0 by {
            assert(t[i].0 == s[i].0);
            assert(t[j].0 == s[j].0);
        }
        assert forall|q: A| has_key(t, q) <==> has_key(s, q) by {
            if has_key(t, q) {
                let i = index_of(t, q);
                assert(s[i].0 == q);
            }
            if has_key(s, q) {
                let i = index_of(s, q);
                assert(t[i].0 == q);
            }
        }
        assert forall|q: A| has_key(t, q) implies #[trigger] to_map(t)[q] == to_map(s).insert(
            k,
            v,
        )[q] by {
            let i = index_of(t, q);
            lemma_index_of(t, i);
            if q == k {
                lemma_index_of(t, p);
            } else {
                assert(s[i].0 == q);
                lemma_index_of(s, i);
            }
        }
        assert(to_map(t) =~= to_map(s).insert(k, v));
    } else {
        let n = s.len() as int;
        assert(t[n].0 == k);
        assert forall|i: int, j: int| 0 <= i < j < t.len() implies (#[trigger] t[i]).0 != (
        #[trigger] t[j]).0 by {
            if j == n {
                assert(s[i].0 != k);
            } else {
                assert(t[i].0 == s[i].0);
                assert(t[j].0 == s[j].0);
            }
        }
        assert forall|q: A| has_key(t, q) <==> (q == k || has_key(s, q)) by {
            if has_key(t, q) {
                let i = index_of(t, q);
                if i < n {
                    assert(s[i].0 == q);
                }
            }
            if has_key(s, q) {
                let i = index_of(s, q);
                assert(t[i].0 == q);
            }
        }
        assert forall|q: A| has_key(t, q) implies #[trigger] to_map(t)[q] == to_map(s).insert(
            k,
            v,
        )[q] by {
            let i = index_of(t, q);
            lemma_index_of(t, i);
            if q == k {
                lemma_index_of(t, n);
            } else {
                assert(s[i].0 == q);
                lemma_index_of(s, i);
            }
        }
        assert(to_map(t) =~= to_map(s).insert(k, v));
    }
}

/// `without` keeps the keys distinct and is `remove` on the map.
pub proof fn lemma_without<A, B>(s: Seq<(A, B)>, k: A)
    requires
        distinct_keys(s),
    ensures
        distinct_keys(without(s, k)),
        !has_key(without(s, k), k),
        to_map(without(s, k)) == to_map(s).remove(k),
{
    let t = without(s, k);
    if has_key(s, k) {
        let p = index_of(s, k);
        assert(0 <= p < s.len() && s[p].0 == k);
        assert forall|i: int| 0 <= i < t.len() implies #[trigger] t[i] == s[if i < p {
            i
        } else {
            i + 1
        }] by {}
        assert forall|i: int, j: int| 0 <= i < j < t.len() implies (#[trigger] t[i]).0 != (
        #[trigger] t[j]).0 by {
            let a = if i < p { i } else { i + 1 };
            let b = if j < p { j } else { j + 1 };
            assert(s[a].0 != s[b].0);
        }
        assert forall|q: A| has_key(t, q) <==> (q != k && has_key(s, q)) by {
            if has_key(t, q) {
                let i = index_of(t, q);
                let a = if i < p { i } else { i + 1 };
                assert(s[a].0 == q);
                if q == k {
                    lemma_index_of(s, a);
                }
            }
            if q != k && has_key(s, q) {
                let a = index_of(s, q);
                let i = if a < p { a } else { a - 1 };
                assert(t[i].0 == q);
            }
        }
        assert forall|q: A| has_key(t, q) implies #[trigger] to_map(t)[q] == to_map(s)[q] by {
            let i = index_of(t, q);
            lemma_index_of(t, i);
            let a = if i < p { i } else { i + 1 };
            assert(s[a].0 == q);
            lemma_index_of(s, a);
        }
        assert(to_map(t) =~= to_map(s).remove(k));
    } else {
        assert(to_map(t) =~= to_map(s).remove(k));
    }
}

/// A key that can be compared when the program runs.
pub trait Key: View + Sized {
    /// Whether the two keys have the same value.
    fn same(&self, other: &Self) -> (r: bool)
        ensures
            r == (self@ == other@),
    ;
}

impl Key for String {
    fn same(&self, other: &Self) -> (r: bool) {
        *self == *other
    }
}

impl Key for Vec<u8> {
    fn same(&self, other: &Self) -> (r: bool) {
        bytes_eq(self.as_slice(), other.as_slice())
    }
}

/// A map from keys to values, held as a list of pairs with distinct keys.
#[derive(Debug, PartialEq, Eq)]
pub struct AssocList<K, W> {
    items: Vec<(K, W)>,
}

impl<K: Key, W: View> AssocList<K, W> {
    /// The pairs, each by its value, in the order in which the keys came.
    pub closed spec fn pairs(&self) -> Seq<(K::V, W::V)> {
        Seq::new(self.items@.len(), |i: int| (self.items@[i].0@, self.items@[i].1@))
    }

    /// No key stands twice.
    pub open spec fn wf(&self) -> bool {
        distinct_keys(self.pairs())
    }

    /// The map that the list stands for.
    pub open spec fn view(&self) -> Map<K::V, W::V> {
        to_map(self.pairs())
    }

    /// The empty map.
    pub fn new() -> (r: Self)
        ensures
            r.wf(),
            r.pairs() == Seq::<(K::V, W::V)>::empty(),
    {
        let r = AssocList { items: Vec::new() };
        assert(r.pairs() =~= Seq::<(K::V, W::V)>::empty());
        r
    }

    /// Whether no key stands twice.
    pub fn is_wf(&self) -> (r: bool)
        ensures
            r == self.wf(),
    {
        let mut i: usize = 0;
        while i < self.items.len()
            invariant
                0 <= i <= self.items.len(),
                self.pairs().len() == self.items.len(),
                forall|a: int, b: int|
                    0 <= a < b < i ==> (#[trigger] self.pairs()[a]).0 != (
                    #[trigger] self.pairs()[b]).0,
            decreases self.items.len() - i,
        {
            let mut j: usize = 0;
            while j < i
                invariant
                    0 <= j <= i < self.items.len(),
                    self.pairs().len() == self.items.len(),
                    forall|a: int| 0 <= a < j ==> (#[trigger] self.pairs()[a]).0 != self.pairs()[i as int].0,
                decreases i - j,
            {
                if self.items[j].0.same(&self.items[i].0) {
                    assert(self.pairs()[j as int].0 == self.pairs()[i as int].0);
                    return false;
                }
                j += 1;
            }
            i += 1;
        }
        true
    }

    /// The number of pairs.
    pub fn len(&self) -> (r: usize)
        ensures
            r == self.pairs().len(),
    {
        self.items.len()
    }

    /// Where the key stands, if it is there.
    pub fn position(&self, key: &K) -> (r: Option<usize>)
        requires
            self.wf(),
        ensures
            match r {
                Some(i) => has_key(self.pairs(), key@) && i == index_of(self.pairs(), key@) && i
                    < self.pairs().len(),
                None => !has_key(self.pairs(), key@),
            },
    {
        let mut i: usize = 0;
        while i < self.items.len()
            invariant
                self.wf(),
                0 <= i <= self.items.len(),
                self.pairs().len() == self.items.len(),
                forall|j: int| 0 <= j < i ==> (#[trigger] self.pairs()[j]).0 != key@,
            decreases self.items.len() - i,
        {
            if self.items[i].0.same(key) {
                proof {
                    assert(self.pairs()[i as int].0 == key@);
                    lemma_index_of(self.pairs(), i as int);
                }
                return Some(i);
            }
            i += 1;
        }
        None
    }

    /// The value under the key, if it is there.
    pub fn get(&self, key: &K) -> (r: Option<&W>)
        requires
            self.wf(),
        ensures
            match r {
                Some(v) => self@.contains_key(key@) && v@ == self@[key@],
                None => !self@.contains_key(key@),
            },
    {
        match self.position(key) {
            Some(i) => {
                proof {
                    lemma_index_of(self.pairs(), i as int);
                }
                Some(&self.items[i].1)
            },
            None => None,
        }
    }

    /// The pair at offset `i`.
    pub fn at(&self, i: usize) -> (r: (&K, &W))
        requires
            i < self.pairs().len(),
        ensures
            (r.0@, r.1@) == self.pairs()[i as int],
    {
        (&self.items[i].0, &self.items[i].1)
    }

    /// Puts `value` under `key`.
    pub fn insert(&mut self, key: K, value: W)
        requires
            old(self).wf(),
        ensures
            final(self).wf(),
            final(self).pairs() == put(old(self).pairs(), key@, value@),
            final(self)@ == old(self)@.insert(key@, value@),
    {
        proof {
            lemma_put(self.pairs(), key@, value@);
        }
        match self.position(&key) {
            Some(i) => {
                self.items.set(i, (key, value));
                assert(self.pairs() =~= put(old(self).pairs(), key@, value@));
            },
            None => {
                self.items.push((key, value));
                assert(self.pairs() =~= put(old(self).pairs(), key@, value@));
            },
        }
    }

    /// Takes the pair under `key` out, if there is one, and returns its value.
    pub fn remove(&mut self, key: &K) -> (r: Option<W>)
        requires
            old(self).wf(),
        ensures
            final(self).wf(),
            final(self).pairs() == without(old(self).pairs(), key@),
            final(self)@ == old(self)@.remove(key@),
            match r {
                Some(v) => old(self)@.contains_key(key@) && v@ == old(self)@[key@],
                None => !old(self)@.contains_key(key@),
            },
    {
        proof {
            lemma_without(self.pairs(), key@);
        }
        match self.position(key) {
            Some(i) => {
                proof {
                    lemma_index_of(self.pairs(), i as int);
                }
                let pair = self.items.remove(i);
                assert(self.pairs() =~= without(old(self).pairs(), key@));
                Some(pair.1)
            },
            None => None,
        }
    }

    /// Hands out the pairs and leaves the map empty.
    pub fn take(&mut self) -> (r: Vec<(K, W)>)
        ensures
            final(self).wf(),
            final(self).pairs() == Seq::<(K::V, W::V)>::empty(),
            r@.len() == old(self).pairs().len(),
            forall|i: int|
                0 <= i < r@.len() ==> (#[trigger] r@[i]).0@ == old(self).pairs()[i].0 && r@[i].1@
                    == old(self).pairs()[i].1,
    {
        let mut items: Vec<(K, W)> = Vec::new();
        core::mem::swap(&mut self.items, &mut items);
        assert(self.pairs() =~= Seq::<(K::V, W::V)>::empty());
        items
    }
}

impl<K: Key> AssocList<K, u64> {
    /// The values, in the order of their keys.
    pub fn values(&self) -> (r: Vec<u64>)
        ensures
            r@ == values_of(self.pairs()),
    {
        let mut r: Vec<u64> = Vec::new();
        let mut i: usize = 0;
        while i < self.items.len()
            invariant
                0 <= i <= self.items.len(),
                r@.len() == i,
                forall|j: int| 0 <= j < i ==> r@[j] == self.pairs()[j].1,
            decreases self.items.len() - i,
        {
            r.push(self.items[i].1);
            i += 1;
        }
        assert(r@ =~= values_of(self.pairs()));
        r
    }
}

impl AssocList<String, u64> {
    /// A copy of the map.
    pub fn copy(&self) -> (r: Self)
        ensures
            r.pairs() == self.pairs(),
    {
        let mut items: Vec<(String, u64)> = Vec::new();
        let mut i: usize = 0;
        while i < self.items.len()
            invariant
                0 <= i <= self.items.len(),
                items@.len() == i,
                forall|j: int|
                    0 <= j < i ==> (#[trigger] items@[j]).0@ == self.items@[j].0@ && items@[j].1
                        == self.items@[j].1,
            decreases self.items.len() - i,
        {
            items.push((self.items[i].0.clone(), self.items[i].1));
            i += 1;
        }
        let r = AssocList { items };
        assert(r.pairs() =~= self.pairs());
        r
    }
}

} // verus!
