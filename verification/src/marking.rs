//! Sparse vectors of counts, ordered by key.
//!
//! A marking is modelled by the sequence of its entries `(key, count)`, in
//! strictly increasing order of the keys' ranks. A key that has no entry
//! counts for zero.
use vstd::prelude::*;
use crate::ids::{PlaceId, TransitionId};

verus! {

/// A key of a sparse marking: a value that stands for a number, one for one.
pub trait Key: Copy + Sized {
    /// The number the key stands for; keys are ordered by it.
    spec fn rank(self) -> int;

    /// Computes the rank.
    fn index(self) -> (i: usize)
        ensures
            i as int == self.rank(),
    ;

    /// Two keys of one rank are one key.
    proof fn rank_injective(self, other: Self)
        ensures
            self.rank() == other.rank() ==> self == other,
    ;
}

impl Key for usize {
    open spec fn rank(self) -> int {
        self as int
    }

    fn index(self) -> (i: usize) {
        self
    }

    proof fn rank_injective(self, other: Self) {
    }
}

impl Key for PlaceId {
    open spec fn rank(self) -> int {
        self.0 as int
    }

    fn index(self) -> (i: usize) {
        self.0
    }

    proof fn rank_injective(self, other: Self) {
    }
}

impl Key for TransitionId {
    open spec fn rank(self) -> int {
        self.0 as int
    }

    fn index(self) -> (i: usize) {
        self.0
    }

    proof fn rank_injective(self, other: Self) {
    }
}

/// The entries stand in strictly increasing order of rank.
pub open spec fn sorted<T: Key>(s: Seq<(T, usize)>) -> bool {
    forall|i: int, j: int| 0 <= i < j < s.len() ==> (#[trigger] s[i]).0.rank() < (#[trigger] s[j]).0.rank()
}

/// Some entry of `s` has the key `k`.
pub open spec fn has_key<T: Key>(s: Seq<(T, usize)>, k: T) -> bool {
    exists|i: int| 0 <= i < s.len() && (#[trigger] s[i]).0 == k
}

/// Where the entry of `k` stands in `s`, if it has one.
pub open spec fn position<T: Key>(s: Seq<(T, usize)>, k: T) -> int {
    choose|i: int| 0 <= i < s.len() && (#[trigger] s[i]).0 == k
}

/// The count of `k` in `s`: that of its entry, or zero.
pub open spec fn weight<T: Key>(s: Seq<(T, usize)>, k: T) -> nat {
    if has_key(s, k) {
        s[position(s, k)].1 as nat
    } else {
        0
    }
}

/// How many entries of `s` rank below `k`, counted from the end of a sorted `s`.
pub open spec fn lower_bound<T: Key>(s: Seq<(T, usize)>, k: T) -> int
    decreases s.len(),
{
    if s.len() == 0 {
        0
    } else if s.last().0.rank() < k.rank() {
        s.len() as int
    } else {
        lower_bound(s.drop_last(), k)
    }
}

/// `s` with the count of `k` set to `v`: its entry is replaced, or a new one is
/// put where the order wants it.
pub open spec fn put<T: Key>(s: Seq<(T, usize)>, k: T, v: usize) -> Seq<(T, usize)> {
    let p = lower_bound(s, k);
    if p < s.len() && s[p].0.rank() == k.rank() {
        s.update(p, (k, v))
    } else {
        s.insert(p, (k, v))
    }
}

/// `s` without the entry of `k`.
pub open spec fn without<T: Key>(s: Seq<(T, usize)>, k: T) -> Seq<(T, usize)> {
    let p = lower_bound(s, k);
    if p < s.len() && s[p].0.rank() == k.rank() {
        s.remove(p)
    } else {
        s
    }
}

/// The smaller of two counts.
pub open spec fn min_of(a: nat, b: nat) -> nat {
    if a <= b {
        a
    } else {
        b
    }
}

/// The larger of two counts.
pub open spec fn max_of(a: nat, b: nat) -> nat {
    if a >= b {
        a
    } else {
        b
    }
}

/// In a sorted sequence the lower bound of `k` parts the ranks below `k` from the others.
pub proof fn lemma_lower_bound<T: Key>(s: Seq<(T, usize)>, k: T)
    requires
        sorted(s),
    ensures
        0 <= lower_bound(s, k) <= s.len(),
        forall|i: int| 0 <= i < lower_bound(s, k) ==> (#[trigger] s[i]).0.rank() < k.rank(),
        forall|i: int| lower_bound(s, k) <= i < s.len() ==> (#[trigger] s[i]).0.rank() >= k.rank(),
    decreases s.len(),
{
    if s.len() == 0 {
    } else if s.last().0.rank() < k.rank() {
        assert forall|i: int| 0 <= i < s.len() implies (#[trigger] s[i]).0.rank() < k.rank() by {
            if i < s.len() - 1 {
                assert(s[i].0.rank() < s[s.len() - 1].0.rank());
            }
        }
    } else {
        let t = s.drop_last();
        assert forall|i: int, j: int| 0 <= i < j < t.len() implies (#[trigger] t[i]).0.rank() < (
        #[trigger] t[j]).0.rank() by {
            assert(t[i] == s[i] && t[j] == s[j]);
        }
        lemma_lower_bound(t, k);
        assert forall|i: int| 0 <= i < lower_bound(s, k) implies (#[trigger] s[i]).0.rank()
            < k.rank() by {
            assert(t[i] == s[i]);
        }
        assert forall|i: int| lower_bound(s, k) <= i < s.len() implies (#[trigger] s[i]).0.rank()
            >= k.rank() by {
            if i < s.len() - 1 {
                assert(t[i] == s[i]);
            }
        }
    }
}

/// In a sorted sequence a key has an entry exactly where its lower bound points at its
/// rank, and its count is read there.
pub proof fn lemma_lookup<T: Key>(s: Seq<(T, usize)>, k: T)
    requires
        sorted(s),
    ensures
        has_key(s, k) <==> (lower_bound(s, k) < s.len() && s[lower_bound(s, k)].0.rank()
            == k.rank()),
        has_key(s, k) ==> position(s, k) == lower_bound(s, k) && s[lower_bound(s, k)].0 == k,
        has_key(s, k) ==> weight(s, k) == s[lower_bound(s, k)].1,
        !has_key(s, k) ==> weight(s, k) == 0,
{
    lemma_lower_bound(s, k);
    let p = lower_bound(s, k);
    if p < s.len() && s[p].0.rank() == k.rank() {
        s[p].0.rank_injective(k);
        assert(s[p].0 == k);
        assert(has_key(s, k));
        let q = position(s, k);
        if q < p {
            assert(s[q].0.rank() < s[p].0.rank());
        } else if q > p {
            assert(s[p].0.rank() < s[q].0.rank());
        }
    } else {
        if has_key(s, k) {
            let q = position(s, k);
            assert(s[q].0.rank() == k.rank());
            if q < p {
                assert(s[q].0.rank() < k.rank());
            } else {
                assert(p < s.len());
                if q > p {
                    assert(s[p].0.rank() < s[q].0.rank());
                }
            }
        }
    }
}

/// The entry at a given place of a sorted sequence is the entry of its key.
pub proof fn lemma_entry<T: Key>(s: Seq<(T, usize)>, i: int)
    requires
        sorted(s),
        0 <= i < s.len(),
    ensures
        has_key(s, s[i].0),
        position(s, s[i].0) == i,
        lower_bound(s, s[i].0) == i,
        weight(s, s[i].0) == s[i].1,
{
    assert(has_key(s, s[i].0));
    lemma_lookup(s, s[i].0);
    let q = position(s, s[i].0);
    if q < i {
        assert(s[q].0.rank() < s[i].0.rank());
    } else if q > i {
        assert(s[i].0.rank() < s[q].0.rank());
    }
}

/// What `put` does to a sorted sequence: it stays sorted, `k` counts for `v`, and every
/// other key is as before.
pub proof fn lemma_put<T: Key>(s: Seq<(T, usize)>, k: T, v: usize)
    requires
        sorted(s),
    ensures
        sorted(put(s, k, v)),
        has_key(put(s, k, v), k),
        weight(put(s, k, v), k) == v,
        put(s, k, v).len() == (if has_key(s, k) {
            s.len()
        } else {
            s.len() + 1
        }),
        forall|o: T| o != k ==> has_key(put(s, k, v), o) == has_key(s, o),
        forall|o: T| o != k ==> weight(put(s, k, v), o) == weight(s, o),
{
    lemma_lower_bound(s, k);
    lemma_lookup(s, k);
    let p = lower_bound(s, k);
    let r = put(s, k, v);
    if p < s.len() && s[p].0.rank() == k.rank() {
        assert(r == s.update(p, (k, v)));
        assert forall|i: int, j: int| 0 <= i < j < r.len() implies (#[trigger] r[i]).0.rank() < (
        #[trigger] r[j]).0.rank() by {
            assert(r[i].0 == s[i].0 && r[j].0 == s[j].0);
        }
        assert(r[p].0 == k);
        lemma_entry(r, p);
        assert forall|o: T| o != k implies has_key(r, o) == has_key(s, o) && weight(r, o)
            == weight(s, o) by {
            if has_key(s, o) {
                let q = position(s, o);
                assert(r[q] == s[q]);
                lemma_entry(r, q);
                lemma_entry(s, q);
            }
            if has_key(r, o) {
                let q = position(r, o);
                assert(r[q] == s[q]);
                lemma_entry(r, q);
                lemma_entry(s, q);
            }
        }
    } else {
        assert(r == s.insert(p, (k, v)));
        assert forall|i: int, j: int| 0 <= i < j < r.len() implies (#[trigger] r[i]).0.rank() < (
        #[trigger] r[j]).0.rank() by {
            if i < p {
                assert(r[i] == s[i]);
            } else if i > p {
                assert(r[i] == s[i - 1]);
            }
            if j < p {
                assert(r[j] == s[j]);
            } else if j > p {
                assert(r[j] == s[j - 1]);
            }
        }
        assert(r[p].0 == k);
        lemma_entry(r, p);
        assert forall|o: T| o != k implies has_key(r, o) == has_key(s, o) && weight(r, o)
            == weight(s, o) by {
            if has_key(s, o) {
                let q = position(s, o);
                let q2 = if q < p {
                    q
                } else {
                    q + 1
                };
                assert(r[q2] == s[q]);
                lemma_entry(r, q2);
                lemma_entry(s, q);
            }
            if has_key(r, o) {
                let q = position(r, o);
                let q2 = if q < p {
                    q
                } else {
                    q - 1
                };
                assert(r[q] == s[q2]);
                lemma_entry(r, q);
                lemma_entry(s, q2);
            }
        }
    }
}

/// What `without` does to a sorted sequence: it stays sorted, `k` has no entry, and every
/// other key is as before.
pub proof fn lemma_without<T: Key>(s: Seq<(T, usize)>, k: T)
    requires
        sorted(s),
    ensures
        sorted(without(s, k)),
        !has_key(without(s, k), k),
        weight(without(s, k), k) == 0,
        without(s, k).len() == (if has_key(s, k) {
            s.len() - 1
        } else {
            s.len() as int
        }),
        forall|o: T| o != k ==> has_key(without(s, k), o) == has_key(s, o),
        forall|o: T| o != k ==> weight(without(s, k), o) == weight(s, o),
{
    lemma_lower_bound(s, k);
    lemma_lookup(s, k);
    let p = lower_bound(s, k);
    let r = without(s, k);
    if p < s.len() && s[p].0.rank() == k.rank() {
        assert(r == s.remove(p));
        assert forall|i: int, j: int| 0 <= i < j < r.len() implies (#[trigger] r[i]).0.rank() < (
        #[trigger] r[j]).0.rank() by {
            let i2 = if i < p {
                i
            } else {
                i + 1
            };
            let j2 = if j < p {
                j
            } else {
                j + 1
            };
            assert(r[i] == s[i2] && r[j] == s[j2]);
        }
        if has_key(r, k) {
            let q = position(r, k);
            let q2 = if q < p {
                q
            } else {
                q + 1
            };
            assert(r[q] == s[q2]);
            lemma_entry(s, q2);
        }
        assert forall|o: T| o != k implies has_key(r, o) == has_key(s, o) && weight(r, o)
            == weight(s, o) by {
            if has_key(s, o) {
                let q = position(s, o);
                let q2 = if q < p {
                    q
                } else {
                    q - 1
                };
                assert(r[q2] == s[q]);
                lemma_entry(r, q2);
                lemma_entry(s, q);
            }
            if has_key(r, o) {
                let q = position(r, o);
                let q2 = if q < p {
                    q
                } else {
                    q + 1
                };
                assert(r[q] == s[q2]);
                lemma_entry(r, q);
                lemma_entry(s, q2);
            }
        }
    } else {
    }
}

/// Two sorted sequences that have the same keys with the same counts are one sequence.
pub proof fn lemma_sorted_ext<T: Key>(a: Seq<(T, usize)>, b: Seq<(T, usize)>)
    requires
        sorted(a),
        sorted(b),
        forall|k: T| has_key(a, k) == has_key(b, k),
        forall|k: T| weight(a, k) == weight(b, k),
    ensures
        a == b,
    decreases a.len(),
{
    if a.len() == 0 {
        if b.len() > 0 {
            assert(has_key(b, b[0].0));
            assert(has_key(a, b[0].0));
        }
        assert(a =~= b);
    } else {
        let n = a.len() - 1;
        let ka = a[n].0;
        lemma_entry(a, n);
        assert(has_key(b, ka));
        lemma_lookup(b, ka);
        let q = position(b, ka);
        lemma_entry(b, q);
        if q < b.len() - 1 {
            let kb = b[b.len() - 1].0;
            lemma_entry(b, b.len() - 1);
            assert(has_key(a, kb));
            let p = position(a, kb);
            assert(b[q].0.rank() < kb.rank());
            if p < n {
                assert(a[p].0.rank() < a[n].0.rank());
            }
        }
        assert(q == b.len() - 1);
        assert(a[n].1 as nat == weight(a, ka));
        assert(b[q].1 as nat == weight(b, ka));
        assert(a[n] == b[q]);
        let a2 = a.drop_last();
        let b2 = b.drop_last();
        assert(sorted(a2)) by {
            assert forall|i: int, j: int| 0 <= i < j < a2.len() implies (#[trigger] a2[i]).0.rank()
                < (#[trigger] a2[j]).0.rank() by {
                assert(a2[i] == a[i] && a2[j] == a[j]);
            }
        }
        assert(sorted(b2)) by {
            assert forall|i: int, j: int| 0 <= i < j < b2.len() implies (#[trigger] b2[i]).0.rank()
                < (#[trigger] b2[j]).0.rank() by {
                assert(b2[i] == b[i] && b2[j] == b[j]);
            }
        }
        assert(a2 =~= without(a, ka)) by {
            lemma_lower_bound(a, ka);
        }
        assert(b2 =~= without(b, ka)) by {
            lemma_lower_bound(b, ka);
        }
        lemma_without(a, ka);
        lemma_without(b, ka);
        assert forall|k: T| has_key(a2, k) == has_key(b2, k) && weight(a2, k) == weight(b2, k) by {
            if k == ka {
                assert(!has_key(a2, k));
                assert(!has_key(b2, k));
            } else {
                assert(has_key(a2, k) == has_key(a, k));
                assert(has_key(b2, k) == has_key(b, k));
                assert(weight(a2, k) == weight(a, k));
                assert(weight(b2, k) == weight(b, k));
            }
        }
        lemma_sorted_ext(a2, b2);
        assert(a =~= a2.push(a[n]));
        assert(b =~= b2.push(b[q]));
    }
}


/// Sparse vector of counts, kept in increasing order of its keys.
///
/// It stands for a vector that is zero almost everywhere, such as the arcs between one
/// node of a net and all the others.
#[derive(Debug, Clone, PartialEq)]
pub struct Marking<T: Key> {
    values: Vec<(T, usize)>,
}

impl<T: Key> View for Marking<T> {
    type V = Seq<(T, usize)>;

    /// The entries, in the order in which they are stored.
    closed spec fn view(&self) -> Seq<(T, usize)> {
        self.values@
    }
}

impl<T: Key> Default for Marking<T> {
    fn default() -> (m: Self)
        ensures
            m.wf(),
            m@ == Seq::<(T, usize)>::empty(),
    {
        Marking { values: Vec::new() }
    }
}

impl<T: Key> std::ops::Index<T> for Marking<T> {
    type Output = usize;

    /// The count of `index`; zero where it has no entry.
    fn index(&self, index: T) -> (r: &usize)
        ensures
            *r == weight(self@, index),
    {
        match self.search(index) {
            Ok(pos) => {
                proof {
                    lemma_lookup(self@, index);
                }
                &self.values[pos].1
            },
            Err(_) => &0,
        }
    }
}

impl<T: Key> vstd::std_specs::core::IndexSpecImpl<T> for Marking<T> {
    open spec fn index_req(&self, index: &T) -> bool {
        self.wf()
    }
}

impl<T: Key> Marking<T> {
    /// The entries are in strictly increasing order of rank.
    pub open spec fn wf(&self) -> bool {
        sorted(self@)
    }

    /// An empty marking.
    pub fn new() -> (m: Self)
        ensures
            m.wf(),
            m@ == Seq::<(T, usize)>::empty(),
    {
        Marking { values: Vec::new() }
    }

    /// Finds the entry of `k`: `Ok` with its place, or `Err` with the place where it
    /// would have to be put.
    fn search(&self, k: T) -> (r: Result<usize, usize>)
        requires
            self.wf(),
        ensures
            match r {
                Ok(p) => p == lower_bound(self@, k) && has_key(self@, k) && p < self@.len(),
                Err(p) => p == lower_bound(self@, k) && !has_key(self@, k) && p <= self@.len(),
            },
    {
        let key = k.index();
        let mut lo: usize = 0;
        let mut hi: usize = self.values.len();
        while lo < hi
            invariant
                lo <= hi <= self.values@.len(),
                sorted(self.values@),
                key as int == k.rank(),
                forall|i: int| 0 <= i < lo ==> (#[trigger] self.values@[i]).0.rank() < key,
                forall|i: int| hi <= i < self.values@.len() ==> (#[trigger] self.values@[i]).0.rank() >= key,
            decreases hi - lo,
        {
            let mid: usize = lo + (hi - lo) / 2;
            if self.values[mid].0.index() < key {
                assert forall|i: int| 0 <= i < mid + 1 implies (#[trigger] self.values@[i]).0.rank()
                    < key by {
                    if i < mid {
                        assert(self.values@[i].0.rank() < self.values@[mid as int].0.rank());
                    }
                }
                lo = mid + 1;
            } else {
                assert forall|i: int| mid <= i < self.values@.len() implies (
                #[trigger] self.values@[i]).0.rank() >= key by {
                    if i > mid {
                        assert(self.values@[mid as int].0.rank() < self.values@[i].0.rank());
                    }
                }
                hi = mid;
            }
        }
        proof {
            lemma_lower_bound(self@, k);
            lemma_lookup(self@, k);
            let lb = lower_bound(self@, k);
            if lo < lb {
                assert(self@[lo as int].0.rank() < k.rank());
            } else if lo > lb {
                assert(self@[lb].0.rank() >= k.rank());
            }
        }
        if lo < self.values.len() && self.values[lo].0.index() == key {
            Ok(lo)
        } else {
            Err(lo)
        }
    }

    /// The count of `k`; zero where it has no entry.
    pub fn get(&self, k: T) -> (w: usize)
        requires
            self.wf(),
        ensures
            w == weight(self@, k),
    {
        match self.search(k) {
            Ok(pos) => {
                proof {
                    lemma_lookup(self@, k);
                }
                self.values[pos].1
            },
            Err(_) => 0,
        }
    }

    /// Whether `k` has an entry, be its count zero or not.
    pub fn contains(&self, k: T) -> (b: bool)
        requires
            self.wf(),
        ensures
            b == has_key(self@, k),
    {
        self.search(k).is_ok()
    }

    /// The entries in increasing order of their keys.
    pub fn iter(&self) -> (it: std::slice::Iter<'_, (T, usize)>)
        ensures
            vstd::std_specs::slice::into_iter_elts(it) == self@,
    {
        broadcast use vstd::std_specs::slice::axiom_spec_slice_iter;
        let it = self.values.as_slice().iter();
        it
    }

    /// The entries in increasing order of their keys, as a slice.
    pub fn as_slice(&self) -> (s: &[(T, usize)])
        ensures
            s@ == self@,
    {
        self.values.as_slice()
    }

    /// A copy of the entries, in increasing order of their keys.
    pub fn to_vec(&self) -> (v: Vec<(T, usize)>)
        ensures
            v@ == self@,
    {
        let mut v: Vec<(T, usize)> = Vec::new();
        let n = self.values.len();
        let mut i: usize = 0;
        while i < n
            invariant
                i <= n,
                n == self.values@.len(),
                v@ == self.values@.take(i as int),
            decreases n - i,
        {
            v.push(self.values[i]);
            assert(self.values@.take(i + 1) =~= self.values@.take(i as int).push(self.values@[i as int]));
            i += 1;
        }
        assert(self.values@.take(n as int) =~= self.values@);
        v
    }

    /// The entry that stands at place `i`.
    pub fn entry(&self, i: usize) -> (e: (T, usize))
        requires
            i < self@.len(),
        ensures
            e == self@[i as int],
    {
        self.values[i]
    }

    /// Removes every entry.
    pub fn clear(&mut self)
        ensures
            final(self)@ == Seq::<(T, usize)>::empty(),
            final(self).wf(),
    {
        self.values.clear();
    }

    /// The number of entries.
    pub fn len(&self) -> (n: usize)
        ensures
            n == self@.len(),
    {
        self.values.len()
    }

    /// Whether there is no entry.
    pub fn is_empty(&self) -> (b: bool)
        ensures
            b == (self@.len() == 0),
    {
        self.values.len() == 0
    }

    /// Adds `weight` to the count of `index`, which starts from zero where it has no entry.
    pub fn insert_or_add(&mut self, index: T, weight: usize)
        requires
            old(self).wf(),
            self::weight(old(self)@, index) + weight <= usize::MAX,
        ensures
            final(self).wf(),
            final(self)@ == put(old(self)@, index, (self::weight(old(self)@, index) + weight) as usize),
    {
        proof {
            lemma_lookup(self@, index);
            lemma_put(self@, index, (self::weight(self@, index) + weight) as usize);
        }
        match self.search(index) {
            Ok(pos) => {
                let sum = self.values[pos].1 + weight;
                self.values.set(pos, (index, sum));
            },
            Err(pos) => {
                self.values.insert(pos, (index, weight));
            },
        }
    }

    /// Keeps the smaller of the count of `index` and `weight`; where `index` has no entry
    /// it gets `weight`.
    pub fn insert_or_min(&mut self, index: T, weight: usize)
        requires
            old(self).wf(),
        ensures
            final(self).wf(),
            final(self)@ == put(
                old(self)@,
                index,
                if has_key(old(self)@, index) {
                    min_of(self::weight(old(self)@, index), weight as nat) as usize
                } else {
                    weight
                },
            ),
    {
        proof {
            lemma_lookup(self@, index);
            lemma_put(
                self@,
                index,
                if has_key(self@, index) {
                    min_of(self::weight(self@, index), weight as nat) as usize
                } else {
                    weight
                },
            );
        }
        match self.search(index) {
            Ok(pos) => {
                let cur = self.values[pos].1;
                let v = if cur <= weight {
                    cur
                } else {
                    weight
                };
                self.values.set(pos, (index, v));
            },
            Err(pos) => {
                self.values.insert(pos, (index, weight));
            },
        }
    }

    /// Keeps the larger of the count of `index` and `weight`.
    pub fn insert_or_max(&mut self, index: T, weight: usize)
        requires
            old(self).wf(),
        ensures
            final(self).wf(),
            final(self)@ == put(
                old(self)@,
                index,
                max_of(self::weight(old(self)@, index), weight as nat) as usize,
            ),
    {
        proof {
            lemma_lookup(self@, index);
            lemma_put(self@, index, max_of(self::weight(self@, index), weight as nat) as usize);
        }
        match self.search(index) {
            Ok(pos) => {
                let cur = self.values[pos].1;
                let v = if cur >= weight {
                    cur
                } else {
                    weight
                };
                self.values.set(pos, (index, v));
            },
            Err(pos) => {
                self.values.insert(pos, (index, weight));
            },
        }
    }

    /// Removes the entry of `index`, if there is one.
    pub fn delete(&mut self, index: T)
        requires
            old(self).wf(),
        ensures
            final(self).wf(),
            final(self)@ == without(old(self)@, index),
    {
        proof {
            lemma_lookup(self@, index);
            lemma_without(self@, index);
        }
        if let Ok(pos) = self.search(index) {
            self.values.remove(pos);
        }
    }
}


/// The merge of two entry sequences: one triple `(key, left count, right count)` for each
/// key that one of them holds, in increasing order, with zero for the side that lacks it.
pub open spec fn merge<T: Key>(l: Seq<(T, usize)>, r: Seq<(T, usize)>) -> Seq<(T, usize, usize)>
    decreases l.len() + r.len(),
{
    if l.len() == 0 && r.len() == 0 {
        Seq::empty()
    } else if l.len() == 0 {
        seq![(r[0].0, 0usize, r[0].1)] + merge(l, r.drop_first())
    } else if r.len() == 0 {
        seq![(l[0].0, l[0].1, 0usize)] + merge(l.drop_first(), r)
    } else if l[0].0.rank() == r[0].0.rank() {
        seq![(l[0].0, l[0].1, r[0].1)] + merge(l.drop_first(), r.drop_first())
    } else if l[0].0.rank() < r[0].0.rank() {
        seq![(l[0].0, l[0].1, 0usize)] + merge(l.drop_first(), r)
    } else {
        seq![(r[0].0, 0usize, r[0].1)] + merge(l, r.drop_first())
    }
}

/// The head of a sorted sequence ranks below all of its tail, and the tail holds the
/// other keys with their counts.
pub proof fn lemma_tail<T: Key>(l: Seq<(T, usize)>)
    requires
        sorted(l),
        l.len() > 0,
    ensures
        sorted(l.drop_first()),
        has_key(l, l[0].0),
        weight(l, l[0].0) == l[0].1,
        forall|k: T| #[trigger]
            has_key(l.drop_first(), k) ==> k.rank() > l[0].0.rank() && has_key(l, k) && weight(l, k)
                == weight(l.drop_first(), k),
        forall|k: T| #[trigger] has_key(l, k) ==> k == l[0].0 || has_key(l.drop_first(), k),
        forall|k: T| k.rank() < l[0].0.rank() ==> !has_key(l, k),
{
    let t = l.drop_first();
    assert forall|i: int, j: int| 0 <= i < j < t.len() implies (#[trigger] t[i]).0.rank() < (
    #[trigger] t[j]).0.rank() by {
        assert(t[i] == l[i + 1] && t[j] == l[j + 1]);
    }
    lemma_entry(l, 0);
    assert forall|k: T| #[trigger] has_key(t, k) implies k.rank() > l[0].0.rank() && has_key(l, k)
        && weight(l, k) == weight(t, k) by {
        let q = position(t, k);
        assert(t[q] == l[q + 1]);
        assert(l[0].0.rank() < l[q + 1].0.rank());
        lemma_entry(t, q);
        lemma_entry(l, q + 1);
    }
    assert forall|k: T| #[trigger] has_key(l, k) implies k == l[0].0 || has_key(t, k) by {
        let q = position(l, k);
        if q > 0 {
            assert(t[q - 1] == l[q]);
        }
    }
    assert forall|k: T| k.rank() < l[0].0.rank() implies !has_key(l, k) by {
        if has_key(l, k) {
            let q = position(l, k);
            if q > 0 {
                assert(l[0].0.rank() < l[q].0.rank());
            }
        }
    }
}

/// The merge of two sorted sequences is strictly increasing in its keys, holds exactly the
/// keys that one of the two holds, and gives for each key its count on either side.
pub proof fn lemma_merge<T: Key>(l: Seq<(T, usize)>, r: Seq<(T, usize)>)
    requires
        sorted(l),
        sorted(r),
    ensures
        forall|i: int, j: int|
            0 <= i < j < merge(l, r).len() ==> (#[trigger] merge(l, r)[i]).0.rank() < (
            #[trigger] merge(l, r)[j]).0.rank(),
        forall|i: int|
            0 <= i < merge(l, r).len() ==> {
                let e = #[trigger] merge(l, r)[i];
                &&& has_key(l, e.0) || has_key(r, e.0)
                &&& e.1 == weight(l, e.0)
                &&& e.2 == weight(r, e.0)
            },
        forall|k: T|
            has_key(l, k) || has_key(r, k) ==> exists|i: int|
                0 <= i < merge(l, r).len() && (#[trigger] merge(l, r)[i]).0 == k,
    decreases l.len() + r.len(),
{
    let m = merge(l, r);
    if l.len() == 0 && r.len() == 0 {
    } else {
        // which side gives the head, and what is left of each
        let take_l = l.len() > 0 && (r.len() == 0 || l[0].0.rank() <= r[0].0.rank());
        let take_r = r.len() > 0 && (l.len() == 0 || r[0].0.rank() <= l[0].0.rank());
        let l2 = if take_l {
            l.drop_first()
        } else {
            l
        };
        let r2 = if take_r {
            r.drop_first()
        } else {
            r
        };
        let key = if take_l {
            l[0].0
        } else {
            r[0].0
        };
        let head = (
            key,
            if take_l {
                l[0].1
            } else {
                0usize
            },
            if take_r {
                r[0].1
            } else {
                0usize
            },
        );
        let rest = merge(l2, r2);
        assert(m == seq![head] + rest) by {
            if take_l && take_r {
                l[0].0.rank_injective(r[0].0);
            }
        }
        if l.len() > 0 {
            lemma_tail(l);
        }
        if r.len() > 0 {
            lemma_tail(r);
        }
        if take_l && take_r {
            l[0].0.rank_injective(r[0].0);
        }
        lemma_merge(l2, r2);
        // the head's counts
        assert(head.1 == weight(l, key)) by {
            if !take_l {
                if l.len() > 0 {
                    assert(!has_key(l, key));
                } else {
                    assert(!has_key(l, key));
                }
            }
        }
        assert(head.2 == weight(r, key)) by {
            if !take_r {
                if r.len() > 0 {
                    assert(!has_key(r, key));
                } else {
                    assert(!has_key(r, key));
                }
            }
        }
        // every later key ranks above the head
        assert forall|i: int| 0 <= i < rest.len() implies {
            let e = #[trigger] rest[i];
            &&& e.0.rank() > key.rank()
            &&& has_key(l, e.0) || has_key(r, e.0)
            &&& e.1 == weight(l, e.0)
            &&& e.2 == weight(r, e.0)
        } by {
            let e = rest[i];
            assert(has_key(l2, e.0) || has_key(r2, e.0));
            if has_key(l2, e.0) {
                if take_l {
                    assert(e.0.rank() > l[0].0.rank());
                } else {
                    // l2 == l, and the head came from the right alone
                    if l.len() > 0 {
                        let q = position(l, e.0);
                        if q > 0 {
                            assert(l[0].0.rank() < l[q].0.rank());
                        }
                    }
                }
            }
            if has_key(r2, e.0) {
                if take_r {
                    assert(e.0.rank() > r[0].0.rank());
                } else {
                    if r.len() > 0 {
                        let q = position(r, e.0);
                        if q > 0 {
                            assert(r[0].0.rank() < r[q].0.rank());
                        }
                    }
                }
            }
            assert(e.0.rank() > key.rank());
            assert(e.0 != key);
            if take_l {
                if has_key(l, e.0) {
                    assert(has_key(l2, e.0));
                }
                assert(weight(l, e.0) == weight(l2, e.0));
            }
            if take_r {
                if has_key(r, e.0) {
                    assert(has_key(r2, e.0));
                }
                assert(weight(r, e.0) == weight(r2, e.0));
            }
        }
        assert forall|i: int, j: int| 0 <= i < j < m.len() implies (#[trigger] m[i]).0.rank() < (
        #[trigger] m[j]).0.rank() by {
            assert(m[j] == rest[j - 1]);
            if i > 0 {
                assert(m[i] == rest[i - 1]);
            }
        }
        assert forall|i: int| 0 <= i < m.len() implies {
            let e = #[trigger] m[i];
            &&& has_key(l, e.0) || has_key(r, e.0)
            &&& e.1 == weight(l, e.0)
            &&& e.2 == weight(r, e.0)
        } by {
            if i > 0 {
                assert(m[i] == rest[i - 1]);
            }
        }
        assert forall|k: T| has_key(l, k) || has_key(r, k) implies exists|i: int|
            0 <= i < m.len() && (#[trigger] m[i]).0 == k by {
            if k == key {
                assert(m[0].0 == k);
            } else {
                assert(has_key(l2, k) || has_key(r2, k));
                let i = choose|i: int| 0 <= i < rest.len() && (#[trigger] rest[i]).0 == k;
                assert(m[i + 1] == rest[i]);
            }
        }
    }
}

/// Walks two markings at once, in increasing order of the keys that either of them holds.
pub struct DualMarkingIterator<'m, T: Key> {
    /// How many entries of the left marking were passed.
    current_left: usize,
    /// How many entries of the right marking were passed.
    current_right: usize,
    /// The left marking.
    left: &'m Marking<T>,
    /// The right marking.
    right: &'m Marking<T>,
}

impl<'m, T: Key> DualMarkingIterator<'m, T> {
    /// Both markings are well formed and neither cursor has run past its end.
    pub closed spec fn wf(&self) -> bool {
        &&& self.left.wf()
        &&& self.right.wf()
        &&& self.current_left <= self.left@.len()
        &&& self.current_right <= self.right@.len()
    }

    /// The triples that are still to come.
    pub closed spec fn remaining(&self) -> Seq<(T, usize, usize)> {
        merge(
            self.left@.skip(self.current_left as int),
            self.right@.skip(self.current_right as int),
        )
    }

    /// The next triple, or `None` when both markings are exhausted.
    pub fn next(&mut self) -> (r: Option<(T, usize, usize)>)
        requires
            old(self).wf(),
        ensures
            final(self).wf(),
            old(self).remaining().len() == 0 ==> r is None && final(self).remaining()
                == old(self).remaining(),
            old(self).remaining().len() > 0 ==> r == Some(old(self).remaining()[0])
                && final(self).remaining() == old(self).remaining().drop_first(),
    {
        let ghost l = self.left@.skip(self.current_left as int);
        let ghost r = self.right@.skip(self.current_right as int);
        let left_done = self.current_left >= self.left.len();
        let right_done = self.current_right >= self.right.len();
        proof {
            if !left_done {
                assert(l.drop_first() =~= self.left@.skip(self.current_left + 1));
            }
            if !right_done {
                assert(r.drop_first() =~= self.right@.skip(self.current_right + 1));
            }
        }
        if left_done && right_done {
            None
        } else if left_done {
            let e = self.right.entry(self.current_right);
            self.current_right += 1;
            let t = (e.0, 0, e.1);
            assert(merge(l, r) == seq![t] + merge(l, r.drop_first()));
            assert((seq![t] + merge(l, r.drop_first())).drop_first() =~= merge(l, r.drop_first()));
            Some(t)
        } else if right_done {
            let e = self.left.entry(self.current_left);
            self.current_left += 1;
            let t = (e.0, e.1, 0);
            assert(merge(l, r) == seq![t] + merge(l.drop_first(), r));
            assert((seq![t] + merge(l.drop_first(), r)).drop_first() =~= merge(l.drop_first(), r));
            Some(t)
        } else {
            let a = self.left.entry(self.current_left);
            let b = self.right.entry(self.current_right);
            let ra = a.0.index();
            let rb = b.0.index();
            if ra == rb {
                self.current_left += 1;
                self.current_right += 1;
                let t = (a.0, a.1, b.1);
                assert(merge(l, r) == seq![t] + merge(l.drop_first(), r.drop_first()));
                assert((seq![t] + merge(l.drop_first(), r.drop_first())).drop_first() =~= merge(
                    l.drop_first(),
                    r.drop_first(),
                ));
                Some(t)
            } else if ra < rb {
                self.current_left += 1;
                let t = (a.0, a.1, 0);
                assert(merge(l, r) == seq![t] + merge(l.drop_first(), r));
                assert((seq![t] + merge(l.drop_first(), r)).drop_first() =~= merge(
                    l.drop_first(),
                    r,
                ));
                Some(t)
            } else {
                self.current_right += 1;
                let t = (b.0, 0, b.1);
                assert(merge(l, r) == seq![t] + merge(l, r.drop_first()));
                assert((seq![t] + merge(l, r.drop_first())).drop_first() =~= merge(
                    l,
                    r.drop_first(),
                ));
                Some(t)
            }
        }
    }
}

impl<T: Key> Marking<T> {
    /// Walks `self` and `other` together: the triples to come are the merge of the two.
    pub fn iter_with<'m>(&'m self, other: &'m Self) -> (it: DualMarkingIterator<'m, T>)
        requires
            self.wf(),
            other.wf(),
        ensures
            it.wf(),
            it.remaining() == merge(self@, other@),
    {
        assert(self@.skip(0) =~= self@);
        assert(other@.skip(0) =~= other@);
        DualMarkingIterator { current_left: 0, current_right: 0, left: self, right: other }
    }

    /// Whether `self` and `other` give every key the same count.
    pub fn same_weights(&self, other: &Self) -> (b: bool)
        requires
            self.wf(),
            other.wf(),
        ensures
            b == (forall|k: T| weight(self@, k) == weight(other@, k)),
            b == (forall|i: int|
                0 <= i < merge(self@, other@).len() ==> (#[trigger] merge(self@, other@)[i]).1
                    == merge(self@, other@)[i].2),
    {
        let mut it = self.iter_with(other);
        let ghost all = merge(self@, other@);
        let ghost mut seen: int = 0;
        proof {
            lemma_merge(self@, other@);
        }
        loop
            invariant
                it.wf(),
                0 <= seen <= all.len(),
                it.remaining() == all.skip(seen),
                all == merge(self@, other@),
                forall|i: int| 0 <= i < seen ==> (#[trigger] all[i]).1 == all[i].2,
                sorted(self@),
                sorted(other@),
            decreases all.len() - seen,
        {
            match it.next() {
                None => {
                    proof {
                        assert(seen == all.len());
                        lemma_merge(self@, other@);
                        assert forall|k: T| weight(self@, k) == weight(other@, k) by {
                            if has_key(self@, k) || has_key(other@, k) {
                                let i = choose|i: int|
                                    0 <= i < all.len() && (#[trigger] all[i]).0 == k;
                                assert(all[i].1 == all[i].2);
                            }
                        }
                    }
                    return true;
                },
                Some((_, a, b)) => {
                    proof {
                        assert(all.skip(seen)[0] == all[seen]);
                        assert(all.skip(seen).drop_first() =~= all.skip(seen + 1));
                    }
                    if a != b {
                        proof {
                            lemma_merge(self@, other@);
                            let e = all[seen];
                            assert(weight(self@, e.0) != weight(other@, e.0));
                        }
                        return false;
                    }
                    proof {
                        seen = seen + 1;
                    }
                },
            }
        }
    }
}


/// The sum of the counts that `pairs` gives for `k`.
pub open spec fn sum_of<T: Key>(pairs: Seq<(T, usize)>, k: T) -> nat
    decreases pairs.len(),
{
    if pairs.len() == 0 {
        0
    } else if pairs.last().0 == k {
        sum_of(pairs.drop_last(), k) + pairs.last().1 as nat
    } else {
        sum_of(pairs.drop_last(), k)
    }
}

/// `c` is the least count that `pairs` gives for `k`.
pub open spec fn is_least<T: Key>(pairs: Seq<(T, usize)>, k: T, c: nat) -> bool {
    &&& exists|i: int| 0 <= i < pairs.len() && #[trigger] pairs[i] == (k, c as usize)
    &&& forall|i: int| 0 <= i < pairs.len() && (#[trigger] pairs[i]).0 == k ==> c <= pairs[i].1
}

/// `c` is the greatest count that `pairs` gives for `k`.
pub open spec fn is_greatest<T: Key>(pairs: Seq<(T, usize)>, k: T, c: nat) -> bool {
    &&& exists|i: int| 0 <= i < pairs.len() && #[trigger] pairs[i] == (k, c as usize)
    &&& forall|i: int| 0 <= i < pairs.len() && (#[trigger] pairs[i]).0 == k ==> c >= pairs[i].1
}

/// What `insert_or_add` makes of an empty marking when it is given `pairs` one by one.
pub open spec fn add_all<T: Key>(pairs: Seq<(T, usize)>) -> Seq<(T, usize)>
    decreases pairs.len(),
{
    if pairs.len() == 0 {
        Seq::empty()
    } else {
        let m = add_all(pairs.drop_last());
        let e = pairs.last();
        put(m, e.0, (weight(m, e.0) + e.1) as usize)
    }
}

/// What `insert_or_min` makes of an empty marking when it is given `pairs` one by one.
pub open spec fn min_all<T: Key>(pairs: Seq<(T, usize)>) -> Seq<(T, usize)>
    decreases pairs.len(),
{
    if pairs.len() == 0 {
        Seq::empty()
    } else {
        let m = min_all(pairs.drop_last());
        let e = pairs.last();
        put(
            m,
            e.0,
            if has_key(m, e.0) {
                min_of(weight(m, e.0), e.1 as nat) as usize
            } else {
                e.1
            },
        )
    }
}

/// What `insert_or_max` makes of an empty marking when it is given `pairs` one by one.
pub open spec fn max_all<T: Key>(pairs: Seq<(T, usize)>) -> Seq<(T, usize)>
    decreases pairs.len(),
{
    if pairs.len() == 0 {
        Seq::empty()
    } else {
        let m = max_all(pairs.drop_last());
        let e = pairs.last();
        put(m, e.0, max_of(weight(m, e.0), e.1 as nat) as usize)
    }
}

/// A key is named by `pairs` exactly if it is named by all but the last pair or by the last.
proof fn lemma_has_key_last<T: Key>(pairs: Seq<(T, usize)>, k: T)
    requires
        pairs.len() > 0,
    ensures
        has_key(pairs, k) <==> (has_key(pairs.drop_last(), k) || pairs.last().0 == k),
{
    let init = pairs.drop_last();
    if has_key(pairs, k) {
        let i = position(pairs, k);
        if i < pairs.len() - 1 {
            assert(init[i] == pairs[i]);
        }
    }
    if has_key(init, k) {
        let i = position(init, k);
        assert(init[i] == pairs[i]);
    }
    if pairs.last().0 == k {
        assert(pairs[pairs.len() - 1].0 == k);
    }
}

/// The sum for a key grows with the pairs.
proof fn lemma_sum_of_prefix<T: Key>(pairs: Seq<(T, usize)>, k: T)
    requires
        pairs.len() > 0,
    ensures
        sum_of(pairs.drop_last(), k) <= sum_of(pairs, k),
{
}

/// Adding pairs one by one gives each key the sum of its counts, whatever the order of
/// the pairs was: the result is sorted, holds the keys that the pairs name, and gives each
/// the sum of the counts paired with it.
pub proof fn lemma_add_all<T: Key>(pairs: Seq<(T, usize)>)
    requires
        forall|k: T| sum_of(pairs, k) <= usize::MAX,
    ensures
        sorted(add_all(pairs)),
        forall|k: T| has_key(add_all(pairs), k) == has_key(pairs, k),
        forall|k: T| weight(add_all(pairs), k) == sum_of(pairs, k),
    decreases pairs.len(),
{
    if pairs.len() == 0 {
    } else {
        let init = pairs.drop_last();
        let e = pairs.last();
        assert forall|k: T| sum_of(init, k) <= usize::MAX by {
            lemma_sum_of_prefix(pairs, k);
        }
        lemma_add_all(init);
        let m = add_all(init);
        assert(sum_of(pairs, e.0) == sum_of(init, e.0) + e.1);
        assert(weight(m, e.0) == sum_of(init, e.0));
        lemma_put(m, e.0, (weight(m, e.0) + e.1) as usize);
        assert forall|k: T| has_key(add_all(pairs), k) == has_key(pairs, k) && weight(
            add_all(pairs),
            k,
        ) == sum_of(pairs, k) by {
            lemma_has_key_last(pairs, k);
            assert(weight(m, k) == sum_of(init, k));
            assert(has_key(m, k) == has_key(init, k));
            if k == e.0 {
                assert(sum_of(pairs, k) == sum_of(init, k) + e.1);
            } else {
                assert(sum_of(pairs, k) == sum_of(init, k));
            }
        }
    }
}

/// Taking the minimum pair by pair gives each key the least of its counts.
pub proof fn lemma_min_all<T: Key>(pairs: Seq<(T, usize)>)
    ensures
        sorted(min_all(pairs)),
        forall|k: T| has_key(min_all(pairs), k) == has_key(pairs, k),
        forall|k: T| has_key(pairs, k) ==> is_least(pairs, k, weight(min_all(pairs), k)),
    decreases pairs.len(),
{
    if pairs.len() == 0 {
    } else {
        let init = pairs.drop_last();
        let e = pairs.last();
        lemma_min_all(init);
        let m = min_all(init);
        let v = if has_key(m, e.0) {
            min_of(weight(m, e.0), e.1 as nat) as usize
        } else {
            e.1
        };
        lemma_put(m, e.0, v);
        assert forall|k: T| has_key(min_all(pairs), k) == has_key(pairs, k) by {
            lemma_has_key_last(pairs, k);
        }
        assert forall|k: T| has_key(pairs, k) implies is_least(
            pairs,
            k,
            weight(min_all(pairs), k),
        ) by {
            lemma_has_key_last(pairs, k);
            let c = weight(min_all(pairs), k);
            let n = pairs.len() - 1;
            if has_key(init, k) {
                let c0 = weight(m, k);
                let i0 = choose|i: int| 0 <= i < init.len() && #[trigger] init[i] == (k, c0 as usize);
                assert(init[i0] == pairs[i0]);
                if c == c0 {
                    assert(pairs[i0] == (k, c as usize));
                } else {
                    assert(pairs[n] == (k, c as usize));
                }
                assert forall|i: int| 0 <= i < pairs.len() && (#[trigger] pairs[i]).0
                    == k implies c <= pairs[i].1 by {
                    if i < n {
                        assert(init[i] == pairs[i]);
                    }
                }
            } else {
                assert(pairs[n] == (k, c as usize));
                assert forall|i: int| 0 <= i < pairs.len() && (#[trigger] pairs[i]).0
                    == k implies c <= pairs[i].1 by {
                    if i < n {
                        assert(init[i] == pairs[i]);
                        assert(has_key(init, k));
                    }
                }
            }
        }
    }
}

/// Taking the maximum pair by pair gives each key the greatest of its counts.
pub proof fn lemma_max_all<T: Key>(pairs: Seq<(T, usize)>)
    ensures
        sorted(max_all(pairs)),
        forall|k: T| has_key(max_all(pairs), k) == has_key(pairs, k),
        forall|k: T| has_key(pairs, k) ==> is_greatest(pairs, k, weight(max_all(pairs), k)),
    decreases pairs.len(),
{
    if pairs.len() == 0 {
    } else {
        let init = pairs.drop_last();
        let e = pairs.last();
        lemma_max_all(init);
        let m = max_all(init);
        let v = max_of(weight(m, e.0), e.1 as nat) as usize;
        lemma_put(m, e.0, v);
        assert forall|k: T| has_key(max_all(pairs), k) == has_key(pairs, k) by {
            lemma_has_key_last(pairs, k);
        }
        assert forall|k: T| has_key(pairs, k) implies is_greatest(
            pairs,
            k,
            weight(max_all(pairs), k),
        ) by {
            lemma_has_key_last(pairs, k);
            let c = weight(max_all(pairs), k);
            let n = pairs.len() - 1;
            if has_key(init, k) {
                let c0 = weight(m, k);
                let i0 = choose|i: int| 0 <= i < init.len() && #[trigger] init[i] == (k, c0 as usize);
                assert(init[i0] == pairs[i0]);
                if c == c0 {
                    assert(pairs[i0] == (k, c as usize));
                } else {
                    assert(pairs[n] == (k, c as usize));
                }
                assert forall|i: int| 0 <= i < pairs.len() && (#[trigger] pairs[i]).0
                    == k implies c >= pairs[i].1 by {
                    if i < n {
                        assert(init[i] == pairs[i]);
                    }
                }
            } else {
                assert(pairs[n] == (k, c as usize));
                assert forall|i: int| 0 <= i < pairs.len() && (#[trigger] pairs[i]).0
                    == k implies c >= pairs[i].1 by {
                    if i < n {
                        assert(init[i] == pairs[i]);
                        assert(has_key(init, k));
                    }
                }
            }
        }
    }
}

/// Taking one pair out of a sequence takes its count out of the sum of its key.
proof fn lemma_sum_of_remove<T: Key>(pairs: Seq<(T, usize)>, j: int, k: T)
    requires
        0 <= j < pairs.len(),
    ensures
        sum_of(pairs, k) == sum_of(pairs.remove(j), k) + (if pairs[j].0 == k {
            pairs[j].1 as nat
        } else {
            0
        }),
    decreases pairs.len(),
{
    let n = pairs.len() - 1;
    if j == n {
        assert(pairs.remove(j) =~= pairs.drop_last());
    } else {
        lemma_sum_of_remove(pairs.drop_last(), j, k);
        assert(pairs.remove(j).drop_last() =~= pairs.drop_last().remove(j));
        assert(pairs.remove(j).last() == pairs.last());
    }
}

/// The sum for a key is the same for two sequences that hold the same pairs, each as often.
pub proof fn lemma_sum_of_permutation<T: Key>(p: Seq<(T, usize)>, q: Seq<(T, usize)>, k: T)
    requires
        p.to_multiset() == q.to_multiset(),
    ensures
        sum_of(p, k) == sum_of(q, k),
    decreases p.len(),
{
    p.to_multiset_ensures();
    q.to_multiset_ensures();
    if p.len() == 0 {
        assert(q.len() == 0);
    } else {
        let e = p.last();
        assert(p.contains(e)) by {
            assert(p[p.len() - 1] == e);
        }
        assert(p.to_multiset().count(e) > 0);
        assert(q.to_multiset().count(e) > 0);
        assert(q.contains(e));
        let j = choose|j: int| 0 <= j < q.len() && q[j] == e;
        let p2 = p.drop_last();
        let q2 = q.remove(j);
        assert(p2 =~= p.remove(p.len() - 1));
        assert(p2.to_multiset() =~= q2.to_multiset());
        lemma_sum_of_permutation(p2, q2, k);
        lemma_sum_of_remove(q, j, k);
    }
}

/// Two sequences that hold the same pairs name the same keys.
proof fn lemma_has_key_permutation<T: Key>(p: Seq<(T, usize)>, q: Seq<(T, usize)>, k: T)
    requires
        p.to_multiset() == q.to_multiset(),
        has_key(p, k),
    ensures
        has_key(q, k),
{
    p.to_multiset_ensures();
    q.to_multiset_ensures();
    let i = position(p, k);
    assert(p.contains(p[i]));
    assert(p.to_multiset().count(p[i]) > 0);
    assert(q.to_multiset().count(p[i]) > 0);
    assert(q.contains(p[i]));
    let j = choose|j: int| 0 <= j < q.len() && q[j] == p[i];
    assert(q[j].0 == k);
}

/// `insert_or_add` does not depend on the order of the insertions: two sequences that
/// hold the same pairs, each as often, make the same marking.
pub proof fn lemma_add_all_order<T: Key>(p: Seq<(T, usize)>, q: Seq<(T, usize)>)
    requires
        p.to_multiset() == q.to_multiset(),
        forall|k: T| sum_of(p, k) <= usize::MAX,
    ensures
        add_all(p) == add_all(q),
{
    assert forall|k: T| sum_of(q, k) == sum_of(p, k) by {
        lemma_sum_of_permutation(p, q, k);
    }
    lemma_add_all(p);
    lemma_add_all(q);
    assert forall|k: T| has_key(add_all(p), k) == has_key(add_all(q), k) && weight(add_all(p), k)
        == weight(add_all(q), k) by {
        if has_key(p, k) {
            lemma_has_key_permutation(p, q, k);
        }
        if has_key(q, k) {
            lemma_has_key_permutation(q, p, k);
        }
        assert(weight(add_all(p), k) == sum_of(p, k));
        assert(weight(add_all(q), k) == sum_of(q, k));
    }
    lemma_sorted_ext(add_all(p), add_all(q));
}

/// If `c` is the least count for `k` in `p`, it is so in every sequence of the same pairs.
proof fn lemma_least_permutation<T: Key>(p: Seq<(T, usize)>, q: Seq<(T, usize)>, k: T, c: nat)
    requires
        p.to_multiset() == q.to_multiset(),
        is_least(p, k, c),
    ensures
        is_least(q, k, c),
{
    p.to_multiset_ensures();
    q.to_multiset_ensures();
    let i = choose|i: int| 0 <= i < p.len() && #[trigger] p[i] == (k, c as usize);
    assert(p.contains(p[i]));
    assert(p.to_multiset().count(p[i]) > 0);
    assert(q.to_multiset().count(p[i]) > 0);
    assert(q.contains(p[i]));
    let j = choose|j: int| 0 <= j < q.len() && q[j] == p[i];
    assert(q[j] == (k, c as usize));
    assert forall|j2: int| 0 <= j2 < q.len() && (#[trigger] q[j2]).0 == k implies c
        <= q[j2].1 by {
        assert(q.contains(q[j2]));
        assert(q.to_multiset().count(q[j2]) > 0);
        assert(p.to_multiset().count(q[j2]) > 0);
        assert(p.contains(q[j2]));
        let i2 = choose|i2: int| 0 <= i2 < p.len() && p[i2] == q[j2];
        assert(p[i2].0 == k);
    }
}

/// If `c` is the greatest count for `k` in `p`, it is so in every sequence of the same pairs.
proof fn lemma_greatest_permutation<T: Key>(p: Seq<(T, usize)>, q: Seq<(T, usize)>, k: T, c: nat)
    requires
        p.to_multiset() == q.to_multiset(),
        is_greatest(p, k, c),
    ensures
        is_greatest(q, k, c),
{
    p.to_multiset_ensures();
    q.to_multiset_ensures();
    let i = choose|i: int| 0 <= i < p.len() && #[trigger] p[i] == (k, c as usize);
    assert(p.contains(p[i]));
    assert(p.to_multiset().count(p[i]) > 0);
    assert(q.to_multiset().count(p[i]) > 0);
    assert(q.contains(p[i]));
    let j = choose|j: int| 0 <= j < q.len() && q[j] == p[i];
    assert(q[j] == (k, c as usize));
    assert forall|j2: int| 0 <= j2 < q.len() && (#[trigger] q[j2]).0 == k implies c
        >= q[j2].1 by {
        assert(q.contains(q[j2]));
        assert(q.to_multiset().count(q[j2]) > 0);
        assert(p.to_multiset().count(q[j2]) > 0);
        assert(p.contains(q[j2]));
        let i2 = choose|i2: int| 0 <= i2 < p.len() && p[i2] == q[j2];
        assert(p[i2].0 == k);
    }
}

/// `insert_or_min` does not depend on the order of the insertions.
pub proof fn lemma_min_all_order<T: Key>(p: Seq<(T, usize)>, q: Seq<(T, usize)>)
    requires
        p.to_multiset() == q.to_multiset(),
    ensures
        min_all(p) == min_all(q),
{
    lemma_min_all(p);
    lemma_min_all(q);
    assert forall|k: T| has_key(min_all(p), k) == has_key(min_all(q), k) && weight(min_all(p), k)
        == weight(min_all(q), k) by {
        if has_key(p, k) {
            lemma_has_key_permutation(p, q, k);
        }
        if has_key(q, k) {
            lemma_has_key_permutation(q, p, k);
        }
        if has_key(p, k) {
            let a = weight(min_all(p), k);
            let b = weight(min_all(q), k);
            lemma_least_permutation(p, q, k, a);
            let i = choose|i: int| 0 <= i < q.len() && #[trigger] q[i] == (k, a as usize);
            let j = choose|j: int| 0 <= j < q.len() && #[trigger] q[j] == (k, b as usize);
            assert(q[i].0 == k && q[j].0 == k);
            assert(a <= q[j].1 && b <= q[i].1);
        }
    }
    lemma_sorted_ext(min_all(p), min_all(q));
}

/// `insert_or_max` does not depend on the order of the insertions.
pub proof fn lemma_max_all_order<T: Key>(p: Seq<(T, usize)>, q: Seq<(T, usize)>)
    requires
        p.to_multiset() == q.to_multiset(),
    ensures
        max_all(p) == max_all(q),
{
    lemma_max_all(p);
    lemma_max_all(q);
    assert forall|k: T| has_key(max_all(p), k) == has_key(max_all(q), k) && weight(max_all(p), k)
        == weight(max_all(q), k) by {
        if has_key(p, k) {
            lemma_has_key_permutation(p, q, k);
        }
        if has_key(q, k) {
            lemma_has_key_permutation(q, p, k);
        }
        if has_key(p, k) {
            let a = weight(max_all(p), k);
            let b = weight(max_all(q), k);
            lemma_greatest_permutation(p, q, k, a);
            let i = choose|i: int| 0 <= i < q.len() && #[trigger] q[i] == (k, a as usize);
            let j = choose|j: int| 0 <= j < q.len() && #[trigger] q[j] == (k, b as usize);
            assert(q[i].0 == k && q[j].0 == k);
            assert(a >= q[j].1 && b >= q[i].1);
        }
    }
    lemma_sorted_ext(max_all(p), max_all(q));
}


/// `acc` after the counts of `pairs` were added to it one by one.
pub open spec fn add_into<T: Key>(acc: Seq<(T, usize)>, pairs: Seq<(T, usize)>) -> Seq<(T, usize)>
    decreases pairs.len(),
{
    if pairs.len() == 0 {
        acc
    } else {
        let m = add_into(acc, pairs.drop_last());
        let e = pairs.last();
        put(m, e.0, (weight(m, e.0) + e.1) as usize)
    }
}

/// No count leaves the range of the machine's numbers while `pairs` are added to `acc`.
pub open spec fn fits<T: Key>(acc: Seq<(T, usize)>, pairs: Seq<(T, usize)>) -> bool
    decreases pairs.len(),
{
    if pairs.len() == 0 {
        true
    } else {
        &&& fits(acc, pairs.drop_last())
        &&& weight(add_into(acc, pairs.drop_last()), pairs.last().0) + pairs.last().1 <= usize::MAX
    }
}

/// Adding pairs to a sorted sequence leaves it sorted, with the keys of both.
pub proof fn lemma_add_into<T: Key>(acc: Seq<(T, usize)>, pairs: Seq<(T, usize)>)
    requires
        sorted(acc),
    ensures
        sorted(add_into(acc, pairs)),
        forall|k: T| has_key(add_into(acc, pairs), k) == (has_key(acc, k) || has_key(pairs, k)),
    decreases pairs.len(),
{
    if pairs.len() > 0 {
        let init = pairs.drop_last();
        let e = pairs.last();
        lemma_add_into(acc, init);
        let m = add_into(acc, init);
        lemma_put(m, e.0, (weight(m, e.0) + e.1) as usize);
        assert forall|k: T| has_key(add_into(acc, pairs), k) == (has_key(acc, k) || has_key(
            pairs,
            k,
        )) by {
            lemma_has_key_last(pairs, k);
        }
    }
}

impl<T: Key> Marking<T> {
    /// The marking that gives every key the sum of its counts in `self` and in `other`;
    /// `None` if a sum leaves the range of the machine's numbers.
    pub fn sum(&self, other: &Self) -> (r: Option<Self>)
        requires
            self.wf(),
            other.wf(),
        ensures
            match r {
                Some(m) => m.wf() && fits(self@, other@) && m@ == add_into(self@, other@),
                None => !fits(self@, other@),
            },
    {
        let mut m = Marking { values: self.to_vec() };
        let n = other.len();
        let mut i: usize = 0;
        while i < n
            invariant
                i <= n,
                n == other@.len(),
                m.wf(),
                self.wf(),
                fits(self@, other@.take(i as int)),
                m@ == add_into(self@, other@.take(i as int)),
            decreases n - i,
        {
            let e = other.entry(i);
            proof {
                assert(other@.take(i + 1).drop_last() =~= other@.take(i as int));
                assert(other@.take(i + 1).last() == other@[i as int]);
            }
            if m.get(e.0) > usize::MAX - e.1 {
                proof {
                    assert(!fits(self@, other@.take(i + 1)));
                    if fits(self@, other@) {
                        lemma_fits_prefix(self@, other@, i + 1);
                    }
                }
                return None;
            }
            m.insert_or_add(e.0, e.1);
            i += 1;
        }
        proof {
            assert(other@.take(n as int) =~= other@);
        }
        Some(m)
    }
}

/// If all of `pairs` can be added, so can the first `i` of them.
proof fn lemma_fits_prefix<T: Key>(acc: Seq<(T, usize)>, pairs: Seq<(T, usize)>, i: int)
    requires
        0 <= i <= pairs.len(),
        fits(acc, pairs),
    ensures
        fits(acc, pairs.take(i)),
    decreases pairs.len(),
{
    if i == pairs.len() {
        assert(pairs.take(i) =~= pairs);
    } else {
        lemma_fits_prefix(acc, pairs.drop_last(), i);
        assert(pairs.drop_last().take(i) =~= pairs.take(i));
    }
}


/// The entries of `s`, each with the count one.
pub open spec fn unit_entries<T: Key>(s: Seq<(T, usize)>) -> Seq<(T, usize)> {
    Seq::new(s.len(), |i: int| (s[i].0, 1usize))
}

impl<T: Key> Marking<T> {
    /// Whether every entry has the count `w`.
    pub fn all_weights_are(&self, w: usize) -> (b: bool)
        ensures
            b == (forall|i: int| 0 <= i < self@.len() ==> (#[trigger] self@[i]).1 == w),
    {
        let n = self.values.len();
        let mut i: usize = 0;
        while i < n
            invariant
                i <= n,
                n == self.values@.len(),
                forall|j: int| 0 <= j < i ==> (#[trigger] self.values@[j]).1 == w,
            decreases n - i,
        {
            if self.values[i].1 != w {
                assert(self@[i as int].1 != w);
                return false;
            }
            i += 1;
        }
        true
    }

    /// The keys of the marking, each with the count one.
    pub fn unit_entries(&self) -> (v: Vec<(T, usize)>)
        ensures
            v@ == unit_entries(self@),
    {
        let mut v: Vec<(T, usize)> = Vec::new();
        let n = self.values.len();
        let mut i: usize = 0;
        while i < n
            invariant
                i <= n,
                n == self.values@.len(),
                v@.len() == i,
                forall|j: int| 0 <= j < i ==> v@[j] == (self.values@[j].0, 1usize),
            decreases n - i,
        {
            v.push((self.values[i].0, 1));
            i += 1;
        }
        assert(v@ =~= unit_entries(self@));
        v
    }
}


/// The keys stand in strictly increasing order of rank.
pub open spec fn increasing<T: Key>(s: Seq<T>) -> bool {
    forall|i: int, j: int| 0 <= i < j < s.len() ==> (#[trigger] s[i]).rank() < (#[trigger] s[j]).rank()
}

/// How many keys of `s` rank below `x`, for an increasing `s`.
pub open spec fn ranked_below<T: Key>(s: Seq<T>, x: T) -> int
    decreases s.len(),
{
    if s.len() == 0 {
        0
    } else if s.last().rank() < x.rank() {
        s.len() as int
    } else {
        ranked_below(s.drop_last(), x)
    }
}

/// The increasing sequence `s` with `x` put in, if it is not there.
pub open spec fn with_key<T: Key>(s: Seq<T>, x: T) -> Seq<T> {
    if s.contains(x) {
        s
    } else {
        s.insert(ranked_below(s, x), x)
    }
}

/// In an increasing sequence `ranked_below` parts the keys below `x` from the others.
pub proof fn lemma_ranked_below<T: Key>(s: Seq<T>, x: T)
    requires
        increasing(s),
    ensures
        0 <= ranked_below(s, x) <= s.len(),
        forall|i: int| 0 <= i < ranked_below(s, x) ==> (#[trigger] s[i]).rank() < x.rank(),
        forall|i: int| ranked_below(s, x) <= i < s.len() ==> (#[trigger] s[i]).rank() >= x.rank(),
    decreases s.len(),
{
    if s.len() == 0 {
    } else if s.last().rank() < x.rank() {
        assert forall|i: int| 0 <= i < s.len() implies (#[trigger] s[i]).rank() < x.rank() by {
            if i < s.len() - 1 {
                assert(s[i].rank() < s[s.len() - 1].rank());
            }
        }
    } else {
        let t = s.drop_last();
        assert forall|i: int, j: int| 0 <= i < j < t.len() implies (#[trigger] t[i]).rank() < (
        #[trigger] t[j]).rank() by {
            assert(t[i] == s[i] && t[j] == s[j]);
        }
        lemma_ranked_below(t, x);
        assert forall|i: int| 0 <= i < ranked_below(s, x) implies (#[trigger] s[i]).rank()
            < x.rank() by {
            assert(t[i] == s[i]);
        }
        assert forall|i: int| ranked_below(s, x) <= i < s.len() implies (#[trigger] s[i]).rank()
            >= x.rank() by {
            if i < s.len() - 1 {
                assert(t[i] == s[i]);
            }
        }
    }
}

/// Putting a key into an increasing sequence leaves it increasing, with the keys it had
/// and the new one.
pub proof fn lemma_with_key<T: Key>(s: Seq<T>, x: T)
    requires
        increasing(s),
    ensures
        increasing(with_key(s, x)),
        forall|y: T| with_key(s, x).contains(y) <==> (s.contains(y) || y == x),
        with_key(s, x).len() >= s.len(),
{
    lemma_ranked_below(s, x);
    let r = with_key(s, x);
    let p = ranked_below(s, x);
    if !s.contains(x) {
        assert forall|i: int, j: int| 0 <= i < j < r.len() implies (#[trigger] r[i]).rank() < (
        #[trigger] r[j]).rank() by {
            if i < p {
                assert(r[i] == s[i]);
            } else if i > p {
                assert(r[i] == s[i - 1]);
            }
            if j < p {
                assert(r[j] == s[j]);
            } else if j > p {
                assert(r[j] == s[j - 1]);
                if i == p {
                    assert(s[j - 1].rank() >= x.rank());
                    assert(s.contains(s[j - 1]));
                    s[j - 1].rank_injective(x);
                }
            }
        }
        assert forall|y: T| r.contains(y) <==> (s.contains(y) || y == x) by {
            if r.contains(y) {
                let i = choose|i: int| 0 <= i < r.len() && r[i] == y;
                if i < p {
                    assert(r[i] == s[i]);
                } else if i > p {
                    assert(r[i] == s[i - 1]);
                }
            }
            if s.contains(y) {
                let i = choose|i: int| 0 <= i < s.len() && s[i] == y;
                if i < p {
                    assert(r[i] == s[i]);
                } else {
                    assert(r[i + 1] == s[i]);
                }
            }
            if y == x {
                assert(r[p] == x);
            }
        }
    }
}

/// Puts `x` into the increasing vector `v`, if it is not there.
pub fn insert_key<T: Key>(v: &mut Vec<T>, x: T)
    requires
        increasing(old(v)@),
    ensures
        increasing(final(v)@),
        final(v)@ == with_key(old(v)@, x),
{
    proof {
        lemma_ranked_below(v@, x);
        lemma_with_key(v@, x);
    }
    let ghost s = v@;
    let key = x.index();
    let mut lo: usize = 0;
    let mut hi: usize = v.len();
    while lo < hi
        invariant
            lo <= hi <= s.len(),
            v@ == s,
            increasing(s),
            key as int == x.rank(),
            forall|i: int| 0 <= i < lo ==> (#[trigger] s[i]).rank() < key,
            forall|i: int| hi <= i < s.len() ==> (#[trigger] s[i]).rank() >= key,
        decreases hi - lo,
    {
        let mid: usize = lo + (hi - lo) / 2;
        if v[mid].index() < key {
            assert forall|i: int| 0 <= i < mid + 1 implies (#[trigger] s[i]).rank() < key by {
                if i < mid {
                    assert(s[i].rank() < s[mid as int].rank());
                }
            }
            lo = mid + 1;
        } else {
            assert forall|i: int| mid <= i < s.len() implies (#[trigger] s[i]).rank() >= key by {
                if i > mid {
                    assert(s[mid as int].rank() < s[i].rank());
                }
            }
            hi = mid;
        }
    }
    proof {
        let b = ranked_below(s, x);
        if lo < b {
            assert(s[lo as int].rank() < x.rank());
        } else if lo > b {
            assert(s[b].rank() >= x.rank());
        }
    }
    if lo < v.len() && v[lo].index() == key {
        proof {
            s[lo as int].rank_injective(x);
            assert(s[lo as int] == x);
            assert(s.contains(x));
        }
    } else {
        proof {
            if s.contains(x) {
                let j = choose|j: int| 0 <= j < s.len() && s[j] == x;
                if j < lo {
                    assert(s[j].rank() < key);
                } else if j > lo {
                    assert(s[lo as int].rank() < s[j].rank());
                }
            }
        }
        v.insert(lo, x);
    }
}

} // verus!
