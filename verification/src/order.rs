//! Ordered-container query utilities: generic binary search and linear
//! containment over sequences whose elements project to a totally ordered
//! key type, plus the sorting routine the registry builder relies on.

use vstd::prelude::*;
use vstd::relations::{antisymmetric, total_ordering};
use vstd::multiset::group_multiset_axioms;
use vstd::seq_lib::{group_to_multiset_ensures, to_multiset_contains, to_multiset_insert,
    to_multiset_len, to_multiset_remove};
use core::cmp::Ordering;

verus! {

/// The reverse of a comparison outcome.
pub open spec fn flip_ord(o: Ordering) -> Ordering {
    match o {
        Ordering::Less => Ordering::Greater,
        Ordering::Equal => Ordering::Equal,
        Ordering::Greater => Ordering::Less,
    }
}

/// A key type with a total three-way ordering, given both as a
/// specification-level comparison and as an executable one that agrees
/// with it. The laws make the ordering usable for sorting and searching.
pub trait TotalOrd: Sized {
    spec fn cmp_spec(&self, other: &Self) -> Ordering;

    proof fn lemma_cmp_laws(a: &Self, b: &Self, c: &Self)
        ensures
            a.cmp_spec(a) == Ordering::Equal,
            b.cmp_spec(a) == flip_ord(a.cmp_spec(b)),
            a.cmp_spec(b) == Ordering::Equal ==> a.cmp_spec(c) == b.cmp_spec(c),
            a.cmp_spec(b) != Ordering::Greater && b.cmp_spec(c) != Ordering::Greater
                ==> a.cmp_spec(c) != Ordering::Greater,
    ;

    fn cmp_exec(&self, other: &Self) -> (r: Ordering)
        ensures
            r == self.cmp_spec(other),
    ;
}

/// An element that can be compared through a lightweight key of type `Q`,
/// so a caller can query a sequence of elements without building a full
/// element value.
pub trait KeyProj<Q: TotalOrd>: Sized {
    /// The key this element is ordered by.
    spec fn proj(&self) -> Q;

    fn cmp_key(&self, q: &Q) -> (r: Ordering)
        ensures
            r == self.proj().cmp_spec(q),
    ;

    fn cmp_elem(&self, other: &Self) -> (r: Ordering)
        ensures
            r == self.proj().cmp_spec(&other.proj()),
    ;
}

/// The sequence is sorted ascending by each element's projected key.
pub open spec fn sorted_keys<T: KeyProj<Q>, Q: TotalOrd>(s: Seq<T>) -> bool {
    forall|i: int, j: int|
        0 <= i < j < s.len() ==> (#[trigger] s[i].proj().cmp_spec(&s[j].proj()))
            != Ordering::Greater
}

/// A strictly smaller key comes strictly earlier: `a <= b` and `b < c` give `a < c`.
pub proof fn lemma_le_lt_trans<Q: TotalOrd>(a: &Q, b: &Q, c: &Q)
    requires
        a.cmp_spec(b) != Ordering::Greater,
        b.cmp_spec(c) == Ordering::Less,
    ensures
        a.cmp_spec(c) == Ordering::Less,
{
    Q::lemma_cmp_laws(a, b, c);
    Q::lemma_cmp_laws(a, c, b);
    Q::lemma_cmp_laws(b, c, a);
    Q::lemma_cmp_laws(c, b, a);
}

/// Binary search over a sequence sorted by projected key.
///
/// On success the returned index holds an element whose key compares equal
/// to the query; on failure the returned index is the insertion position:
/// everything before it is strictly smaller, everything from it on is
/// strictly greater. Success is returned exactly when some element's key
/// compares equal to the query. The caller is responsible for sortedness;
/// it is a precondition, not a runtime check.
pub fn binary_search<T: KeyProj<Q>, Q: TotalOrd>(s: &[T], query: &Q) -> (r: Result<usize, usize>)
    requires
        sorted_keys::<T, Q>(s@),
    ensures
        r is Ok <==> exists|k: int|
            0 <= k < s@.len() && (#[trigger] s@[k].proj().cmp_spec(query)) == Ordering::Equal,
        match r {
            Ok(i) => i < s@.len() && s@[i as int].proj().cmp_spec(query) == Ordering::Equal,
            Err(i) => i <= s@.len() && (forall|j: int|
                0 <= j < i ==> (#[trigger] s@[j].proj().cmp_spec(query)) == Ordering::Less)
                && (forall|j: int|
                i <= j < s@.len() ==> (#[trigger] s@[j].proj().cmp_spec(query))
                    == Ordering::Greater),
        },
{
    let mut lo: usize = 0;
    let mut hi: usize = s.len();
    while lo < hi
        invariant
            sorted_keys::<T, Q>(s@),
            lo <= hi <= s@.len(),
            forall|j: int| 0 <= j < lo ==> (#[trigger] s@[j].proj().cmp_spec(query))
                == Ordering::Less,
            forall|j: int| hi <= j < s@.len() ==> (#[trigger] s@[j].proj().cmp_spec(query))
                == Ordering::Greater,
        decreases hi - lo,
    {
        let mid: usize = lo + (hi - lo) / 2;
        match s[mid].cmp_key(query) {
            Ordering::Equal => {
                return Ok(mid);
            },
            Ordering::Less => {
                proof {
                    assert forall|j: int| 0 <= j < mid + 1 implies (#[trigger] s@[
                        j].proj().cmp_spec(query)) == Ordering::Less by {
                        if j < mid {
                            lemma_le_lt_trans(&s@[j].proj(), &s@[mid as int].proj(), query);
                        }
                    }
                }
                lo = mid + 1;
            },
            Ordering::Greater => {
                proof {
                    assert forall|j: int| mid <= j < s@.len() implies (#[trigger] s@[
                        j].proj().cmp_spec(query)) == Ordering::Greater by {
                        if j > mid {
                            Q::lemma_cmp_laws(&s@[mid as int].proj(), &s@[j].proj(), query);
                        }
                    }
                }
                hi = mid;
            },
        }
    }
    Err(lo)
}

/// Linear containment test: does some element's key compare equal to the
/// query? Works on unsorted sequences.
pub fn contains<T: KeyProj<Q>, Q: TotalOrd>(s: &[T], query: &Q) -> (r: bool)
    ensures
        r <==> exists|k: int|
            0 <= k < s@.len() && (#[trigger] s@[k].proj().cmp_spec(query)) == Ordering::Equal,
{
    let mut i: usize = 0;
    while i < s.len()
        invariant
            i <= s@.len(),
            forall|j: int| 0 <= j < i ==> (#[trigger] s@[j].proj().cmp_spec(query))
                != Ordering::Equal,
        decreases s@.len() - i,
    {
        if matches!(s[i].cmp_key(query), Ordering::Equal) {
            return true;
        }
        i = i + 1;
    }
    false
}

/// Sort a vector ascending by projected key: the result is sorted and is a
/// rearrangement of the input (the same elements with multiplicity).
pub fn sort_by_key<T: KeyProj<Q>, Q: TotalOrd>(v: &mut Vec<T>)
    ensures
        sorted_keys::<T, Q>(final(v)@),
        final(v)@.to_multiset() == old(v)@.to_multiset(),
        final(v)@.len() == old(v)@.len(),
{
    broadcast use group_to_multiset_ensures;

    let mut i: usize = 1;
    while i < v.len()
        invariant
            1 <= i,
            v@.len() == old(v)@.len(),
            i <= v@.len() || v@.len() <= 1,
            v@.to_multiset() == old(v)@.to_multiset(),
            forall|p: int, q: int|
                0 <= p < q < i && q < v@.len() ==> (#[trigger] v@[p].proj().cmp_spec(
                    &v@[q].proj())) != Ordering::Greater,
        decreases v@.len() - i,
    {
        let ghost s = v@;
        let mut j: usize = i;
        let mut moving = true;
        while moving && j > 0
            invariant
                v@ == s,
                j <= i < s.len(),
                forall|k: int| j <= k < i ==> (#[trigger] s[k].proj().cmp_spec(
                    &s[i as int].proj())) == Ordering::Greater,
                !moving ==> j > 0 && s[j - 1].proj().cmp_spec(&s[i as int].proj())
                    != Ordering::Greater,
            decreases j, (if moving { 1int } else { 0int }),
        {
            if matches!(v[j - 1].cmp_elem(&v[i]), Ordering::Greater) {
                j = j - 1;
            } else {
                moving = false;
            }
        }
        let x = v.remove(i);
        v.insert(j, x);
        proof {
            broadcast use group_multiset_axioms;

            let w = v@;
            let xs = s[i as int];
            to_multiset_remove(s, i as int);
            to_multiset_insert(s.remove(i as int), j as int, xs);
            to_multiset_contains(s, xs);
            assert(s.contains(xs));
            assert(s.to_multiset().remove(xs).insert(xs) =~= s.to_multiset());
            assert(w.to_multiset() == s.to_multiset());
            assert forall|p: int, q: int|
                0 <= p < q < i + 1 && q < w.len() implies (#[trigger] w[p].proj().cmp_spec(
                    &w[q].proj())) != Ordering::Greater by {
                let ji = j as int;
                let ii = i as int;
                // w agrees with s before j, holds xs at j, and is shifted after j
                assert(forall|k: int| 0 <= k < ji ==> w[k] == s[k]);
                assert(w[ji] == xs);
                assert(forall|k: int| ji < k <= ii ==> w[k] == s[k - 1]);
                if q < ji {
                    // both inside the untouched sorted prefix
                } else if p < ji && q == ji {
                    // s[p] <= s[j-1] <= xs
                    if p < ji - 1 {
                        Q::lemma_cmp_laws(&s[p].proj(), &s[ji - 1].proj(), &xs.proj());
                    }
                } else if p == ji && q > ji {
                    // xs < s[q-1] since everything in [j, i) is greater than xs
                    Q::lemma_cmp_laws(&s[q - 1].proj(), &xs.proj(), &xs.proj());
                } else if p < ji && q > ji {
                    // inside the old sorted prefix, indices p and q-1
                } else {
                    // both after the insertion point: old indices p-1 and q-1
                }
            }
        }
        i = i + 1;
    }
    proof {
        if v@.len() <= 1 {
            assert forall|p: int, q: int| 0 <= p < q < v@.len() implies (#[trigger] v@[
                p].proj().cmp_spec(&v@[q].proj())) != Ordering::Greater by {}
        }
    }
}

/// Two sequences sorted by one total ordering and holding the same elements
/// with the same multiplicities are the same sequence: sorting determines
/// the result uniquely.
pub proof fn lemma_sorted_multiset_determines<A>(a: Seq<A>, b: Seq<A>, leq: spec_fn(A, A) -> bool)
    requires
        total_ordering(leq),
        forall|i: int, j: int| 0 <= i < j < a.len() ==> leq(a[i], a[j]),
        forall|i: int, j: int| 0 <= i < j < b.len() ==> leq(b[i], b[j]),
        a.to_multiset() == b.to_multiset(),
    ensures
        a == b,
    decreases a.len(),
{
    broadcast use group_to_multiset_ensures;

    assert(a.len() == a.to_multiset().len());
    assert(b.len() == b.to_multiset().len());
    assert(a.len() == b.len());
    if a.len() == 0 {
        assert(a =~= b);
    } else {
        assert(a.contains(a[0]));
        assert(b.to_multiset().count(a[0]) > 0);
        assert(b.contains(a[0]));
        let k = choose|k: int| 0 <= k < b.len() && b[k] == a[0];
        assert(b.contains(b[0]));
        assert(a.to_multiset().count(b[0]) > 0);
        assert(a.contains(b[0]));
        let m = choose|m: int| 0 <= m < a.len() && a[m] == b[0];
        assert(leq(b[0], a[0]));
        assert(leq(a[0], b[0]));
        assert(antisymmetric(leq));
        assert(a[0] == b[0]);
        let a1 = a.drop_first();
        let b1 = b.drop_first();
        assert(a.remove(0) =~= a1);
        assert(b.remove(0) =~= b1);
        assert(a1.to_multiset() =~= a.to_multiset().remove(a[0]));
        assert(b1.to_multiset() =~= b.to_multiset().remove(b[0]));
        lemma_sorted_multiset_determines(a1, b1, leq);
        assert(forall|i: int| 1 <= i < a.len() ==> a[i] == a1[i - 1] && b[i] == b1[i - 1]);
        assert(a =~= b);
    }
}

/// Two sequences sorted by a key projection, with no repeated key inside
/// either and the same elements with multiplicity, are the same sequence.
pub proof fn lemma_sorted_distinct_keys_determine<A, K>(
    a: Seq<A>,
    b: Seq<A>,
    key: spec_fn(A) -> K,
    kle: spec_fn(K, K) -> bool,
)
    requires
        total_ordering(kle),
        forall|i: int, j: int| 0 <= i < j < a.len() ==> kle(key(a[i]), key(a[j])),
        forall|i: int, j: int| 0 <= i < j < b.len() ==> kle(key(b[i]), key(b[j])),
        forall|i: int, j: int| 0 <= i < j < a.len() ==> key(a[i]) != key(a[j]),
        forall|i: int, j: int| 0 <= i < j < b.len() ==> key(b[i]) != key(b[j]),
        a.to_multiset() == b.to_multiset(),
    ensures
        a == b,
    decreases a.len(),
{
    broadcast use group_to_multiset_ensures;

    assert(a.len() == a.to_multiset().len());
    assert(b.len() == b.to_multiset().len());
    assert(a.len() == b.len());
    if a.len() == 0 {
        assert(a =~= b);
    } else {
        assert(a.contains(a[0]));
        assert(b.to_multiset().count(a[0]) > 0);
        assert(b.contains(a[0]));
        let k = choose|k: int| 0 <= k < b.len() && b[k] == a[0];
        assert(b.contains(b[0]));
        assert(a.to_multiset().count(b[0]) > 0);
        assert(a.contains(b[0]));
        let m = choose|m: int| 0 <= m < a.len() && a[m] == b[0];
        assert(kle(key(b[0]), key(a[0])));
        assert(kle(key(a[0]), key(b[0])));
        assert(antisymmetric(kle));
        assert(key(a[0]) == key(b[0]));
        if k > 0 {
            assert(key(b[0]) != key(b[k]));
            assert(false);
        }
        assert(a[0] == b[0]);
        let a1 = a.drop_first();
        let b1 = b.drop_first();
        assert(a.remove(0) =~= a1);
        assert(b.remove(0) =~= b1);
        assert(a1.to_multiset() =~= a.to_multiset().remove(a[0]));
        assert(b1.to_multiset() =~= b.to_multiset().remove(b[0]));
        lemma_sorted_distinct_keys_determine(a1, b1, key, kle);
        assert(forall|i: int| 1 <= i < a.len() ==> a[i] == a1[i - 1] && b[i] == b1[i - 1]);
        assert(a =~= b);
    }
}

/// Mapping a function over two sequences that hold the same elements with
/// the same multiplicities yields sequences that again do.
pub proof fn lemma_map_to_multiset<A, B>(a: Seq<A>, b: Seq<A>, f: spec_fn(A) -> B)
    requires
        a.to_multiset() == b.to_multiset(),
    ensures
        a.map_values(f).to_multiset() == b.map_values(f).to_multiset(),
    decreases a.len(),
{
    broadcast use group_multiset_axioms;

    to_multiset_len(a);
    to_multiset_len(b);
    if a.len() == 0 {
        assert(a.map_values(f) =~= b.map_values(f));
    } else {
        to_multiset_contains(a, a[0]);
        assert(a.contains(a[0]));
        to_multiset_contains(b, a[0]);
        assert(b.contains(a[0]));
        let k = choose|k: int| 0 <= k < b.len() && b[k] == a[0];
        let a1 = a.drop_first();
        let b1 = b.remove(k);
        assert(a.remove(0) =~= a1);
        to_multiset_remove(a, 0);
        to_multiset_remove(b, k);
        lemma_map_to_multiset(a1, b1, f);
        let ma = a.map_values(f);
        let mb = b.map_values(f);
        assert(a1.map_values(f) =~= ma.remove(0));
        assert(b1.map_values(f) =~= mb.remove(k));
        to_multiset_remove(ma, 0);
        to_multiset_remove(mb, k);
        assert(ma.to_multiset().remove(f(a[0])) == mb.to_multiset().remove(f(b[k])));
        assert(ma[0] == f(a[0]));
        to_multiset_contains(ma, f(a[0]));
        assert(ma.contains(f(a[0])));
        assert(mb[k] == f(b[k]));
        to_multiset_contains(mb, f(b[k]));
        assert(mb.contains(f(b[k])));
        assert(ma.to_multiset() =~= mb.to_multiset()) by {
            let x = f(a[0]);
            assert(ma.to_multiset().count(x) == ma.to_multiset().remove(x).count(x) + 1);
            assert(mb.to_multiset().count(x) == mb.to_multiset().remove(x).count(x) + 1);
            assert(forall|y: B| y != x ==> ma.to_multiset().count(y) == ma.to_multiset().remove(
                x).count(y) && mb.to_multiset().count(y) == mb.to_multiset().remove(x).count(y));
        }
    }
}

} // verus!
