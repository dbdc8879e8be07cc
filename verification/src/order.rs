//! Stable sorting by an integer key, as `slice::sort_by_key` does it.

use vstd::prelude::*;

verus! {

/// A value with an integer sort key.
pub trait Keyed {
    spec fn key(&self) -> int;
}

/// A value whose sort key can be computed at run time.
pub trait KeyedExec: Keyed + Sized {
    fn exec_key(&self) -> (k: usize)
        ensures
            k as int == self.key(),
    ;
}

/// Holds of values whose key is at most `k`.
pub open spec fn key_le<T: Keyed>(k: int) -> spec_fn(T) -> bool {
    |y: T| y.key() <= k
}

/// Holds of values whose key is above `k`.
pub open spec fn key_gt<T: Keyed>(k: int) -> spec_fn(T) -> bool {
    |y: T| y.key() > k
}

/// Holds of values whose key is `k`.
pub open spec fn key_eq<T: Keyed>(k: int) -> spec_fn(T) -> bool {
    |y: T| y.key() == k
}

/// Keys never decrease from left to right.
pub open spec fn sorted_by_key<T: Keyed>(s: Seq<T>) -> bool {
    forall|i: int, j: int| 0 <= i <= j < s.len() ==> s[i].key() <= s[j].key()
}

/// `x` placed after every element whose key is at most its own and before the others.
pub open spec fn insert_by_key<T: Keyed>(t: Seq<T>, x: T) -> Seq<T> {
    t.filter(key_le::<T>(x.key())).push(x) + t.filter(key_gt::<T>(x.key()))
}

/// The stable sort of `s` by key: each element, in turn, goes after all elements already placed
/// whose key is at most its own.
pub open spec fn sort_by_key<T: Keyed>(s: Seq<T>) -> Seq<T>
    decreases s.len(),
{
    if s.len() == 0 {
        s
    } else {
        insert_by_key(sort_by_key(s.drop_last()), s.last())
    }
}

/// In a sequence whose first `p` elements have key at most `k` and the others a larger key,
/// the two filters are the two halves.
pub proof fn lemma_filter_split<T: Keyed>(t: Seq<T>, k: int, p: int)
    requires
        0 <= p <= t.len(),
        forall|j: int| 0 <= j < p ==> (#[trigger] t[j]).key() <= k,
        forall|j: int| p <= j < t.len() ==> (#[trigger] t[j]).key() > k,
    ensures
        t.filter(key_le::<T>(k)) == t.take(p),
        t.filter(key_gt::<T>(k)) == t.skip(p),
    decreases t.len(),
{
    reveal(Seq::filter);
    if t.len() == 0 {
        assert(t.take(p) =~= t);
        assert(t.skip(p) =~= t);
    } else {
        let d = t.drop_last();
        if p == t.len() {
            lemma_filter_split(d, k, p - 1);
            assert(d.take(p - 1).push(t.last()) =~= t.take(p));
            assert(d.skip(p - 1) =~= t.skip(p));
        } else {
            lemma_filter_split(d, k, p);
            assert(d.take(p) =~= t.take(p));
            assert(d.skip(p).push(t.last()) =~= t.skip(p));
        }
    }
}

/// Filtering by key commutes with a map that keeps keys.
pub proof fn lemma_filter_map<T: Keyed, U: Keyed>(t: Seq<T>, f: spec_fn(T) -> U, k: int)
    requires
        forall|x: T| #[trigger] f(x).key() == x.key(),
    ensures
        t.map_values(f).filter(key_le::<U>(k)) == t.filter(key_le::<T>(k)).map_values(f),
        t.map_values(f).filter(key_gt::<U>(k)) == t.filter(key_gt::<T>(k)).map_values(f),
    decreases t.len(),
{
    reveal(Seq::filter);
    if t.len() == 0 {
        assert(t.map_values(f) =~= Seq::<U>::empty());
        assert(t.filter(key_le::<T>(k)).map_values(f) =~= Seq::<U>::empty());
        assert(t.filter(key_gt::<T>(k)).map_values(f) =~= Seq::<U>::empty());
    } else {
        let d = t.drop_last();
        lemma_filter_map(d, f, k);
        assert(t.map_values(f).drop_last() =~= d.map_values(f));
        assert(t.map_values(f).last() == f(t.last()));
        assert(d.filter(key_le::<T>(k)).push(t.last()).map_values(f) =~= d.filter(
            key_le::<T>(k),
        ).map_values(f).push(f(t.last())));
        assert(d.filter(key_gt::<T>(k)).push(t.last()).map_values(f) =~= d.filter(
            key_gt::<T>(k),
        ).map_values(f).push(f(t.last())));
    }
}

/// Sorting by key commutes with a map that keeps keys: the sort depends on keys alone.
pub proof fn lemma_sort_map<T: Keyed, U: Keyed>(s: Seq<T>, f: spec_fn(T) -> U)
    requires
        forall|x: T| #[trigger] f(x).key() == x.key(),
    ensures
        sort_by_key(s.map_values(f)) == sort_by_key(s).map_values(f),
    decreases s.len(),
{
    if s.len() == 0 {
        assert(s.map_values(f) =~= s.map_values(f));
    } else {
        let d = s.drop_last();
        lemma_sort_map(d, f);
        assert(s.map_values(f).drop_last() =~= d.map_values(f));
        let t = sort_by_key(d);
        let x = s.last();
        lemma_filter_map(t, f, x.key());
        assert(insert_by_key(t, x).map_values(f) =~= t.filter(key_le::<T>(x.key())).map_values(
            f,
        ).push(f(x)) + t.filter(key_gt::<T>(x.key())).map_values(f));
    }
}

/// A sorted sequence splits into the elements with key at most `k` and those after them.
pub proof fn lemma_split_point<T: Keyed>(t: Seq<T>, k: int) -> (p: int)
    requires
        sorted_by_key(t),
    ensures
        0 <= p <= t.len(),
        forall|j: int| 0 <= j < p ==> (#[trigger] t[j]).key() <= k,
        forall|j: int| p <= j < t.len() ==> (#[trigger] t[j]).key() > k,
    decreases t.len(),
{
    if t.len() == 0 {
        0
    } else {
        let d = t.drop_last();
        let q = lemma_split_point(d, k);
        if t.last().key() <= k {
            assert forall|j: int| 0 <= j < t.len() implies (#[trigger] t[j]).key() <= k by {
                assert(t[j].key() <= t[t.len() - 1].key());
            }
            t.len() as int
        } else {
            assert forall|j: int| 0 <= j < q implies (#[trigger] t[j]).key() <= k by {
                assert(t[j] == d[j]);
            }
            assert forall|j: int| q <= j < t.len() implies (#[trigger] t[j]).key() > k by {
                if j < t.len() - 1 {
                    assert(t[j] == d[j]);
                }
            }
            q
        }
    }
}

/// The stable sort is sorted by key.
pub proof fn lemma_sort_sorted<T: Keyed>(s: Seq<T>)
    ensures
        sorted_by_key(sort_by_key(s)),
    decreases s.len(),
{
    if s.len() > 0 {
        let t = sort_by_key(s.drop_last());
        let x = s.last();
        lemma_sort_sorted(s.drop_last());
        let p = lemma_split_point(t, x.key());
        lemma_filter_split(t, x.key(), p);
        let r = t.take(p).push(x) + t.skip(p);
        assert(sort_by_key(s) == r);
        assert forall|i: int, j: int| 0 <= i <= j < r.len() implies r[i].key() <= r[j].key() by {
            if i < p && j < p {
                assert(r[i] == t[i] && r[j] == t[j]);
            } else if i < p && j > p {
                assert(r[i] == t[i] && r[j] == t[j - 1]);
            } else if i < p {
                assert(r[i] == t[i]);
            } else if i > p {
                assert(r[i] == t[i - 1] && r[j] == t[j - 1]);
            } else if j > p {
                assert(r[j] == t[j - 1]);
            }
        }
    }
}

/// Sorting a sorted sequence leaves it as it is.
pub proof fn lemma_sort_of_sorted<T: Keyed>(s: Seq<T>)
    requires
        sorted_by_key(s),
    ensures
        sort_by_key(s) == s,
    decreases s.len(),
{
    if s.len() > 0 {
        let d = s.drop_last();
        let x = s.last();
        assert(sorted_by_key(d)) by {
            assert forall|i: int, j: int| 0 <= i <= j < d.len() implies d[i].key() <= d[j].key() by {
                assert(d[i] == s[i] && d[j] == s[j]);
            }
        }
        lemma_sort_of_sorted(d);
        assert forall|j: int| 0 <= j < d.len() implies (#[trigger] d[j]).key() <= x.key() by {
            assert(d[j] == s[j]);
        }
        lemma_filter_split(d, x.key(), d.len() as int);
        assert(d.take(d.len() as int) =~= d);
        assert(d.skip(d.len() as int) =~= Seq::<T>::empty());
        assert(d.push(x) + Seq::<T>::empty() =~= s);
    }
}

/// Filtering twice is filtering by the second predicate where it implies the first, and gives
/// nothing where the two exclude each other.
pub proof fn lemma_filter_filter<T>(t: Seq<T>, p: spec_fn(T) -> bool, q: spec_fn(T) -> bool)
    ensures
        (forall|x: T| #[trigger] q(x) ==> p(x)) ==> t.filter(p).filter(q) == t.filter(q),
        (forall|x: T| !(#[trigger] q(x) && p(x))) ==> t.filter(p).filter(q) == Seq::<T>::empty(),
    decreases t.len(),
{
    reveal(Seq::filter);
    if t.len() > 0 {
        lemma_filter_filter(t.drop_last(), p, q);
        let d = t.drop_last();
        if p(t.last()) {
            assert(d.filter(p).push(t.last()).drop_last() =~= d.filter(p));
        }
    } else {
        assert(t.filter(p).filter(q) =~= Seq::<T>::empty());
    }
}

/// The stable sort keeps, for each key, the elements with that key in their order: it is a
/// permutation that moves no element past another of the same key.
pub proof fn lemma_sort_stable<T: Keyed>(s: Seq<T>, k: int)
    ensures
        sort_by_key(s).filter(key_eq::<T>(k)) == s.filter(key_eq::<T>(k)),
    decreases s.len(),
{
    reveal(Seq::filter);
    if s.len() > 0 {
        let d = s.drop_last();
        let t = sort_by_key(d);
        let x = s.last();
        lemma_sort_stable(d, k);
        let le = key_le::<T>(x.key());
        let gt = key_gt::<T>(x.key());
        let eq = key_eq::<T>(k);
        Seq::filter_distributes_over_add(t.filter(le).push(x), t.filter(gt), eq);
        t.filter(le).lemma_filter_push(x, eq);
        lemma_filter_filter(t, le, eq);
        lemma_filter_filter(t, gt, eq);
        assert(s.drop_last() == d);
        if k == x.key() {
            assert(t.filter(gt).filter(eq) =~= Seq::<T>::empty());
            assert(t.filter(eq).push(x) + Seq::<T>::empty() =~= t.filter(eq).push(x));
        } else if k < x.key() {
            assert(t.filter(eq) + Seq::<T>::empty() =~= t.filter(eq));
        } else {
            assert(Seq::<T>::empty() + t.filter(eq) =~= t.filter(eq));
        }
    }
}

/// The stable sort holds exactly the elements of its input.
pub proof fn lemma_sort_contains<T: Keyed>(s: Seq<T>, y: T)
    ensures
        sort_by_key(s).contains(y) <==> s.contains(y),
{
    broadcast use vstd::seq_lib::group_filter_ensures;

    lemma_sort_stable(s, y.key());
    let eq = key_eq::<T>(y.key());
    if sort_by_key(s).contains(y) {
        let i = choose|i: int| 0 <= i < sort_by_key(s).len() && sort_by_key(s)[i] == y;
        sort_by_key(s).lemma_filter_contains(eq, i);
        s.lemma_filter_contains_rev(eq, y);
    }
    if s.contains(y) {
        let i = choose|i: int| 0 <= i < s.len() && s[i] == y;
        s.lemma_filter_contains(eq, i);
        sort_by_key(s).lemma_filter_contains_rev(eq, y);
    }
}

/// The sum of the keys.
pub open spec fn key_sum<T: Keyed>(s: Seq<T>) -> int
    decreases s.len(),
{
    if s.len() == 0 {
        0
    } else {
        key_sum(s.drop_last()) + s.last().key()
    }
}

/// The sum of the keys of a concatenation.
pub proof fn lemma_key_sum_append<T: Keyed>(a: Seq<T>, b: Seq<T>)
    ensures
        key_sum(a + b) == key_sum(a) + key_sum(b),
    decreases b.len(),
{
    if b.len() == 0 {
        assert(a + b =~= a);
    } else {
        lemma_key_sum_append(a, b.drop_last());
        assert((a + b).drop_last() =~= a + b.drop_last());
    }
}

/// Splitting by key at most `k` and above it keeps the sum.
pub proof fn lemma_key_sum_split<T: Keyed>(t: Seq<T>, k: int)
    ensures
        key_sum(t.filter(key_le::<T>(k))) + key_sum(t.filter(key_gt::<T>(k))) == key_sum(t),
    decreases t.len(),
{
    reveal(Seq::filter);
    if t.len() > 0 {
        lemma_key_sum_split(t.drop_last(), k);
        let d = t.drop_last();
        assert(d.filter(key_le::<T>(k)).push(t.last()).drop_last() =~= d.filter(key_le::<T>(k)));
        assert(d.filter(key_gt::<T>(k)).push(t.last()).drop_last() =~= d.filter(key_gt::<T>(k)));
    }
}

/// The stable sort keeps the sum of the keys.
pub proof fn lemma_sort_key_sum<T: Keyed>(s: Seq<T>)
    ensures
        key_sum(sort_by_key(s)) == key_sum(s),
    decreases s.len(),
{
    if s.len() > 0 {
        let t = sort_by_key(s.drop_last());
        let x = s.last();
        lemma_sort_key_sum(s.drop_last());
        lemma_key_sum_split(t, x.key());
        lemma_key_sum_append(t.filter(key_le::<T>(x.key())).push(x), t.filter(key_gt::<T>(x.key())));
        assert(t.filter(key_le::<T>(x.key())).push(x).drop_last() =~= t.filter(key_le::<T>(x.key())));
    }
}

/// Filters commute.
pub proof fn lemma_filter_commute<T>(t: Seq<T>, p: spec_fn(T) -> bool, q: spec_fn(T) -> bool)
    ensures
        t.filter(p).filter(q) == t.filter(q).filter(p),
    decreases t.len(),
{
    reveal(Seq::filter);
    if t.len() > 0 {
        let d = t.drop_last();
        let x = t.last();
        lemma_filter_commute(d, p, q);
        d.filter(p).lemma_filter_push(x, q);
        d.filter(q).lemma_filter_push(x, p);
    } else {
        assert(t.filter(p).filter(q) =~= t.filter(q).filter(p));
    }
}

/// The sum of the keys of a pushed sequence.
proof fn lemma_key_sum_push<T: Keyed>(t: Seq<T>, x: T)
    ensures
        key_sum(t.push(x)) == key_sum(t) + x.key(),
{
    assert(t.push(x).drop_last() =~= t);
}

/// The stable sort keeps the sum of the keys of the elements that any predicate selects.
pub proof fn lemma_sort_filter_key_sum<T: Keyed>(s: Seq<T>, p: spec_fn(T) -> bool)
    ensures
        key_sum(sort_by_key(s).filter(p)) == key_sum(s.filter(p)),
    decreases s.len(),
{
    reveal(Seq::filter);
    if s.len() > 0 {
        let d = s.drop_last();
        let x = s.last();
        let t = sort_by_key(d);
        lemma_sort_filter_key_sum(d, p);
        let le = key_le::<T>(x.key());
        let gt = key_gt::<T>(x.key());
        let a = t.filter(le).push(x);
        let b = t.filter(gt);
        Seq::filter_distributes_over_add(a, b, p);
        t.filter(le).lemma_filter_push(x, p);
        lemma_key_sum_append(a.filter(p), b.filter(p));
        lemma_filter_commute(t, le, p);
        lemma_filter_commute(t, gt, p);
        lemma_key_sum_split(t.filter(p), x.key());
        d.lemma_filter_push(x, p);
        assert(d.push(x) == s);
        if p(x) {
            lemma_key_sum_push(t.filter(le).filter(p), x);
            lemma_key_sum_push(d.filter(p), x);
        }
    }
}

/// Sorts `v` by key, keeping the order of elements with equal keys.
pub fn sort_stable<T: KeyedExec>(v: &mut Vec<T>)
    ensures
        final(v)@ == sort_by_key(old(v)@),
{
    let ghost orig = v@;
    let mut out: Vec<T> = Vec::new();
    let mut k: usize = 0;
    let n = v.len();
    proof {
        assert(orig.skip(0) =~= orig);
        assert(orig.take(0) =~= Seq::<T>::empty());
    }
    while k < n
        invariant
            n == orig.len(),
            k <= n,
            v@ == orig.skip(k as int),
            out@ == sort_by_key(orig.take(k as int)),
            sorted_by_key(out@),
        decreases n - k,
    {
        let x = v.remove(0);
        let kx = x.exec_key();
        let mut pos: usize = 0;
        while pos < out.len() && out[pos].exec_key() <= kx
            invariant
                pos <= out.len(),
                kx as int == x.key(),
                forall|j: int| 0 <= j < pos ==> (#[trigger] out@[j]).key() <= kx,
            decreases out.len() - pos,
        {
            pos += 1;
        }
        let ghost t = out@;
        proof {
            assert forall|j: int| pos <= j < t.len() implies (#[trigger] t[j]).key() > kx by {
                assert(t[pos as int].key() > kx);
                assert(t[pos as int].key() <= t[j].key());
            }
            lemma_filter_split(t, kx as int, pos as int);
            assert(orig.take(k + 1).drop_last() =~= orig.take(k as int));
            assert(orig.take(k + 1).last() == x) by {
                assert(orig.skip(k as int)[0] == orig[k as int]);
            }
            assert(t.take(pos as int).push(x) + t.skip(pos as int) =~= t.insert(pos as int, x));
        }
        out.insert(pos, x);
        proof {
            assert(v@ =~= orig.skip(k + 1));
            assert forall|i: int, j: int| 0 <= i <= j < out@.len() implies out@[i].key()
                <= out@[j].key() by {
                if j < pos {
                } else if j == pos {
                    if i < pos {
                        assert(out@[i] == t[i]);
                    }
                } else if i < pos {
                    assert(out@[i] == t[i]);
                    assert(out@[j] == t[j - 1]);
                    assert(t[i].key() <= t[j - 1].key());
                } else if i == pos {
                    assert(out@[j] == t[j - 1]);
                } else {
                    assert(out@[i] == t[i - 1]);
                    assert(out@[j] == t[j - 1]);
                }
            }
        }
        k += 1;
    }
    proof {
        assert(orig.take(n as int) =~= orig);
    }
    *v = out;
}

} // verus!
