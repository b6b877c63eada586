use vstd::prelude::*;

verus! {

/// Items that a hierarchy orders along an axis before it splits them in two.
pub trait SortKey {
    /// The key of the item along `axis`.
    spec fn key(&self, axis: int) -> int;

    /// Whether `self` comes strictly after `other` along `axis`.
    fn key_greater(&self, other: &Self, axis: usize) -> (r: bool)
        requires
            axis < 3,
        ensures
            r == (self.key(axis as int) > other.key(axis as int)),
    ;
}

/// `x` inserted into `s` after the last item whose key is not greater than its own.
pub open spec fn insert_sorted<T: SortKey>(s: Seq<T>, x: T, axis: int) -> Seq<T>
    decreases s.len(),
{
    if s.len() == 0 {
        seq![x]
    } else if s.last().key(axis) > x.key(axis) {
        insert_sorted(s.drop_last(), x, axis).push(s.last())
    } else {
        s.push(x)
    }
}

/// The stable sort of `s` by key along `axis`: items with equal keys keep their
/// relative order.
pub open spec fn sort_by_key<T: SortKey>(s: Seq<T>, axis: int) -> Seq<T>
    decreases s.len(),
{
    if s.len() == 0 {
        s
    } else {
        insert_sorted(sort_by_key(s.drop_last(), axis), s.last(), axis)
    }
}

/// The items of `s` are in order of their keys along `axis`.
pub open spec fn sorted_by_key<T: SortKey>(s: Seq<T>, axis: int) -> bool {
    forall|i: int, j: int| 0 <= i <= j < s.len() ==> #[trigger] s[i].key(axis) <= #[trigger] s[j].key(axis)
}

pub proof fn lemma_insert_len<T: SortKey>(s: Seq<T>, x: T, axis: int)
    ensures
        insert_sorted(s, x, axis).len() == s.len() + 1,
    decreases s.len(),
{
    if s.len() > 0 && s.last().key(axis) > x.key(axis) {
        lemma_insert_len(s.drop_last(), x, axis);
    }
}

/// Sorting keeps the number of items.
pub proof fn lemma_sort_len<T: SortKey>(s: Seq<T>, axis: int)
    ensures
        sort_by_key(s, axis).len() == s.len(),
    decreases s.len(),
{
    if s.len() > 0 {
        lemma_sort_len(s.drop_last(), axis);
        lemma_insert_len(sort_by_key(s.drop_last(), axis), s.last(), axis);
    }
}

/// Sorting a single item gives it back.
pub proof fn lemma_sort_single<T: SortKey>(s: Seq<T>, axis: int)
    requires
        s.len() == 1,
    ensures
        sort_by_key(s, axis) == s,
{
    assert(s.drop_last() =~= Seq::<T>::empty());
    assert(sort_by_key(s.drop_last(), axis) == s.drop_last());
    assert(seq![s.last()] =~= s);
}

pub proof fn lemma_insert_multiset<T: SortKey>(s: Seq<T>, x: T, axis: int)
    ensures
        insert_sorted(s, x, axis).to_multiset() == s.to_multiset().insert(x),
    decreases s.len(),
{
    broadcast use vstd::seq_lib::group_to_multiset_ensures;

    if s.len() == 0 {
        assert(seq![x] =~= Seq::<T>::empty().push(x));
    } else if s.last().key(axis) > x.key(axis) {
        lemma_insert_multiset(s.drop_last(), x, axis);
        assert(s =~= s.drop_last().push(s.last()));
        assert(insert_sorted(s, x, axis).to_multiset() =~= s.to_multiset().insert(x));
    }
}

/// Sorting only rearranges the items: the result holds each item as often as `s`.
pub proof fn lemma_sort_permutation<T: SortKey>(s: Seq<T>, axis: int)
    ensures
        sort_by_key(s, axis).to_multiset() == s.to_multiset(),
    decreases s.len(),
{
    broadcast use vstd::seq_lib::group_to_multiset_ensures;

    if s.len() > 0 {
        lemma_sort_permutation(s.drop_last(), axis);
        lemma_insert_multiset(sort_by_key(s.drop_last(), axis), s.last(), axis);
        assert(s =~= s.drop_last().push(s.last()));
    }
}

/// Every item of the sorted sequence is an item of `s`.
pub proof fn lemma_sort_contains<T: SortKey>(s: Seq<T>, axis: int)
    ensures
        forall|k: int|
            0 <= k < sort_by_key(s, axis).len() ==> s.contains(#[trigger] sort_by_key(s, axis)[k]),
{
    broadcast use vstd::seq_lib::group_to_multiset_ensures;

    lemma_sort_permutation(s, axis);
    let t = sort_by_key(s, axis);
    assert forall|k: int| 0 <= k < t.len() implies s.contains(#[trigger] t[k]) by {
        assert(t.contains(t[k]));
        assert(t.to_multiset().count(t[k]) > 0);
    }
}

/// Every item of `s` is an item of the sorted sequence.
pub proof fn lemma_sort_keeps<T: SortKey>(s: Seq<T>, axis: int)
    ensures
        forall|k: int| 0 <= k < s.len() ==> sort_by_key(s, axis).contains(#[trigger] s[k]),
{
    broadcast use vstd::seq_lib::group_to_multiset_ensures;

    lemma_sort_permutation(s, axis);
    let t = sort_by_key(s, axis);
    assert forall|k: int| 0 <= k < s.len() implies t.contains(#[trigger] s[k]) by {
        assert(s.contains(s[k]));
        assert(s.to_multiset().count(s[k]) > 0);
    }
}

pub proof fn lemma_insert_sorted<T: SortKey>(s: Seq<T>, x: T, axis: int)
    requires
        sorted_by_key(s, axis),
    ensures
        sorted_by_key(insert_sorted(s, x, axis), axis),
        forall|i: int|
            0 <= i < insert_sorted(s, x, axis).len() ==> (#[trigger] insert_sorted(s, x, axis)[i]
                == x || s.contains(insert_sorted(s, x, axis)[i])),
    decreases s.len(),
{
    lemma_insert_len(s, x, axis);
    if s.len() == 0 {
    } else if s.last().key(axis) > x.key(axis) {
        let d = s.drop_last();
        lemma_insert_sorted(d, x, axis);
        lemma_insert_len(d, x, axis);
        let r = insert_sorted(d, x, axis);
        assert forall|i: int| 0 <= i < r.len() implies #[trigger] r[i].key(axis) <= s.last().key(
            axis,
        ) by {
            if r[i] == x {
            } else {
                assert(d.contains(r[i]));
                let k = choose|k: int| 0 <= k < d.len() && d[k] == r[i];
                assert(s[k] == d[k]);
                assert(s[k].key(axis) <= s[s.len() - 1].key(axis));
            }
        }
        assert forall|i: int| 0 <= i < r.push(s.last()).len() implies (#[trigger] r.push(
            s.last(),
        )[i] == x || s.contains(r.push(s.last())[i])) by {
            if i < r.len() {
                if r[i] != x {
                    let k = choose|k: int| 0 <= k < d.len() && d[k] == r[i];
                    assert(s[k] == d[k]);
                }
            } else {
                assert(s[s.len() - 1] == s.last());
            }
        }
    } else {
        assert forall|i: int| 0 <= i < s.push(x).len() implies (#[trigger] s.push(x)[i] == x
            || s.contains(s.push(x)[i])) by {
            if i < s.len() {
                assert(s[i] == s.push(x)[i]);
            }
        }
        assert forall|i: int, j: int| 0 <= i <= j < s.push(x).len() implies #[trigger] s.push(
            x,
        )[i].key(axis) <= #[trigger] s.push(x)[j].key(axis) by {
            if j == s.len() && i < j {
                assert(s[i].key(axis) <= s[s.len() - 1].key(axis));
            }
        }
    }
}

/// Items already in order of their keys are left as they are: in particular,
/// items with equal keys keep their relative order.
pub proof fn lemma_sort_sorted_unchanged<T: SortKey>(s: Seq<T>, axis: int)
    requires
        sorted_by_key(s, axis),
    ensures
        sort_by_key(s, axis) == s,
    decreases s.len(),
{
    if s.len() > 0 {
        let d = s.drop_last();
        assert(sorted_by_key(d, axis)) by {
            assert forall|i: int, j: int| 0 <= i <= j < d.len() implies #[trigger] d[i].key(axis)
                <= #[trigger] d[j].key(axis) by {
                assert(d[i] == s[i] && d[j] == s[j]);
            }
        }
        lemma_sort_sorted_unchanged(d, axis);
        if d.len() > 0 {
            assert(d.last() == s[s.len() - 2]);
            assert(s[s.len() - 2].key(axis) <= s[s.len() - 1].key(axis));
        }
        assert(d.push(s.last()) =~= s);
    }
}

/// The stable sort puts the items in order of their keys.
pub proof fn lemma_sort_sorted<T: SortKey>(s: Seq<T>, axis: int)
    ensures
        sorted_by_key(sort_by_key(s, axis), axis),
    decreases s.len(),
{
    if s.len() > 0 {
        lemma_sort_sorted(s.drop_last(), axis);
        lemma_insert_sorted(sort_by_key(s.drop_last(), axis), s.last(), axis);
    }
}

} // verus!

verus! {

/// The stable merge of `a` and `b`: items are taken from the back, the one with
/// the greater key first, and from `b` when the keys are equal, so that items of
/// `a` come before items of `b` with the same key.
pub open spec fn merge_by_key<T: SortKey>(a: Seq<T>, b: Seq<T>, axis: int) -> Seq<T>
    decreases a.len() + b.len(),
{
    if a.len() == 0 {
        b
    } else if b.len() == 0 {
        a
    } else if a.last().key(axis) > b.last().key(axis) {
        merge_by_key(a.drop_last(), b, axis).push(a.last())
    } else {
        merge_by_key(a, b.drop_last(), axis).push(b.last())
    }
}

/// Inserting an item after a merge is merging with the item inserted into the
/// second sequence.
proof fn lemma_insert_merge<T: SortKey>(a: Seq<T>, b: Seq<T>, x: T, axis: int)
    ensures
        insert_sorted(merge_by_key(a, b, axis), x, axis) == merge_by_key(
            a,
            insert_sorted(b, x, axis),
            axis,
        ),
    decreases a.len() + b.len(),
{
    let xk = x.key(axis);
    if a.len() == 0 {
    } else if b.len() == 0 {
        let ak = a.last().key(axis);
        let ad = a.drop_last();
        assert(merge_by_key(a, b, axis) == a);
        assert(insert_sorted(b, x, axis) == seq![x]);
        let sx: Seq<T> = seq![x];
        assert(sx.last() == x);
        assert(sx.drop_last() =~= b);
        if ak > xk {
            lemma_insert_merge(ad, b, x, axis);
            assert(merge_by_key(ad, b, axis) == ad);
            assert(a.drop_last() == ad);
            assert(insert_sorted(a, x, axis) == insert_sorted(ad, x, axis).push(a.last()));
            assert(merge_by_key(a, sx, axis) == merge_by_key(ad, sx, axis).push(a.last()));
        } else {
            assert(insert_sorted(a, x, axis) == a.push(x));
            assert(merge_by_key(a, sx, axis) == merge_by_key(a, sx.drop_last(), axis).push(x));
            assert(merge_by_key(a, b, axis) == a);
        }
    } else {
        let ak = a.last().key(axis);
        let bk = b.last().key(axis);
        let ad = a.drop_last();
        let bd = b.drop_last();
        let m = merge_by_key(a, b, axis);
        let ib = insert_sorted(b, x, axis);
        lemma_insert_len(b, x, axis);
        if ak > bk {
            assert(m == merge_by_key(ad, b, axis).push(a.last()));
            assert(m.last() == a.last());
            assert(m.drop_last() =~= merge_by_key(ad, b, axis));
            if ak > xk {
                lemma_insert_merge(ad, b, x, axis);
                assert(insert_sorted(m, x, axis) == insert_sorted(m.drop_last(), x, axis).push(
                    m.last(),
                ));
                if bk > xk {
                    assert(ib == insert_sorted(bd, x, axis).push(b.last()));
                    assert(ib.last() == b.last());
                } else {
                    assert(ib == b.push(x));
                    assert(ib.last() == x);
                }
                assert(merge_by_key(a, ib, axis) == merge_by_key(ad, ib, axis).push(a.last()));
            } else {
                assert(insert_sorted(m, x, axis) == m.push(x));
                assert(ib == b.push(x));
                assert(ib.last() == x);
                assert(ib.drop_last() =~= b);
                assert(merge_by_key(a, ib, axis) == merge_by_key(a, ib.drop_last(), axis).push(x));
            }
        } else {
            assert(m == merge_by_key(a, bd, axis).push(b.last()));
            assert(m.last() == b.last());
            assert(m.drop_last() =~= merge_by_key(a, bd, axis));
            if bk > xk {
                lemma_insert_merge(a, bd, x, axis);
                assert(insert_sorted(m, x, axis) == insert_sorted(m.drop_last(), x, axis).push(
                    m.last(),
                ));
                assert(ib == insert_sorted(bd, x, axis).push(b.last()));
                assert(ib.last() == b.last());
                assert(ib.drop_last() =~= insert_sorted(bd, x, axis));
                assert(merge_by_key(a, ib, axis) == merge_by_key(a, ib.drop_last(), axis).push(
                    b.last(),
                ));
            } else {
                assert(insert_sorted(m, x, axis) == m.push(x));
                assert(ib == b.push(x));
                assert(ib.last() == x);
                assert(ib.drop_last() =~= b);
                assert(merge_by_key(a, ib, axis) == merge_by_key(a, ib.drop_last(), axis).push(x));
            }
        }
    }
}

/// Sorting a concatenation is merging the sorted parts.
pub proof fn lemma_sort_append<T: SortKey>(l: Seq<T>, r: Seq<T>, axis: int)
    ensures
        sort_by_key(l + r, axis) == merge_by_key(sort_by_key(l, axis), sort_by_key(r, axis), axis),
    decreases r.len(),
{
    if r.len() == 0 {
        assert(l + r =~= l);
    } else {
        let rd = r.drop_last();
        lemma_sort_append(l, rd, axis);
        assert((l + r).drop_last() =~= l + rd);
        assert((l + r).last() == r.last());
        lemma_insert_merge(sort_by_key(l, axis), sort_by_key(rd, axis), r.last(), axis);
    }
}

/// Merges the sorted runs `v[lo..mid]` and `v[mid..hi]` into one run.
fn merge_runs<T: SortKey + Copy>(v: &mut Vec<T>, lo: usize, mid: usize, hi: usize, axis: usize)
    requires
        lo <= mid <= hi <= old(v).len(),
        axis < 3,
    ensures
        final(v)@ == old(v)@.subrange(0, lo as int) + merge_by_key(
            old(v)@.subrange(lo as int, mid as int),
            old(v)@.subrange(mid as int, hi as int),
            axis as int,
        ) + old(v)@.subrange(hi as int, old(v)@.len() as int),
{
    let ghost a = v@.subrange(lo as int, mid as int);
    let ghost b = v@.subrange(mid as int, hi as int);
    let ghost orig = v@;
    let mut out: Vec<T> = Vec::new();
    let mut c = lo;
    while c < hi
        invariant
            lo <= c <= hi <= v@.len(),
            out@ == v@.subrange(lo as int, c as int),
        decreases hi - c,
    {
        out.push(v[c]);
        c = c + 1;
    }
    let mut i = mid;
    let mut j = hi;
    let mut k = hi - lo;
    assert(a.subrange(0, mid - lo) =~= a);
    assert(b.subrange(0, hi - mid) =~= b);
    assert(merge_by_key(a, b, axis as int) =~= merge_by_key(a, b, axis as int) + out@.subrange(
        k as int,
        (hi - lo) as int,
    ));
    while k > 0
        invariant
            lo <= i <= mid <= j <= hi <= v@.len(),
            v@ == orig,
            a == orig.subrange(lo as int, mid as int),
            b == orig.subrange(mid as int, hi as int),
            out@.len() == hi - lo,
            k == (i - lo) + (j - mid),
            axis < 3,
            merge_by_key(a, b, axis as int) == merge_by_key(
                a.subrange(0, i - lo),
                b.subrange(0, j - mid),
                axis as int,
            ) + out@.subrange(k as int, (hi - lo) as int),
        decreases k,
    {
        let ghost ai = a.subrange(0, i - lo);
        let ghost bj = b.subrange(0, j - mid);
        let ghost tail = out@.subrange(k as int, (hi - lo) as int);
        if i > lo && (j == mid || v[i - 1].key_greater(&v[j - 1], axis)) {
            let x = v[i - 1];
            proof {
                assert(ai.last() == x);
                assert(ai.drop_last() =~= a.subrange(0, i - 1 - lo));
                if j == mid {
                    assert(bj.len() == 0);
                    assert(merge_by_key(ai, bj, axis as int) == ai);
                    assert(merge_by_key(ai.drop_last(), bj, axis as int) == ai.drop_last());
                } else {
                    assert(bj.last() == v@[j - 1]);
                }
            }
            out.set(k - 1, x);
            proof {
                assert(out@.subrange(k - 1, (hi - lo) as int) =~= seq![x] + tail);
                assert(merge_by_key(ai, bj, axis as int) =~= merge_by_key(
                    ai.drop_last(),
                    bj,
                    axis as int,
                ) + seq![x]);
            }
            i = i - 1;
        } else {
            let y = v[j - 1];
            proof {
                assert(bj.last() == y);
                assert(bj.drop_last() =~= b.subrange(0, j - 1 - mid));
                if i == lo {
                    assert(ai.len() == 0);
                    assert(merge_by_key(ai, bj, axis as int) == bj);
                    assert(merge_by_key(ai, bj.drop_last(), axis as int) == bj.drop_last());
                } else {
                    assert(ai.last() == v@[i - 1]);
                }
            }
            out.set(k - 1, y);
            proof {
                assert(out@.subrange(k - 1, (hi - lo) as int) =~= seq![y] + tail);
                assert(merge_by_key(ai, bj, axis as int) =~= merge_by_key(
                    ai,
                    bj.drop_last(),
                    axis as int,
                ) + seq![y]);
            }
            j = j - 1;
        }
        k = k - 1;
    }
    proof {
        assert(a.subrange(0, 0) =~= Seq::<T>::empty());
        assert(b.subrange(0, 0) =~= Seq::<T>::empty());
        assert(out@.subrange(0, (hi - lo) as int) =~= out@);
        assert(merge_by_key(a, b, axis as int) == out@);
    }
    let mut w = lo;
    while w < hi
        invariant
            lo <= w <= hi <= v@.len(),
            v@.len() == orig.len(),
            out@.len() == hi - lo,
            forall|q: int| 0 <= q < lo ==> v@[q] == orig[q],
            forall|q: int| hi <= q < orig.len() ==> v@[q] == orig[q],
            forall|q: int| lo <= q < w ==> v@[q] == out@[q - lo],
        decreases hi - w,
    {
        v.set(w, out[w - lo]);
        w = w + 1;
    }
    assert(v@ =~= orig.subrange(0, lo as int) + out@ + orig.subrange(hi as int, orig.len() as int));
}

/// Sorts the items `v[lo..hi]` stably by key along `axis`, by merge sort; the
/// items outside that range stay where they are.
pub fn sort_range<T: SortKey + Copy>(v: &mut Vec<T>, lo: usize, hi: usize, axis: usize)
    requires
        lo <= hi <= old(v).len(),
        axis < 3,
    ensures
        final(v)@ == old(v)@.subrange(0, lo as int) + sort_by_key(
            old(v)@.subrange(lo as int, hi as int),
            axis as int,
        ) + old(v)@.subrange(hi as int, old(v)@.len() as int),
    decreases hi - lo,
{
    let ghost orig = v@;
    let ghost s = v@.subrange(lo as int, hi as int);
    if hi - lo <= 1 {
        proof {
            if s.len() == 1 {
                lemma_sort_single(s, axis as int);
            }
            assert(v@ =~= orig.subrange(0, lo as int) + sort_by_key(s, axis as int) + orig.subrange(
                hi as int,
                orig.len() as int,
            ));
        }
        return;
    }
    let mid = lo + (hi - lo) / 2;
    let ghost s1 = orig.subrange(lo as int, mid as int);
    let ghost s2 = orig.subrange(mid as int, hi as int);
    sort_range(v, lo, mid, axis);
    proof {
        lemma_sort_len(s1, axis as int);
        assert(v@.subrange(mid as int, hi as int) =~= s2);
    }
    let ghost v1 = v@;
    sort_range(v, mid, hi, axis);
    proof {
        lemma_sort_len(s2, axis as int);
        assert(v@.subrange(lo as int, mid as int) =~= sort_by_key(s1, axis as int));
        assert(v@.subrange(mid as int, hi as int) =~= sort_by_key(s2, axis as int));
    }
    let ghost v2 = v@;
    merge_runs(v, lo, mid, hi, axis);
    proof {
        assert(s =~= s1 + s2);
        lemma_sort_append(s1, s2, axis as int);
        assert(v@ =~= orig.subrange(0, lo as int) + sort_by_key(s, axis as int) + orig.subrange(
            hi as int,
            orig.len() as int,
        ));
    }
}

} // verus!
