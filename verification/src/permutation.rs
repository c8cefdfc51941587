//! Rearrangements: lists that hold the same entries, counted with
//! multiplicity, in any order.
use vstd::prelude::*;
use vstd::multiset::Multiset;
use crate::interconnection::concat_all;

verus! {

broadcast use {vstd::seq_lib::group_to_multiset_ensures, vstd::multiset::group_multiset_axioms};

/// The entries of all the lists, counted with multiplicity.
pub open spec fn multiset_sum<A>(ss: Seq<Seq<A>>) -> Multiset<A>
    decreases ss.len(),
{
    if ss.len() == 0 {
        Multiset::empty()
    } else {
        multiset_sum(ss.drop_last()).add(ss.last().to_multiset())
    }
}

/// The numbers `0..n`.
pub open spec fn vertex_indices(n: int) -> Seq<usize> {
    Seq::new(n as nat, |i: int| i as usize)
}

/// The entries of `s`, grouped by key: group `p` holds, in order, the
/// entries whose key is `p`, for `p` in `0..n`.
pub open spec fn buckets_by<A>(s: Seq<A>, key: spec_fn(A) -> int, n: nat) -> Seq<Seq<A>> {
    Seq::new(n, |p: int| s.filter(|x: A| key(x) == p))
}

pub proof fn lemma_empty_multiset<A>(s: Seq<A>)
    requires
        s.len() == 0,
    ensures
        s.to_multiset() == Multiset::<A>::empty(),
{
    assert(s.to_multiset().len() == 0);
}

/// Laying lists out one after the other keeps their entries.
pub proof fn lemma_concat_all_multiset<A>(ss: Seq<Seq<A>>)
    ensures
        concat_all(ss).to_multiset() == multiset_sum(ss),
    decreases ss.len(),
{
    if ss.len() == 0 {
        lemma_empty_multiset(concat_all(ss));
    } else {
        lemma_concat_all_multiset(ss.drop_last());
        vstd::seq_lib::lemma_multiset_commutative(concat_all(ss.drop_last()), ss.last());
    }
}

/// Appending `x` to one of the lists adds `x` to the entries.
proof fn lemma_multiset_sum_push_at<A>(ss: Seq<Seq<A>>, q: int, x: A)
    requires
        0 <= q < ss.len(),
    ensures
        multiset_sum(ss.update(q, ss[q].push(x))) == multiset_sum(ss).insert(x),
    decreases ss.len(),
{
    let tt = ss.update(q, ss[q].push(x));
    if q == ss.len() - 1 {
        assert(tt.drop_last() =~= ss.drop_last());
        assert(tt.last() == ss.last().push(x));
        assert(multiset_sum(tt) =~= multiset_sum(ss).insert(x));
    } else {
        lemma_multiset_sum_push_at(ss.drop_last(), q, x);
        assert(tt.drop_last() =~= ss.drop_last().update(q, ss[q].push(x)));
        assert(tt.last() == ss.last());
        assert(multiset_sum(tt) =~= multiset_sum(ss).insert(x));
    }
}

proof fn lemma_multiset_sum_empties<A>(ss: Seq<Seq<A>>)
    requires
        forall|k: int| 0 <= k < ss.len() ==> (#[trigger] ss[k]).len() == 0,
    ensures
        multiset_sum(ss) == Multiset::<A>::empty(),
    decreases ss.len(),
{
    if ss.len() > 0 {
        lemma_multiset_sum_empties(ss.drop_last());
        lemma_empty_multiset(ss.last());
        assert(multiset_sum(ss) =~= Multiset::<A>::empty());
    }
}

/// Grouping entries by a key in `0..n` keeps the entries.
pub proof fn lemma_buckets_multiset<A>(s: Seq<A>, key: spec_fn(A) -> int, n: nat)
    requires
        forall|i: int| 0 <= i < s.len() ==> 0 <= #[trigger] key(s[i]) < n,
    ensures
        multiset_sum(buckets_by(s, key, n)) == s.to_multiset(),
    decreases s.len(),
{
    if s.len() == 0 {
        lemma_multiset_sum_empties(buckets_by(s, key, n));
        lemma_empty_multiset(s);
    } else {
        let t = s.drop_last();
        let x = s.last();
        let q = key(x);
        assert(key(s[s.len() - 1]) == q);
        assert forall|i: int| 0 <= i < t.len() implies 0 <= #[trigger] key(t[i]) < n by {
            assert(t[i] == s[i]);
        }
        lemma_buckets_multiset(t, key, n);
        let bt = buckets_by(t, key, n);
        assert(s == t.push(x));
        assert(buckets_by(s, key, n) =~= bt.update(q, bt[q].push(x))) by {
            assert forall|p: int| 0 <= p < n implies #[trigger] buckets_by(s, key, n)[p] == bt.update(
                q,
                bt[q].push(x),
            )[p] by {
                let f = |y: A| key(y) == p;
                t.lemma_filter_push(x, f);
            }
        }
        lemma_multiset_sum_push_at(bt, q, x);
    }
}

/// Splitting a list by a predicate keeps its entries.
pub proof fn lemma_filter_split<A>(s: Seq<A>, p: spec_fn(A) -> bool)
    ensures
        s.filter(p).to_multiset().add(s.filter(|x: A| !p(x)).to_multiset()) == s.to_multiset(),
    decreases s.len(),
{
    let np = |x: A| !p(x);
    if s.len() == 0 {
        lemma_empty_multiset(s.filter(p));
        lemma_empty_multiset(s.filter(np));
        lemma_empty_multiset(s);
        assert(Multiset::<A>::empty().add(Multiset::<A>::empty()) =~= Multiset::<A>::empty());
    } else {
        let t = s.drop_last();
        let x = s.last();
        lemma_filter_split(t, p);
        assert(s == t.push(x));
        t.lemma_filter_push(x, p);
        t.lemma_filter_push(x, np);
        assert(s.filter(p).to_multiset().add(s.filter(np).to_multiset()) =~= s.to_multiset());
    }
}

/// Rearranged lists stay rearranged when every entry is replaced by its image.
pub proof fn lemma_map_multiset<A, B>(a: Seq<A>, b: Seq<A>, f: spec_fn(A) -> B)
    requires
        a.to_multiset() == b.to_multiset(),
    ensures
        a.map_values(f).to_multiset() == b.map_values(f).to_multiset(),
    decreases a.len(),
{
    assert(a.to_multiset().len() == a.len());
    assert(b.to_multiset().len() == b.len());
    if a.len() == 0 {
        assert(a.map_values(f) =~= b.map_values(f));
    } else {
        let x = a.last();
        assert(a.to_multiset().count(x) > 0) by {
            assert(a.contains(a[a.len() - 1]));
        }
        assert(b.contains(x));
        let i = choose|i: int| 0 <= i < b.len() && b[i] == x;
        let a1 = a.drop_last();
        let b1 = b.remove(i);
        assert(a =~= a1.push(x));
        assert(b1.to_multiset() == b.to_multiset().remove(x));
        assert(a1.to_multiset() == a.to_multiset().remove(x));
        lemma_map_multiset(a1, b1, f);
        assert(a.map_values(f) =~= a1.map_values(f).push(f(x)));
        assert(b.map_values(f).remove(i) =~= b1.map_values(f));
        assert(b.map_values(f)[i] == f(x));
        assert(b.map_values(f).remove(i).to_multiset() == b.map_values(f).to_multiset().remove(f(x)));
        assert(b.map_values(f).to_multiset().count(f(x)) > 0) by {
            assert(b.map_values(f).contains(b.map_values(f)[i]));
        }
        assert(a.map_values(f).to_multiset() =~= b.map_values(f).to_multiset());
    }
}

/// A list of distinct numbers below `n` that holds each of them is a
/// rearrangement of `0..n`.
pub proof fn lemma_covering_indices(s: Seq<usize>, n: int)
    requires
        0 <= n <= usize::MAX,
        forall|i: int, j: int| 0 <= i < j < s.len() ==> s[i] != s[j],
        forall|i: int| 0 <= i < s.len() ==> #[trigger] s[i] < n,
        forall|v: int| 0 <= v < n ==> #[trigger] s.contains(v as usize),
    ensures
        s.to_multiset() == vertex_indices(n).to_multiset(),
{
    let r = vertex_indices(n);
    s.lemma_multiset_has_no_duplicates();
    assert forall|i: int, j: int| 0 <= i < j < r.len() implies r[i] != r[j] by {}
    r.lemma_multiset_has_no_duplicates();
    assert forall|x: usize| #[trigger] s.to_multiset().count(x) == r.to_multiset().count(x) by {
        if x < n {
            assert(s.contains(x as int as usize));
            assert(r[x as int] == x);
            assert(r.contains(x));
        } else {
            if s.contains(x) {
                let i = choose|i: int| 0 <= i < s.len() && s[i] == x;
                assert(s[i] < n);
            }
            if r.contains(x) {
                let i = choose|i: int| 0 <= i < r.len() && r[i] == x;
            }
        }
    }
    assert(s.to_multiset() =~= r.to_multiset());
}



/// Keeping part of the entries of `b` keeps part of their images.
pub proof fn lemma_sub_multiset_map<A, B>(a: Seq<A>, b: Seq<A>, f: spec_fn(A) -> B)
    requires
        a.to_multiset().subset_of(b.to_multiset()),
    ensures
        a.map_values(f).to_multiset().subset_of(b.map_values(f).to_multiset()),
    decreases b.len(),
{
    if b.len() == 0 {
        if a.len() > 0 {
            assert(a.to_multiset().count(a[0]) > 0);
        }
        assert(a.map_values(f) =~= Seq::<B>::empty());
    } else {
        let y = b.last();
        let bd = b.drop_last();
        assert(b.remove(b.len() - 1) =~= bd);
        vstd::seq_lib::to_multiset_remove(b, b.len() - 1);
        assert(b.map_values(f).remove(b.len() - 1) =~= bd.map_values(f));
        vstd::seq_lib::to_multiset_remove(b.map_values(f), b.len() - 1);
        if a.to_multiset().count(y) > 0 {
            assert(a.contains(y));
            let k = choose|k: int| 0 <= k < a.len() && a[k] == y;
            vstd::seq_lib::to_multiset_remove(a, k);
            assert(a.remove(k).to_multiset().subset_of(bd.to_multiset()));
            lemma_sub_multiset_map(a.remove(k), bd, f);
            assert(a.map_values(f).remove(k) =~= a.remove(k).map_values(f));
            vstd::seq_lib::to_multiset_remove(a.map_values(f), k);
            assert(a.map_values(f)[k] == f(y));
            assert(b.map_values(f)[b.len() - 1] == f(y));
            assert(a.map_values(f).to_multiset().subset_of(b.map_values(f).to_multiset())) by {
                let am = a.map_values(f).to_multiset();
                let bm = b.map_values(f).to_multiset();
                assert forall|z: B| am.count(z) <= bm.count(z) by {
                    assert(am.remove(f(y)).count(z) <= bm.remove(f(y)).count(z));
                    assert(am.count(f(y)) >= 1);
                    assert(bm.count(f(y)) >= 1);
                }
            }
        } else {
            assert(a.to_multiset().subset_of(bd.to_multiset()));
            lemma_sub_multiset_map(a, bd, f);
            assert(a.map_values(f).to_multiset().subset_of(b.map_values(f).to_multiset())) by {
                let am = a.map_values(f).to_multiset();
                let bm = b.map_values(f).to_multiset();
                assert forall|z: B| am.count(z) <= bm.count(z) by {
                    assert(bm.remove(f(y)).count(z) <= bm.count(z));
                }
            }
        }
    }
}

/// Distinct numbers below `n` are part of `0..n`.
pub proof fn lemma_distinct_indices_sub(c: Seq<usize>, n: int)
    requires
        forall|i: int, j: int| 0 <= i < j < c.len() ==> c[i] != c[j],
        forall|i: int| 0 <= i < c.len() ==> #[trigger] c[i] < n,
        n <= usize::MAX + 1,
    ensures
        c.to_multiset().subset_of(vertex_indices(n).to_multiset()),
{
    c.lemma_multiset_has_no_duplicates();
    assert forall|x: usize| c.to_multiset().count(x) <= vertex_indices(n).to_multiset().count(x) by {
        if c.to_multiset().count(x) > 0 {
            assert(c.contains(x));
            let i = choose|i: int| 0 <= i < c.len() && c[i] == x;
            assert(vertex_indices(n)[x as int] == x);
            assert(vertex_indices(n).contains(x));
        }
    }
}

} // verus!
