//! Crossing numbers of two-layer drawings.
//!
//! A loose vertex is described by the sorted list of positions of its fixed
//! neighbours.  When a loose vertex `u` is drawn to the left of a loose vertex
//! `v`, an edge `(u, a)` crosses an edge `(v, b)` exactly when `a > b`.
use vstd::prelude::*;

verus! {

/// The list holds strictly increasing positions.
pub open spec fn strictly_sorted(s: Seq<usize>) -> bool {
    forall|i: int, j: int| 0 <= i < j < s.len() ==> s[i] < s[j]
}

/// Number of entries of `b` that are smaller than `x`.
pub open spec fn count_below(b: Seq<usize>, x: usize) -> nat
    decreases b.len(),
{
    if b.len() == 0 {
        0
    } else {
        count_below(b.drop_last(), x) + (if b.last() < x { 1nat } else { 0nat })
    }
}

/// Number of entries of `a` that are greater than `y`.
pub open spec fn count_above(a: Seq<usize>, y: usize) -> nat
    decreases a.len(),
{
    if a.len() == 0 {
        0
    } else {
        count_above(a.drop_last(), y) + (if a.last() > y { 1nat } else { 0nat })
    }
}

/// Number of pairs `(x, y)` with `x` taken from `a`, `y` from `b` and `x > y`:
/// the crossings between a vertex with neighbour list `a` drawn left of a
/// vertex with neighbour list `b`.
pub open spec fn crossings(a: Seq<usize>, b: Seq<usize>) -> nat
    decreases a.len(),
{
    if a.len() == 0 {
        0
    } else {
        crossings(a.drop_last(), b) + count_below(b, a.last())
    }
}

pub proof fn lemma_count_below_all(b: Seq<usize>, x: usize)
    requires
        forall|i: int| 0 <= i < b.len() ==> b[i] < x,
    ensures
        count_below(b, x) == b.len(),
    decreases b.len(),
{
    if b.len() > 0 {
        lemma_count_below_all(b.drop_last(), x);
    }
}

pub proof fn lemma_count_below_none(b: Seq<usize>, x: usize)
    requires
        forall|i: int| 0 <= i < b.len() ==> b[i] >= x,
    ensures
        count_below(b, x) == 0,
    decreases b.len(),
{
    if b.len() > 0 {
        lemma_count_below_none(b.drop_last(), x);
    }
}

pub proof fn lemma_count_above_none(a: Seq<usize>, y: usize)
    requires
        forall|i: int| 0 <= i < a.len() ==> a[i] <= y,
    ensures
        count_above(a, y) == 0,
    decreases a.len(),
{
    if a.len() > 0 {
        lemma_count_above_none(a.drop_last(), y);
    }
}

pub proof fn lemma_count_below_le(b: Seq<usize>, x: usize)
    ensures
        count_below(b, x) <= b.len(),
    decreases b.len(),
{
    if b.len() > 0 {
        lemma_count_below_le(b.drop_last(), x);
    }
}

/// Extending the right-hand list by one entry adds the entries of `a` above it.
pub proof fn lemma_crossings_push_right(a: Seq<usize>, b: Seq<usize>, y: usize)
    ensures
        crossings(a, b.push(y)) == crossings(a, b) + count_above(a, y),
    decreases a.len(),
{
    if a.len() > 0 {
        lemma_crossings_push_right(a.drop_last(), b, y);
        assert(b.push(y).drop_last() =~= b);
    }
}

/// Prefixes of the lists never have more crossings than the lists.
pub proof fn lemma_crossings_take_mono(a: Seq<usize>, b: Seq<usize>, i: int, j: int)
    requires
        0 <= i <= a.len(),
        0 <= j <= b.len(),
    ensures
        crossings(a.take(i), b.take(j)) <= crossings(a, b),
    decreases a.len() + b.len(),
{
    if j < b.len() {
        lemma_crossings_take_mono(a, b.drop_last(), i, j);
        assert(b.drop_last().take(j) =~= b.take(j));
        lemma_crossings_push_right(a, b.drop_last(), b.last());
        assert(b.drop_last().push(b.last()) =~= b);
    } else if i < a.len() {
        lemma_crossings_take_mono(a.drop_last(), b, i, j);
        assert(a.drop_last().take(i) =~= a.take(i));
    } else {
        assert(a.take(i) =~= a);
        assert(b.take(j) =~= b);
    }
}


// ---------------------------------------------------------------------------
// Crossing totals of an ordering.  `w(x, y)` is the cost of drawing `x` left of
// `y`; an ordering `s` costs the sum of `w(s[i], s[j])` over all `i < j`.
// ---------------------------------------------------------------------------

/// `w` with its arguments exchanged: the cost of the reversed drawing.
pub open spec fn flipped(w: spec_fn(usize, usize) -> nat) -> spec_fn(usize, usize) -> nat {
    |x: usize, y: usize| w(y, x)
}

/// Sum of `w(x, t[k])` over the entries of `t`.
pub open spec fn cost_to(w: spec_fn(usize, usize) -> nat, x: usize, t: Seq<usize>) -> nat
    decreases t.len(),
{
    if t.len() == 0 {
        0
    } else {
        cost_to(w, x, t.drop_last()) + w(x, t.last())
    }
}

/// Sum of `w(s[k], y)` over the entries of `s`.
pub open spec fn cost_from(w: spec_fn(usize, usize) -> nat, s: Seq<usize>, y: usize) -> nat
    decreases s.len(),
{
    if s.len() == 0 {
        0
    } else {
        cost_from(w, s.drop_last(), y) + w(s.last(), y)
    }
}

/// Sum of `w(x, y)` over `x` in `s` and `y` in `t`.
pub open spec fn cost_between(w: spec_fn(usize, usize) -> nat, s: Seq<usize>, t: Seq<usize>) -> nat
    decreases t.len(),
{
    if t.len() == 0 {
        0
    } else {
        cost_between(w, s, t.drop_last()) + cost_from(w, s, t.last())
    }
}

/// Cost of the ordering `s`: the sum of `w(s[i], s[j])` over `i < j`.
pub open spec fn order_cost(w: spec_fn(usize, usize) -> nat, s: Seq<usize>) -> nat
    decreases s.len(),
{
    if s.len() == 0 {
        0
    } else {
        order_cost(w, s.drop_last()) + cost_from(w, s.drop_last(), s.last())
    }
}

/// What the pairs of `a` and `b` with the middle part `m` contribute when `a`
/// stands left of `m` and `b` right of it.
pub open spec fn exchange_cost(w: spec_fn(usize, usize) -> nat, a: usize, m: Seq<usize>, b: usize) -> nat {
    w(a, b) + cost_to(w, a, m) + cost_from(w, m, b)
}

/// The ordering `s` with the entries at `i` and `j` exchanged.
pub open spec fn swapped<A>(s: Seq<A>, i: int, j: int) -> Seq<A> {
    s.update(i, s[j]).update(j, s[i])
}

/// Exchanging the same two entries twice gives the list back.
pub proof fn lemma_swapped_twice<A>(s: Seq<A>, i: int, j: int)
    requires
        0 <= i < s.len(),
        0 <= j < s.len(),
    ensures
        swapped(swapped(s, i, j), i, j) == s,
{
    assert(swapped(swapped(s, i, j), i, j) =~= s);
}

pub proof fn lemma_cost_from_concat(w: spec_fn(usize, usize) -> nat, s: Seq<usize>, t: Seq<usize>, y: usize)
    ensures
        cost_from(w, s + t, y) == cost_from(w, s, y) + cost_from(w, t, y),
    decreases t.len(),
{
    if t.len() == 0 {
        assert(s + t =~= s);
    } else {
        lemma_cost_from_concat(w, s, t.drop_last(), y);
        assert((s + t).drop_last() =~= s + t.drop_last());
    }
}

pub proof fn lemma_cost_to_concat(w: spec_fn(usize, usize) -> nat, x: usize, s: Seq<usize>, t: Seq<usize>)
    ensures
        cost_to(w, x, s + t) == cost_to(w, x, s) + cost_to(w, x, t),
    decreases t.len(),
{
    if t.len() == 0 {
        assert(s + t =~= s);
    } else {
        lemma_cost_to_concat(w, x, s, t.drop_last());
        assert((s + t).drop_last() =~= s + t.drop_last());
    }
}

pub proof fn lemma_cost_between_single_left(w: spec_fn(usize, usize) -> nat, x: usize, t: Seq<usize>)
    ensures
        cost_between(w, seq![x], t) == cost_to(w, x, t),
    decreases t.len(),
{
    if t.len() > 0 {
        lemma_cost_between_single_left(w, x, t.drop_last());
        reveal_with_fuel(cost_from, 2);
        assert(seq![x].drop_last() =~= Seq::<usize>::empty());
    }
}

pub proof fn lemma_cost_between_single_right(w: spec_fn(usize, usize) -> nat, s: Seq<usize>, y: usize)
    ensures
        cost_between(w, s, seq![y]) == cost_from(w, s, y),
{
    reveal_with_fuel(cost_between, 2);
    assert(seq![y].drop_last() =~= Seq::<usize>::empty());
}

pub proof fn lemma_cost_between_concat_right(
    w: spec_fn(usize, usize) -> nat,
    s: Seq<usize>,
    t: Seq<usize>,
    u: Seq<usize>,
)
    ensures
        cost_between(w, s, t + u) == cost_between(w, s, t) + cost_between(w, s, u),
    decreases u.len(),
{
    if u.len() == 0 {
        assert(t + u =~= t);
    } else {
        lemma_cost_between_concat_right(w, s, t, u.drop_last());
        assert((t + u).drop_last() =~= t + u.drop_last());
    }
}

pub proof fn lemma_cost_between_concat_left(
    w: spec_fn(usize, usize) -> nat,
    s: Seq<usize>,
    t: Seq<usize>,
    u: Seq<usize>,
)
    ensures
        cost_between(w, s + t, u) == cost_between(w, s, u) + cost_between(w, t, u),
    decreases u.len(),
{
    if u.len() > 0 {
        lemma_cost_between_concat_left(w, s, t, u.drop_last());
        lemma_cost_from_concat(w, s, t, u.last());
    }
}

/// The cost of a concatenation: both parts plus all pairs across.
pub proof fn lemma_order_cost_concat(w: spec_fn(usize, usize) -> nat, s: Seq<usize>, t: Seq<usize>)
    ensures
        order_cost(w, s + t) == order_cost(w, s) + order_cost(w, t) + cost_between(w, s, t),
    decreases t.len(),
{
    if t.len() == 0 {
        assert(s + t =~= s);
    } else {
        lemma_order_cost_concat(w, s, t.drop_last());
        assert((s + t).drop_last() =~= s + t.drop_last());
        lemma_cost_from_concat(w, s, t.drop_last(), t.last());
    }
}

pub proof fn lemma_order_cost_single(w: spec_fn(usize, usize) -> nat, x: usize)
    ensures
        order_cost(w, seq![x]) == 0,
{
    reveal_with_fuel(order_cost, 2);
    assert(seq![x].drop_last() =~= Seq::<usize>::empty());
}

/// Cost of `[x] + t`: the pairs of `x` with `t`, plus the cost of `t`.
pub proof fn lemma_order_cost_cons(w: spec_fn(usize, usize) -> nat, x: usize, t: Seq<usize>)
    ensures
        order_cost(w, seq![x] + t) == cost_to(w, x, t) + order_cost(w, t),
{
    lemma_order_cost_concat(w, seq![x], t);
    lemma_order_cost_single(w, x);
    lemma_cost_between_single_left(w, x, t);
}

/// Exchanging the entries at `i < j` changes the cost of an ordering by the
/// exchange cost of the new pair minus that of the old one.
pub proof fn lemma_order_cost_swap(w: spec_fn(usize, usize) -> nat, s: Seq<usize>, i: int, j: int)
    requires
        0 <= i < j < s.len(),
    ensures
        order_cost(w, swapped(s, i, j)) + exchange_cost(w, s[i], s.subrange(i + 1, j), s[j])
            == order_cost(w, s) + exchange_cost(w, s[j], s.subrange(i + 1, j), s[i]),
        exchange_cost(w, s[i], s.subrange(i + 1, j), s[j]) <= order_cost(w, s),
{
    let a = s[i];
    let b = s[j];
    let pa = s.subrange(0, i);
    let m = s.subrange(i + 1, j);
    let c = s.subrange(j + 1, s.len() as int);
    assert(s =~= pa + (seq![a] + (m + (seq![b] + c))));
    assert(swapped(s, i, j) =~= pa + (seq![b] + (m + (seq![a] + c))));
    lemma_cost_layout(w, pa, a, m, b, c);
    lemma_cost_layout(w, pa, b, m, a, c);
    lemma_cost_between_concat_right(w, pa, seq![a], m + (seq![b] + c));
    lemma_cost_between_concat_right(w, pa, m, seq![b] + c);
    lemma_cost_between_concat_right(w, pa, seq![b], c);
    lemma_cost_between_concat_right(w, pa, seq![b], m + (seq![a] + c));
    lemma_cost_between_concat_right(w, pa, m, seq![a] + c);
    lemma_cost_between_concat_right(w, pa, seq![a], c);
}

/// Cost of the ordering `p + [a] + m + [b] + c`, term by term.
proof fn lemma_cost_layout(
    w: spec_fn(usize, usize) -> nat,
    p: Seq<usize>,
    a: usize,
    m: Seq<usize>,
    b: usize,
    c: Seq<usize>,
)
    ensures
        order_cost(w, p + (seq![a] + (m + (seq![b] + c)))) == order_cost(w, p) + cost_between(
            w,
            p,
            seq![a] + (m + (seq![b] + c)),
        ) + order_cost(w, m) + order_cost(w, c) + cost_to(w, b, c) + cost_between(w, m, c)
            + cost_to(w, a, c) + exchange_cost(w, a, m, b),
{
    let r = seq![a] + (m + (seq![b] + c));
    lemma_order_cost_concat(w, p, r);
    lemma_order_cost_cons(w, a, m + (seq![b] + c));
    lemma_cost_to_concat(w, a, m, seq![b] + c);
    lemma_cost_to_concat(w, a, seq![b], c);
    reveal_with_fuel(cost_to, 2);
    assert(seq![b].drop_last() =~= Seq::<usize>::empty());
    lemma_order_cost_concat(w, m, seq![b] + c);
    lemma_order_cost_cons(w, b, c);
    lemma_cost_between_concat_right(w, m, seq![b], c);
    lemma_cost_between_single_right(w, m, b);
}

/// Cost of an ordering plus cost of its reverse: the sum of `w(x, y)` over
/// all ordered pairs of distinct positions.
pub open spec fn pair_mass(w: spec_fn(usize, usize) -> nat, s: Seq<usize>) -> nat {
    order_cost(w, s) + order_cost(flipped(w), s)
}

/// Both costs of `x` with every entry of `t`.
pub open spec fn cost_both(w: spec_fn(usize, usize) -> nat, x: usize, t: Seq<usize>) -> nat {
    cost_to(w, x, t) + cost_from(w, t, x)
}

pub proof fn lemma_cost_to_flipped(w: spec_fn(usize, usize) -> nat, x: usize, t: Seq<usize>)
    ensures
        cost_to(flipped(w), x, t) == cost_from(w, t, x),
        cost_from(flipped(w), t, x) == cost_to(w, x, t),
    decreases t.len(),
{
    if t.len() > 0 {
        lemma_cost_to_flipped(w, x, t.drop_last());
    }
}

/// The exchange cost under the reversed costs is the exchange cost of the
/// exchanged pair.
pub proof fn lemma_exchange_flipped(w: spec_fn(usize, usize) -> nat, a: usize, m: Seq<usize>, b: usize)
    ensures
        exchange_cost(flipped(w), a, m, b) == exchange_cost(w, b, m, a),
{
    lemma_cost_to_flipped(w, a, m);
    lemma_cost_to_flipped(w, b, m);
}

/// Exchanging two entries changes the cost by the difference of the exchange
/// costs, leaves the pair mass unchanged, and both exchange costs are bounded
/// by the pair mass.
pub proof fn lemma_swap_bounds(w: spec_fn(usize, usize) -> nat, s: Seq<usize>, i: int, j: int)
    requires
        0 <= i < j < s.len(),
    ensures
        order_cost(w, swapped(s, i, j)) + exchange_cost(w, s[i], s.subrange(i + 1, j), s[j])
            == order_cost(w, s) + exchange_cost(w, s[j], s.subrange(i + 1, j), s[i]),
        pair_mass(w, swapped(s, i, j)) == pair_mass(w, s),
        exchange_cost(w, s[i], s.subrange(i + 1, j), s[j]) <= pair_mass(w, s),
        exchange_cost(w, s[j], s.subrange(i + 1, j), s[i]) <= pair_mass(w, s),
{
    lemma_order_cost_swap(w, s, i, j);
    lemma_order_cost_swap(flipped(w), s, i, j);
    lemma_exchange_flipped(w, s[i], s.subrange(i + 1, j), s[j]);
    lemma_exchange_flipped(w, s[j], s.subrange(i + 1, j), s[i]);
}

pub proof fn lemma_cost_to_prefix(w: spec_fn(usize, usize) -> nat, x: usize, t: Seq<usize>, k: int)
    requires
        0 <= k <= t.len(),
    ensures
        cost_to(w, x, t.take(k)) <= cost_to(w, x, t),
        cost_from(w, t.take(k), x) <= cost_from(w, t, x),
{
    assert(t =~= t.take(k) + t.skip(k));
    lemma_cost_to_concat(w, x, t.take(k), t.skip(k));
    lemma_cost_from_concat(w, t.take(k), t.skip(k), x);
}

/// Removing the entry at `k` removes exactly its costs with the others.
pub proof fn lemma_pair_mass_remove(w: spec_fn(usize, usize) -> nat, s: Seq<usize>, k: int)
    requires
        0 <= k < s.len(),
    ensures
        pair_mass(w, s) == pair_mass(w, s.remove(k)) + cost_both(w, s[k], s.remove(k)),
{
    let a = s.subrange(0, k);
    let b = s.subrange(k + 1, s.len() as int);
    let x = s[k];
    assert(s =~= a + (seq![x] + b));
    assert(s.remove(k) =~= a + b);
    let fw = flipped(w);
    // costs with w
    lemma_order_cost_concat(w, a, seq![x] + b);
    lemma_order_cost_cons(w, x, b);
    lemma_cost_between_concat_right(w, a, seq![x], b);
    lemma_cost_between_single_right(w, a, x);
    lemma_order_cost_concat(w, a, b);
    // costs with flipped w
    lemma_order_cost_concat(fw, a, seq![x] + b);
    lemma_order_cost_cons(fw, x, b);
    lemma_cost_between_concat_right(fw, a, seq![x], b);
    lemma_cost_between_single_right(fw, a, x);
    lemma_order_cost_concat(fw, a, b);
    lemma_cost_to_flipped(w, x, a);
    lemma_cost_to_flipped(w, x, b);
    lemma_cost_to_concat(w, x, a, b);
    lemma_cost_from_concat(w, a, b, x);
}

/// Removing the entry at `k` from a sum over entries.
pub proof fn lemma_cost_both_remove(w: spec_fn(usize, usize) -> nat, x: usize, s: Seq<usize>, k: int)
    requires
        0 <= k < s.len(),
    ensures
        cost_both(w, x, s) == cost_both(w, x, s.remove(k)) + w(x, s[k]) + w(s[k], x),
{
    let a = s.subrange(0, k);
    let b = s.subrange(k + 1, s.len() as int);
    assert(s =~= a + (seq![s[k]] + b));
    assert(s.remove(k) =~= a + b);
    lemma_cost_to_concat(w, x, a, seq![s[k]] + b);
    lemma_cost_to_concat(w, x, seq![s[k]], b);
    lemma_cost_from_concat(w, a, seq![s[k]] + b, x);
    lemma_cost_from_concat(w, seq![s[k]], b, x);
    lemma_cost_to_concat(w, x, a, b);
    lemma_cost_from_concat(w, a, b, x);
    reveal_with_fuel(cost_to, 2);
    reveal_with_fuel(cost_from, 2);
    assert(seq![s[k]].drop_last() =~= Seq::<usize>::empty());
}

/// Costs of `x` with a part of the entries of `r` (counted with their
/// repetitions) are at most those with all.
pub proof fn lemma_cost_both_sub(w: spec_fn(usize, usize) -> nat, x: usize, p: Seq<usize>, r: Seq<usize>)
    requires
        p.to_multiset().subset_of(r.to_multiset()),
    ensures
        cost_both(w, x, p) <= cost_both(w, x, r),
    decreases r.len(),
{
    broadcast use {vstd::seq_lib::group_to_multiset_ensures, vstd::multiset::group_multiset_axioms};

    if r.len() == 0 {
        if p.len() > 0 {
            assert(p.to_multiset().count(p[0]) > 0);
        }
        assert(p =~= r);
    } else {
        let y = r.last();
        let rd = r.drop_last();
        lemma_cost_both_remove(w, x, r, r.len() - 1);
        assert(r.remove(r.len() - 1) =~= rd);
        vstd::seq_lib::to_multiset_remove(r, r.len() - 1);
        if p.to_multiset().count(y) > 0 {
            assert(p.contains(y));
            let k = choose|k: int| 0 <= k < p.len() && p[k] == y;
            vstd::seq_lib::to_multiset_remove(p, k);
            assert(p.remove(k).to_multiset().subset_of(rd.to_multiset()));
            lemma_cost_both_sub(w, x, p.remove(k), rd);
            lemma_cost_both_remove(w, x, p, k);
        } else {
            assert(p.to_multiset().subset_of(rd.to_multiset()));
            lemma_cost_both_sub(w, x, p, rd);
        }
    }
}

/// Any ordering of a part of the entries of `r` (counted with their
/// repetitions) has at most the pair mass of `r`.
pub proof fn lemma_pair_mass_sub(w: spec_fn(usize, usize) -> nat, p: Seq<usize>, r: Seq<usize>)
    requires
        p.to_multiset().subset_of(r.to_multiset()),
    ensures
        pair_mass(w, p) <= pair_mass(w, r),
    decreases r.len(),
{
    broadcast use {vstd::seq_lib::group_to_multiset_ensures, vstd::multiset::group_multiset_axioms};

    if r.len() == 0 {
        if p.len() > 0 {
            assert(p.to_multiset().count(p[0]) > 0);
        }
        assert(p =~= r);
    } else {
        let y = r.last();
        let rd = r.drop_last();
        lemma_pair_mass_remove(w, r, r.len() - 1);
        assert(r.remove(r.len() - 1) =~= rd);
        vstd::seq_lib::to_multiset_remove(r, r.len() - 1);
        if p.to_multiset().count(y) > 0 {
            assert(p.contains(y));
            let k = choose|k: int| 0 <= k < p.len() && p[k] == y;
            vstd::seq_lib::to_multiset_remove(p, k);
            assert(p.remove(k).to_multiset().subset_of(rd.to_multiset()));
            lemma_pair_mass_sub(w, p.remove(k), rd);
            lemma_pair_mass_remove(w, p, k);
            lemma_cost_both_sub(w, y, p.remove(k), rd);
        } else {
            assert(p.to_multiset().subset_of(rd.to_multiset()));
            lemma_pair_mass_sub(w, p, rd);
        }
    }
}

} // verus!
