//! Whether an interconnection matrix can be handed to the solver: its
//! neighbour lists are sorted fixed positions, its loose vertices refer to
//! existing lists, at least one has an edge, and the crossings of every pair
//! of loose vertices, and of all pairs together in both orders, fit in a
//! `u32` (so every crossing count of the solver does).
use vstd::prelude::*;
use crate::crossing::{
    count_below, cost_from, crossings, flipped, order_cost, pair_mass, strictly_sorted,
};
use std::sync::atomic::AtomicBool;
use crate::heuristic_solver::{
    loose_order_ok, names, orphans_of, same_blocks, solve, solver_blocks, start_blocks, total_cost,
};
use crate::interconnection::{concat_all, lemma_seq_sum_prefix_le, refs, seq_sum, COOInterconnectionMatrix};

verus! {

/// The checks made before solving: the solver can work on the loose order
/// (`loose_order_ok`), and some loose vertex has an edge.
pub open spec fn solver_input_ok(m: COOInterconnectionMatrix) -> bool {
    &&& m.wf()
    &&& exists|i: int| 0 <= i < m.loose@.len() && m.nbrs(#[trigger] m.loose@[i].1).len() > 0
    &&& m.pairs_fit(m.loose@)
    &&& pair_mass(m.cost(), refs(m.loose@)) <= u32::MAX
}

/// 2^32, the smallest count that does not fit in a `u32`.
pub const COUNT_CAP: u64 = 4294967296;

/// `x`, or `COUNT_CAP` when `x` is larger.
pub open spec fn capped(x: nat) -> nat {
    if x < COUNT_CAP {
        x
    } else {
        COUNT_CAP as nat
    }
}

/// `crossings(a, b)` capped at `COUNT_CAP`: for every entry of `a`, the
/// entries of `b` below it are counted.
fn crossings_capped(a: &Vec<usize>, b: &Vec<usize>) -> (res: u64)
    ensures
        res == capped(crossings(a@, b@)),
{
    let mut total: u64 = 0;
    let mut i: usize = 0;
    while i < a.len()
        invariant
            i <= a@.len(),
            total == capped(crossings(a@.take(i as int), b@)),
        decreases a@.len() - i,
    {
        let x = a[i];
        let mut c: u64 = 0;
        let mut k: usize = 0;
        while k < b.len()
            invariant
                k <= b@.len(),
                c <= k,
                c == count_below(b@.take(k as int), x),
            decreases b@.len() - k,
        {
            proof {
                assert(b@.take(k + 1).drop_last() =~= b@.take(k as int));
            }
            if b[k] < x {
                c = c + 1;
            }
            k += 1;
        }
        proof {
            assert(b@.take(k as int) =~= b@);
            assert(a@.take(i + 1).drop_last() =~= a@.take(i as int));
            assert(a@.take(i + 1).last() == x);
        }
        if total == COUNT_CAP || c >= COUNT_CAP - total {
            total = COUNT_CAP;
        } else {
            total = total + c;
        }
        i += 1;
    }
    proof {
        assert(a@.take(i as int) =~= a@);
    }
    total
}

proof fn lemma_count_below_len(b: Seq<usize>, x: usize)
    ensures
        count_below(b, x) <= b.len(),
    decreases b.len(),
{
    if b.len() > 0 {
        lemma_count_below_len(b.drop_last(), x);
    }
}

/// Two loose vertices cross at most once per pair of their edges.
proof fn lemma_crossings_le_product(a: Seq<usize>, b: Seq<usize>)
    ensures
        crossings(a, b) <= a.len() * b.len(),
    decreases a.len(),
{
    if a.len() > 0 {
        lemma_crossings_le_product(a.drop_last(), b);
        lemma_count_below_len(b, a.last());
        assert((a.len() - 1) * b.len() + b.len() == a.len() * b.len()) by (nonlinear_arith);
    }
}

/// The crossings of `u` left of `v` and of `v` left of `u`, each capped at
/// `COUNT_CAP`: counted by merging the neighbour lists when the product of
/// the degrees bounds both counts within a `u32`, entry by entry otherwise.
fn pair_crossings(m: &COOInterconnectionMatrix, u: usize, v: usize) -> (res: (u64, u64))
    requires
        m.wf(),
        u < m.adjacency_list@.len(),
        v < m.adjacency_list@.len(),
    ensures
        res.0 == capped(m.cross(u, v)),
        res.1 == capped(m.cross(v, u)),
{
    let du = m.adjacency_list[u].len() as u64;
    let dv = m.adjacency_list[v].len() as u64;
    match du.checked_mul(dv) {
        Some(p) => {
            if p <= 4294967295 {
                proof {
                    lemma_crossings_le_product(m.nbrs(u), m.nbrs(v));
                    lemma_crossings_le_product(m.nbrs(v), m.nbrs(u));
                    assert(m.nbrs(v).len() * m.nbrs(u).len() == m.nbrs(u).len() * m.nbrs(v).len()) by (nonlinear_arith);
                }
                let (a, b) = m.calc_local_cross_count_touple_between_edgelists(u, v);
                return (a as u64, b as u64);
            }
        },
        None => {},
    }
    (
        crossings_capped(&m.adjacency_list[u], &m.adjacency_list[v]),
        crossings_capped(&m.adjacency_list[v], &m.adjacency_list[u]),
    )
}

/// The pair costs of a prefix are at most those of the whole list.
proof fn lemma_order_cost_take(w: spec_fn(usize, usize) -> nat, s: Seq<usize>, k: int)
    requires
        0 <= k <= s.len(),
    ensures
        order_cost(w, s.take(k)) <= order_cost(w, s),
    decreases s.len(),
{
    if k == s.len() {
        assert(s.take(k) =~= s);
    } else {
        lemma_order_cost_take(w, s.drop_last(), k);
        assert(s.drop_last().take(k) =~= s.take(k));
    }
}

/// The costs of a vertex with a prefix are at most those with the whole list.
proof fn lemma_cost_from_take(w: spec_fn(usize, usize) -> nat, s: Seq<usize>, y: usize, k: int)
    requires
        0 <= k <= s.len(),
    ensures
        cost_from(w, s.take(k), y) <= cost_from(w, s, y),
    decreases s.len(),
{
    if k == s.len() {
        assert(s.take(k) =~= s);
    } else {
        lemma_cost_from_take(w, s.drop_last(), y, k);
        assert(s.drop_last().take(k) =~= s.take(k));
    }
}

/// Whether every pair of loose vertices (a vertex with itself too) has at
/// most `u32::MAX` crossings in each order, and all pairs together, in both
/// orders, at most `u32::MAX`.
fn crossings_fit(m: &COOInterconnectionMatrix) -> (res: bool)
    requires
        m.wf(),
    ensures
        res == (m.pairs_fit(m.loose@) && pair_mass(m.cost(), refs(m.loose@)) <= u32::MAX),
{
    let n = m.loose.len();
    let ghost r = refs(m.loose@);
    let ghost w = m.cost();
    let mut sum: u64 = 0;
    let mut j: usize = 0;
    proof {
        assert(r.take(0) =~= Seq::<usize>::empty());
    }
    while j < n
        invariant
            m.wf(),
            n == m.loose@.len(),
            r == refs(m.loose@),
            w == m.cost(),
            j <= n,
            sum == pair_mass(w, r.take(j as int)),
            sum <= u32::MAX,
            forall|k: int, l: int| 0 <= k < j && 0 <= l < j ==> #[trigger] m.cross(m.loose@[k].1, m.loose@[l].1) <= u32::MAX,
        decreases n - j,
    {
        let xj = m.loose[j].1;
        proof {
            assert(r[j as int] == xj);
        }
        let (cjj, _) = pair_crossings(m, xj, xj);
        if cjj == COUNT_CAP {
            proof {
                assert(m.cross(m.loose@[j as int].1, m.loose@[j as int].1) > u32::MAX);
            }
            return false;
        }
        let mut part: u64 = 0;
        let mut i: usize = 0;
        proof {
            assert(r.take(0) =~= Seq::<usize>::empty());
        }
        while i < j
            invariant
                m.wf(),
                n == m.loose@.len(),
                r == refs(m.loose@),
                w == m.cost(),
                j < n,
                i <= j,
                xj == r[j as int],
                sum == pair_mass(w, r.take(j as int)),
                part == cost_from(w, r.take(i as int), xj) + cost_from(flipped(w), r.take(i as int), xj),
                sum + part <= u32::MAX,
                forall|k: int| 0 <= k < i ==> #[trigger] m.cross(m.loose@[k].1, xj) <= u32::MAX && m.cross(
                    xj,
                    m.loose@[k].1,
                ) <= u32::MAX,
            decreases j - i,
        {
            let xi = m.loose[i].1;
            proof {
                assert(r[i as int] == xi);
                assert(r.take(i + 1).drop_last() =~= r.take(i as int));
                assert(r.take(i + 1).last() == xi);
            }
            let (a, b) = pair_crossings(m, xi, xj);
            if a == COUNT_CAP {
                proof {
                    assert(m.cross(m.loose@[i as int].1, m.loose@[j as int].1) > u32::MAX);
                }
                return false;
            }
            if b == COUNT_CAP {
                proof {
                    assert(m.cross(m.loose@[j as int].1, m.loose@[i as int].1) > u32::MAX);
                }
                return false;
            }
            if a + b > 4294967295 - sum - part {
                proof {
                    let pre = r.take(j as int);
                    assert(pre.take(i + 1) =~= r.take(i + 1));
                    lemma_cost_from_take(w, pre, xj, i + 1);
                    lemma_cost_from_take(flipped(w), pre, xj, i + 1);
                    assert(r.take(j + 1).drop_last() =~= pre);
                    assert(r.take(j + 1).last() == xj);
                    lemma_order_cost_take(w, r, j + 1);
                    lemma_order_cost_take(flipped(w), r, j + 1);
                }
                return false;
            }
            part = part + a + b;
            i += 1;
        }
        proof {
            assert(r.take(j + 1).drop_last() =~= r.take(j as int));
            assert(r.take(j + 1).last() == xj);
            assert forall|k: int, l: int| 0 <= k < j + 1 && 0 <= l < j + 1 implies #[trigger] m.cross(
                m.loose@[k].1,
                m.loose@[l].1,
            ) <= u32::MAX by {
                if k < j && l == j {
                    assert(m.cross(m.loose@[k].1, xj) <= u32::MAX);
                } else if k == j && l < j {
                    assert(m.cross(m.loose@[l].1, xj) <= u32::MAX);
                    assert(m.cross(xj, m.loose@[l].1) <= u32::MAX);
                }
            }
        }
        sum = sum + part;
        j += 1;
    }
    proof {
        assert(r.take(j as int) =~= r);
    }
    true
}

/// What the checks establish: the solver can work on the loose order.
pub proof fn lemma_checked_input_solvable(m: COOInterconnectionMatrix)
    requires
        solver_input_ok(m),
    ensures
        loose_order_ok(m),
{
}

/// Whether a neighbour list is strictly sorted, holds fixed positions only,
/// and has a sum that fits in a `usize`.
fn neighbour_list_ok(list: &Vec<usize>, fixed_len: usize) -> (res: bool)
    ensures
        res == (strictly_sorted(list@) && (forall|k: int| 0 <= k < list@.len() ==> #[trigger] list@[k] < fixed_len)
            && seq_sum(list@) <= usize::MAX),
{
    let mut sum: usize = 0;
    let mut k: usize = 0;
    while k < list.len()
        invariant
            k <= list@.len(),
            strictly_sorted(list@.take(k as int)),
            forall|j: int| 0 <= j < k ==> #[trigger] list@[j] < fixed_len,
            sum == seq_sum(list@.take(k as int)),
        decreases list@.len() - k,
    {
        proof {
            assert(list@.take(k + 1).drop_last() =~= list@.take(k as int));
            assert(list@.take(k + 1).last() == list@[k as int]);
        }
        if list[k] >= fixed_len {
            return false;
        }
        if k > 0 && list[k - 1] >= list[k] {
            proof {
                assert(!strictly_sorted(list@));
            }
            return false;
        }
        match sum.checked_add(list[k]) {
            Some(t) => {
                sum = t;
            },
            None => {
                proof {
                    lemma_seq_sum_prefix_le(list@, k + 1);
                }
                return false;
            },
        }
        proof {
            let t = list@.take(k + 1);
            assert forall|i: int, j: int| 0 <= i < j < k + 1 implies #[trigger] t[i] < #[trigger] t[j] by {
                if j < k {
                    assert(list@.take(k as int)[i] < list@.take(k as int)[j]);
                } else if i < k - 1 {
                    assert(list@.take(k as int)[i] < list@.take(k as int)[k - 1]);
                }
            }
        }
        k += 1;
    }
    proof {
        assert(list@.take(k as int) =~= list@);
    }
    true
}

/// Whether the solver can be run on the matrix: see `solver_input_ok`.
pub fn check_solver_input(m: &COOInterconnectionMatrix) -> (res: bool)
    ensures
        res == solver_input_ok(*m),
{
    if m.fixed.len() == usize::MAX {
        return false;
    }
    let n_adj = m.adjacency_list.len();
    let mut r: usize = 0;
    while r < n_adj
        invariant
            n_adj == m.adjacency_list@.len(),
            r <= n_adj,
            m.fixed@.len() < usize::MAX,
            forall|q: int| 0 <= q < r ==> strictly_sorted(#[trigger] m.adjacency_list@[q]@),
            forall|q: int, k: int| 0 <= q < r && 0 <= k < m.adjacency_list@[q]@.len() ==> #[trigger] m.adjacency_list@[q]@[k]
                < m.fixed@.len(),
            forall|q: int| 0 <= q < r ==> seq_sum(#[trigger] m.adjacency_list@[q]@) <= usize::MAX,
        decreases n_adj - r,
    {
        if !neighbour_list_ok(&m.adjacency_list[r], m.fixed.len()) {
            return false;
        }
        r += 1;
    }
    let n = m.loose.len();
    let mut has_edge = false;
    let mut i: usize = 0;
    while i < n
        invariant
            n == m.loose@.len(),
            n_adj == m.adjacency_list@.len(),
            i <= n,
            forall|j: int| 0 <= j < i ==> #[trigger] m.loose@[j].1 < n_adj,
            has_edge <==> exists|j: int| 0 <= j < i && m.nbrs(#[trigger] m.loose@[j].1).len() > 0,
        decreases n - i,
    {
        let x = m.loose[i].1;
        if x >= n_adj {
            return false;
        }
        if m.adjacency_list[x].len() > 0 {
            has_edge = true;
        }
        i += 1;
    }
    if !has_edge {
        return false;
    }
    crossings_fit(m)
}

/// Solves the instance when it passes the checks of `check_solver_input`;
/// `None` (and the matrix unchanged) when it does not.
pub fn solve_checked(interconnection_matrix: &mut COOInterconnectionMatrix, termination_signal: &AtomicBool) -> (res:
    Option<Vec<i32>>)
    ensures
        res is Some <==> solver_input_ok(*old(interconnection_matrix)),
        res is None ==> *final(interconnection_matrix) == *old(interconnection_matrix),
        res matches Some(order) ==> {
            &&& order@.to_multiset() == names(old(interconnection_matrix).loose@).to_multiset()
            &&& order@.take(orphans_of(*old(interconnection_matrix)).len() as int) == names(
                orphans_of(*old(interconnection_matrix)),
            )
            &&& exists|bs0: Seq<Seq<(i32, usize)>>, bs: Seq<Seq<(i32, usize)>>|
                order@ == names(orphans_of(*old(interconnection_matrix))) + names(concat_all(bs)) && solver_blocks(
                    *final(interconnection_matrix),
                    bs,
                ) && start_blocks(*final(interconnection_matrix), bs0) && same_blocks(bs0, bs) && total_cost(
                    *final(interconnection_matrix),
                    bs,
                ) <= total_cost(*final(interconnection_matrix), bs0)
        },
{
    if !check_solver_input(interconnection_matrix) {
        return None;
    }
    proof {
        lemma_checked_input_solvable(*interconnection_matrix);
    }
    Some(solve(interconnection_matrix, termination_signal))
}

} // verus!
