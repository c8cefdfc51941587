//! The solver: an initial order from the penalty graph (or the mean
//! heuristic), improved by local search that exchanges vertices while that
//! removes crossings.
use vstd::prelude::*;
use std::sync::atomic::AtomicBool;
use crate::crossing::{
    exchange_cost, lemma_cost_to_prefix, lemma_pair_mass_sub, lemma_swap_bounds,
    order_cost, pair_mass, swapped,
};
use crate::interconnection::{
    concat_all, lemma_mean_buckets_valid, lemma_mean_median_order_multiset, refs, COOInterconnectionMatrix,
    TieBreaker,
};
use crate::pengraph::{
    comp_index, eades_key_defined, internal_arcs, is_penalty_graph_of, pos_in, PenaltyGraph,
    PenaltyGraphVertex, VertexArcBaseHeuristic,
};
use crate::condensed_order::{
    beats, condenses, lemma_comp_index_valid, lemma_cond_has_arc, lemma_condensation_shape,
    lemma_eades_order_lists_all, lemma_penalty_arc, lemma_penalty_graph_shape,
};
use crate::interrupt::memory_limit_exceeded;
use crate::permutation::{
    lemma_covering_indices, lemma_empty_multiset, lemma_filter_split, lemma_map_multiset,
    lemma_distinct_indices_sub, lemma_sub_multiset_map, vertex_indices,
};
use crate::interrupt::should_terminate;

verus! {

/// Local search strategies.
pub enum LocalSearchStrat {
    Interleaved5_2,
    Degree,
    GreedySwitch,
    GreedySwitchKstep,
}

/// State of a sublist after the first `steps` steps of one greedy switch
/// pass (step `q` exchanges the neighbours at `q` and `q + 1` when that
/// removes crossings), and whether a step exchanged anything.
pub open spec fn greedy_pass(m: COOInterconnectionMatrix, s: Seq<(i32, usize)>, steps: nat) -> (Seq<(i32, usize)>, bool)
    decreases steps,
{
    if steps == 0 {
        (s, false)
    } else {
        let prev = greedy_pass(m, s, (steps - 1) as nat);
        let t = prev.0;
        let q = steps - 1;
        if m.cross(t[q + 1].1, t[q].1) < m.cross(t[q].1, t[q + 1].1) {
            (swapped(t, q, q + 1), true)
        } else {
            prev
        }
    }
}

/// Crossings among the vertices at `i`, `i + 1 ..= j` of `t` that change
/// when `t[i]` and `t[j]` are exchanged, before the exchange.
pub open spec fn stay_cost(m: COOInterconnectionMatrix, t: Seq<(i32, usize)>, i: int, j: int) -> nat {
    exchange_cost(m.cost(), refs(t)[i], refs(t).subrange(i + 1, j), refs(t)[j])
}

/// The same crossings after the exchange.
pub open spec fn switch_cost(m: COOInterconnectionMatrix, t: Seq<(i32, usize)>, i: int, j: int) -> nat {
    exchange_cost(m.cost(), refs(t)[j], refs(t).subrange(i + 1, j), refs(t)[i])
}

/// State after the first `steps` steps of one `k`-step greedy switch pass
/// (step `q` exchanges the vertices at `q` and `q + k` when that removes
/// crossings), and whether a step exchanged anything.
pub open spec fn k_step_pass(m: COOInterconnectionMatrix, s: Seq<(i32, usize)>, k: int, steps: nat) -> (Seq<(i32, usize)>, bool)
    decreases steps,
{
    if steps == 0 {
        (s, false)
    } else {
        let prev = k_step_pass(m, s, k, (steps - 1) as nat);
        let t = prev.0;
        let q = steps - 1;
        if k > 0 && stay_cost(m, t, q, q + k) > switch_cost(m, t, q, q + k) {
            (swapped(t, q, q + k), true)
        } else {
            prev
        }
    }
}

/// The vertices of a sublist are usable for counting crossings: they refer
/// to neighbour lists, the crossings of each pair fit in a `u32`, and so do
/// the crossings of all pairs together, in both orders.
pub open spec fn block_ok(m: COOInterconnectionMatrix, s: Seq<(i32, usize)>) -> bool {
    &&& m.valid_refs(s)
    &&& m.pairs_fit(s)
    &&& pair_mass(m.cost(), refs(s)) <= u32::MAX
}

/// Crossings of an ordering of a sublist.
pub open spec fn block_cost(m: COOInterconnectionMatrix, s: Seq<(i32, usize)>) -> nat {
    order_cost(m.cost(), refs(s))
}

proof fn lemma_refs_swapped(s: Seq<(i32, usize)>, i: int, j: int)
    requires
        0 <= i < s.len(),
        0 <= j < s.len(),
    ensures
        refs(swapped(s, i, j)) == swapped(refs(s), i, j),
{
    assert(refs(swapped(s, i, j)) =~= swapped(refs(s), i, j));
}

/// Exchanging two vertices keeps a sublist usable, keeps its vertices, and
/// changes its crossings by the difference of the switch and stay costs.
proof fn lemma_block_swap(m: COOInterconnectionMatrix, s: Seq<(i32, usize)>, i: int, j: int)
    requires
        block_ok(m, s),
        0 <= i < j < s.len(),
    ensures
        block_ok(m, swapped(s, i, j)),
        swapped(s, i, j).to_multiset() == s.to_multiset(),
        block_cost(m, swapped(s, i, j)) + stay_cost(m, s, i, j) == block_cost(m, s) + switch_cost(m, s, i, j),
        stay_cost(m, s, i, j) <= u32::MAX,
        switch_cost(m, s, i, j) <= u32::MAX,
        pair_mass(m.cost(), refs(swapped(s, i, j))) == pair_mass(m.cost(), refs(s)),
{
    broadcast use vstd::seq_lib::group_to_multiset_ensures;

    let t = swapped(s, i, j);
    lemma_refs_swapped(s, i, j);
    lemma_swap_bounds(m.cost(), refs(s), i, j);
    assert(refs(s)[i] == s[i].1);
    assert(refs(s)[j] == s[j].1);
    assert forall|k: int| 0 <= k < t.len() implies #[trigger] t[k].1 < m.adjacency_list@.len() by {
        assert(m.valid_refs(s));
        if k == i {
            assert(t[k] == s[j]);
        } else if k == j {
            assert(t[k] == s[i]);
        } else {
            assert(t[k] == s[k]);
        }
    }
    assert forall|k: int, l: int| 0 <= k < t.len() && 0 <= l < t.len() implies #[trigger] m.cross(
        t[k].1,
        t[l].1,
    ) <= u32::MAX by {
        let k2 = if k == i {
            j
        } else if k == j {
            i
        } else {
            k
        };
        let l2 = if l == i {
            j
        } else if l == j {
            i
        } else {
            l
        };
        assert(t[k] == s[k2]);
        assert(t[l] == s[l2]);
        assert(m.cross(s[k2].1, s[l2].1) <= u32::MAX);
    }
    let s1 = s.update(i, s[j]);
    assert(s1.to_multiset() == s.to_multiset().insert(s[j]).remove(s[i]));
    assert(s1[j] == s[j]);
    assert(t.to_multiset() == s1.to_multiset().insert(s[i]).remove(s[j]));
    assert(t.to_multiset() =~= s.to_multiset()) by {
        broadcast use vstd::multiset::group_multiset_axioms;

    }
}

/// One pass of the greedy switch heuristic over the sublist: neighbours are
/// exchanged whenever that removes crossings.  Returns whether anything was
/// exchanged.  The pass stops early when termination is requested.
pub fn greedy_switch(
    sublist: &mut Vec<(i32, usize)>,
    interconnection_matrix: &COOInterconnectionMatrix,
    termination_signal: &AtomicBool,
) -> (switched: bool)
    requires
        old(sublist)@.len() >= 1,
        interconnection_matrix.wf(),
        block_ok(*interconnection_matrix, old(sublist)@),
    ensures
        exists|steps: nat|
            steps <= old(sublist)@.len() - 1 && final(sublist)@ == greedy_pass(
                *interconnection_matrix,
                old(sublist)@,
                steps,
            ).0 && switched == greedy_pass(*interconnection_matrix, old(sublist)@, steps).1,
        final(sublist)@.to_multiset() == old(sublist)@.to_multiset(),
        block_ok(*interconnection_matrix, final(sublist)@),
        pair_mass(interconnection_matrix.cost(), refs(final(sublist)@)) == pair_mass(
            interconnection_matrix.cost(),
            refs(old(sublist)@),
        ),
        block_cost(*interconnection_matrix, final(sublist)@) <= block_cost(
            *interconnection_matrix,
            old(sublist)@,
        ),
        switched ==> block_cost(*interconnection_matrix, final(sublist)@) < block_cost(
            *interconnection_matrix,
            old(sublist)@,
        ),
        !switched ==> final(sublist)@ == old(sublist)@,
{
    let ghost m = *interconnection_matrix;
    let ghost s0 = sublist@;
    let mut switched = false;
    let n1 = sublist.len() - 1;
    let mut i: usize = 0;
    while i < n1
        invariant
            m == *interconnection_matrix,
            m.wf(),
            n1 == s0.len() - 1,
            sublist@.len() == s0.len(),
            i <= n1,
            sublist@ == greedy_pass(m, s0, i as nat).0,
            switched == greedy_pass(m, s0, i as nat).1,
            sublist@.to_multiset() == s0.to_multiset(),
            block_ok(m, sublist@),
            pair_mass(m.cost(), refs(sublist@)) == pair_mass(m.cost(), refs(s0)),
            block_cost(m, sublist@) <= block_cost(m, s0),
            switched ==> block_cost(m, sublist@) < block_cost(m, s0),
            !switched ==> sublist@ == s0,
        ensures
            exists|steps: nat|
                steps <= s0.len() - 1 && sublist@ == greedy_pass(m, s0, steps).0 && switched
                    == greedy_pass(m, s0, steps).1,
            sublist@.to_multiset() == s0.to_multiset(),
            block_ok(m, sublist@),
            pair_mass(m.cost(), refs(sublist@)) == pair_mass(m.cost(), refs(s0)),
            block_cost(m, sublist@) <= block_cost(m, s0),
            switched ==> block_cost(m, sublist@) < block_cost(m, s0),
            !switched ==> sublist@ == s0,
        decreases n1 - i,
    {
        if should_terminate(termination_signal) {
            break;
        }
        let j = i + 1;
        proof {
            assert(m.valid_refs(sublist@));
            assert(sublist@[i as int].1 < m.adjacency_list@.len());
            assert(sublist@[j as int].1 < m.adjacency_list@.len());
            assert(m.cross(sublist@[i as int].1, sublist@[j as int].1) <= u32::MAX);
            assert(m.cross(sublist@[j as int].1, sublist@[i as int].1) <= u32::MAX);
        }
        let cr = interconnection_matrix.calc_local_cross_count_touple_between_edgelists(
            sublist[i].1,
            sublist[j].1,
        );
        let ghost t = sublist@;
        if cr.1 < cr.0 {
            let temp = sublist[i];
            let other = sublist[j];
            sublist.set(i, other);
            sublist.set(j, temp);
            switched = true;
            proof {
                assert(sublist@ == swapped(t, i as int, j as int));
                lemma_block_swap(m, t, i as int, j as int);
                assert(refs(t).subrange(i + 1, j as int) =~= Seq::<usize>::empty());
                assert(refs(t)[i as int] == t[i as int].1);
                assert(refs(t)[j as int] == t[j as int].1);
            }
        }
        i += 1;
    }
    switched
}

/// Whether exchanging the vertices at `i` and `j` removes crossings: compares
/// the crossings that the exchange affects before and after it.
fn should_switch_between_indices(
    interconnection_matrix: &COOInterconnectionMatrix,
    sublist: &mut Vec<(i32, usize)>,
    i: usize,
    j: usize,
) -> (res: bool)
    requires
        interconnection_matrix.wf(),
        i < j < old(sublist)@.len(),
        block_ok(*interconnection_matrix, old(sublist)@),
        stay_cost(*interconnection_matrix, old(sublist)@, i as int, j as int) <= u32::MAX,
        switch_cost(*interconnection_matrix, old(sublist)@, i as int, j as int) <= u32::MAX,
    ensures
        final(sublist)@ == old(sublist)@,
        res == (stay_cost(*interconnection_matrix, old(sublist)@, i as int, j as int) > switch_cost(
            *interconnection_matrix,
            old(sublist)@,
            i as int,
            j as int,
        )),
{
    let ghost m = *interconnection_matrix;
    let ghost s = sublist@;
    let ghost r = refs(s);
    let ghost w = m.cost();
    let ghost mid = r.subrange(i + 1, j as int);
    proof {
        assert(m.valid_refs(s));
        assert(r[i as int] == s[i as int].1);
        assert(r[j as int] == s[j as int].1);
    }
    let (mut stay, mut switch) = interconnection_matrix.calc_local_cross_count_touple_between_edgelists(
        sublist[i].1,
        sublist[j].1,
    );
    let mut k: usize = i + 1;
    proof {
        assert(mid.take(0) =~= Seq::<usize>::empty());
    }
    while k < j
        invariant
            m == *interconnection_matrix,
            m.wf(),
            s == sublist@,
            r == refs(s),
            w == m.cost(),
            mid == r.subrange(i + 1, j as int),
            i < j < s.len(),
            i + 1 <= k <= j,
            block_ok(m, s),
            exchange_cost(w, r[i as int], mid, r[j as int]) <= u32::MAX,
            exchange_cost(w, r[j as int], mid, r[i as int]) <= u32::MAX,
            stay == exchange_cost(w, r[i as int], mid.take(k - i - 1), r[j as int]),
            switch == exchange_cost(w, r[j as int], mid.take(k - i - 1), r[i as int]),
        decreases j - k,
    {
        let p = k - i - 1;
        proof {
            assert(m.valid_refs(s));
            assert(r[k as int] == s[k as int].1);
            assert(mid[p as int] == r[k as int]);
            assert(mid.take(p + 1).drop_last() =~= mid.take(p as int));
            lemma_cost_to_prefix(w, r[i as int], mid, p + 1);
            lemma_cost_to_prefix(w, r[j as int], mid, p + 1);
        }
        stay += interconnection_matrix.calc_local_cross_count_touple_between_edgelists(
            sublist[i].1,
            sublist[k].1,
        ).0;
        stay += interconnection_matrix.calc_local_cross_count_touple_between_edgelists(
            sublist[k].1,
            sublist[j].1,
        ).0;
        switch += interconnection_matrix.calc_local_cross_count_touple_between_edgelists(
            sublist[j].1,
            sublist[k].1,
        ).0;
        switch += interconnection_matrix.calc_local_cross_count_touple_between_edgelists(
            sublist[k].1,
            sublist[i].1,
        ).0;
        k += 1;
    }
    proof {
        assert(mid.take(k - i - 1) =~= mid);
    }
    if stay > switch {
        return true;
    } else {
        return false;
    }
}

/// One pass of the `k`-step greedy switch: the vertices `k` positions apart
/// are exchanged whenever that removes crossings.  Returns whether anything
/// was exchanged; stops early when termination is requested.
pub fn greedy_switch_k_step(
    sublist: &mut Vec<(i32, usize)>,
    interconnection_matrix: &COOInterconnectionMatrix,
    k: usize,
    termination_signal: &AtomicBool,
) -> (switched: bool)
    requires
        k <= old(sublist)@.len(),
        interconnection_matrix.wf(),
        block_ok(*interconnection_matrix, old(sublist)@),
    ensures
        exists|steps: nat|
            steps <= old(sublist)@.len() - k && final(sublist)@ == k_step_pass(
                *interconnection_matrix,
                old(sublist)@,
                k as int,
                steps,
            ).0 && switched == k_step_pass(*interconnection_matrix, old(sublist)@, k as int, steps).1,
        final(sublist)@.to_multiset() == old(sublist)@.to_multiset(),
        block_ok(*interconnection_matrix, final(sublist)@),
        pair_mass(interconnection_matrix.cost(), refs(final(sublist)@)) == pair_mass(
            interconnection_matrix.cost(),
            refs(old(sublist)@),
        ),
        block_cost(*interconnection_matrix, final(sublist)@) <= block_cost(
            *interconnection_matrix,
            old(sublist)@,
        ),
        switched ==> block_cost(*interconnection_matrix, final(sublist)@) < block_cost(
            *interconnection_matrix,
            old(sublist)@,
        ),
        !switched ==> final(sublist)@ == old(sublist)@,
{
    let ghost m = *interconnection_matrix;
    let ghost s0 = sublist@;
    let mut switched = false;
    let n = sublist.len();
    let steps = n - k;
    let mut i: usize = 0;
    while i < steps
        invariant
            n == s0.len(),
            m == *interconnection_matrix,
            m.wf(),
            steps == s0.len() - k,
            sublist@.len() == s0.len(),
            i <= steps,
            sublist@ == k_step_pass(m, s0, k as int, i as nat).0,
            switched == k_step_pass(m, s0, k as int, i as nat).1,
            sublist@.to_multiset() == s0.to_multiset(),
            block_ok(m, sublist@),
            pair_mass(m.cost(), refs(sublist@)) == pair_mass(m.cost(), refs(s0)),
            block_cost(m, sublist@) <= block_cost(m, s0),
            switched ==> block_cost(m, sublist@) < block_cost(m, s0),
            !switched ==> sublist@ == s0,
        ensures
            exists|st: nat|
                st <= s0.len() - k && sublist@ == k_step_pass(m, s0, k as int, st).0 && switched
                    == k_step_pass(m, s0, k as int, st).1,
            sublist@.to_multiset() == s0.to_multiset(),
            block_ok(m, sublist@),
            pair_mass(m.cost(), refs(sublist@)) == pair_mass(m.cost(), refs(s0)),
            block_cost(m, sublist@) <= block_cost(m, s0),
            switched ==> block_cost(m, sublist@) < block_cost(m, s0),
            !switched ==> sublist@ == s0,
        decreases steps - i,
    {
        if should_terminate(termination_signal) {
            break;
        }
        let j = i + k;
        let ghost t = sublist@;
        if k == 0 {
            let switch = should_switch_between_indices_same(interconnection_matrix, sublist, i);
        } else {
            proof {
                lemma_block_swap(m, t, i as int, j as int);
            }
            let switch = should_switch_between_indices(interconnection_matrix, sublist, i, j);
            if switch {
                let temp = sublist[i];
                let other = sublist[j];
                sublist.set(i, other);
                sublist.set(j, temp);
                switched = true;
                proof {
                    assert(sublist@ == swapped(t, i as int, j as int));
                }
            }
        }
        i += 1;
    }
    switched
}

/// With no distance between the two positions nothing is ever exchanged.
fn should_switch_between_indices_same(
    interconnection_matrix: &COOInterconnectionMatrix,
    sublist: &mut Vec<(i32, usize)>,
    i: usize,
) -> (res: bool)
    requires
        interconnection_matrix.wf(),
        i < old(sublist)@.len(),
        block_ok(*interconnection_matrix, old(sublist)@),
    ensures
        final(sublist)@ == old(sublist)@,
        !res,
{
    proof {
        assert(interconnection_matrix.valid_refs(sublist@));
        assert(interconnection_matrix.pairs_fit(sublist@));
        assert(interconnection_matrix.cross(sublist@[i as int].1, sublist@[i as int].1) <= u32::MAX);
    }
    let (stay, switch) = interconnection_matrix.calc_local_cross_count_touple_between_edgelists(
        sublist[i].1,
        sublist[i].1,
    );
    stay > switch
}

/// The blocks of an intermediate result as sequences.
pub open spec fn blocks_of(ir: Seq<Vec<(i32, usize)>>) -> Seq<Seq<(i32, usize)>> {
    ir.map_values(|b: Vec<(i32, usize)>| b@)
}

/// Crossings inside the blocks, summed over the blocks.
pub open spec fn total_cost(m: COOInterconnectionMatrix, bs: Seq<Seq<(i32, usize)>>) -> nat
    decreases bs.len(),
{
    if bs.len() == 0 {
        0
    } else {
        total_cost(m, bs.drop_last()) + block_cost(m, bs.last())
    }
}

/// Every block is usable for counting crossings.
pub open spec fn blocks_ok(m: COOInterconnectionMatrix, bs: Seq<Seq<(i32, usize)>>) -> bool {
    forall|k: int| 0 <= k < bs.len() ==> block_ok(m, #[trigger] bs[k])
}

/// The strategy can run on the blocks: the two strategies that are not
/// implemented may only meet blocks that they skip.
pub open spec fn strategy_runs(strategy: LocalSearchStrat, param: usize, bs: Seq<Seq<(i32, usize)>>) -> bool {
    strategy is GreedySwitch || strategy is GreedySwitchKstep || forall|k: int|
        0 <= k < bs.len() ==> (#[trigger] bs[k]).len() <= param
}

/// The blocks of `b` hold the same vertices as those of `a`, block by block.
pub open spec fn same_blocks(a: Seq<Seq<(i32, usize)>>, b: Seq<Seq<(i32, usize)>>) -> bool {
    &&& a.len() == b.len()
    &&& forall|k: int| 0 <= k < a.len() ==> (#[trigger] b[k]).to_multiset() == a[k].to_multiset()
}

proof fn lemma_total_cost_update(m: COOInterconnectionMatrix, bs: Seq<Seq<(i32, usize)>>, i: int, b: Seq<(i32, usize)>)
    requires
        0 <= i < bs.len(),
    ensures
        total_cost(m, bs.update(i, b)) + block_cost(m, bs[i]) == total_cost(m, bs) + block_cost(m, b),
    decreases bs.len(),
{
    if i < bs.len() - 1 {
        lemma_total_cost_update(m, bs.drop_last(), i, b);
        assert(bs.update(i, b).drop_last() =~= bs.drop_last().update(i, b));
    } else {
        assert(bs.update(i, b).drop_last() =~= bs.drop_last());
    }
}

/// One pass of the strategy over a block, stopped after `steps` steps.
pub open spec fn strategy_pass(
    m: COOInterconnectionMatrix,
    strategy: LocalSearchStrat,
    param: usize,
    b: Seq<(i32, usize)>,
    steps: nat,
) -> Seq<(i32, usize)> {
    match strategy {
        LocalSearchStrat::GreedySwitchKstep => k_step_pass(m, b, param as int, steps).0,
        _ => greedy_pass(m, b, steps).0,
    }
}

/// Number of steps of a whole pass of the strategy over a block of `len`
/// vertices.
pub open spec fn full_pass_steps(strategy: LocalSearchStrat, param: usize, len: int) -> int {
    match strategy {
        LocalSearchStrat::GreedySwitchKstep => len - param,
        _ => len - 1,
    }
}

/// The block after passes of the strategy stopped after the given numbers of
/// steps, one after the other.
pub open spec fn after_passes(
    m: COOInterconnectionMatrix,
    strategy: LocalSearchStrat,
    param: usize,
    b: Seq<(i32, usize)>,
    steps: Seq<nat>,
) -> Seq<(i32, usize)>
    decreases steps.len(),
{
    if steps.len() == 0 {
        b
    } else {
        strategy_pass(m, strategy, param, after_passes(m, strategy, param, b, steps.drop_last()), steps.last())
    }
}

/// `b` comes from `b0` by passes of the strategy, each of them whole or
/// stopped early.
pub open spec fn reached_by_passes(
    m: COOInterconnectionMatrix,
    strategy: LocalSearchStrat,
    param: usize,
    b0: Seq<(i32, usize)>,
    b: Seq<(i32, usize)>,
) -> bool {
    exists|steps: Seq<nat>|
        (forall|j: int| 0 <= j < steps.len() ==> #[trigger] steps[j] <= full_pass_steps(strategy, param, b0.len() as int))
            && b == after_passes(m, strategy, param, b0, steps)
}

/// Every block comes from the one at its place in `a` by passes of the
/// strategy.
pub open spec fn blocks_reached_by_passes(
    m: COOInterconnectionMatrix,
    strategy: LocalSearchStrat,
    param: usize,
    a: Seq<Seq<(i32, usize)>>,
    b: Seq<Seq<(i32, usize)>>,
) -> bool {
    &&& a.len() == b.len()
    &&& forall|k: int| 0 <= k < a.len() ==> reached_by_passes(m, strategy, param, a[k], #[trigger] b[k])
}

/// One more pass, whole or stopped early, keeps a block reached by passes.
proof fn lemma_one_more_pass(
    m: COOInterconnectionMatrix,
    strategy: LocalSearchStrat,
    param: usize,
    b0: Seq<(i32, usize)>,
    b: Seq<(i32, usize)>,
    nb: Seq<(i32, usize)>,
)
    requires
        reached_by_passes(m, strategy, param, b0, b),
        b.len() == b0.len(),
        nb == b || exists|s: nat| s <= full_pass_steps(strategy, param, b.len() as int) && nb == strategy_pass(m, strategy, param, b, s),
    ensures
        reached_by_passes(m, strategy, param, b0, nb),
{
    let steps = choose|steps: Seq<nat>|
        (forall|j: int| 0 <= j < steps.len() ==> #[trigger] steps[j] <= full_pass_steps(strategy, param, b0.len() as int))
            && b == after_passes(m, strategy, param, b0, steps);
    if nb != b {
        let s = choose|s: nat| s <= full_pass_steps(strategy, param, b.len() as int) && nb == strategy_pass(m, strategy, param, b, s);
        let st2 = steps.push(s);
        assert(st2.drop_last() =~= steps);
        assert(after_passes(m, strategy, param, b0, st2) == nb);
        assert forall|j: int| 0 <= j < st2.len() implies #[trigger] st2[j] <= full_pass_steps(strategy, param, b0.len() as int) by {
            if j < steps.len() {
                assert(st2[j] == steps[j]);
            }
        }
    }
}

/// Runs the local search strategy over every block longer than `param` until
/// a round leaves the last such block unchanged; shorter blocks are left
/// alone.  Returns whether vertices were switched in some block.  Stops
/// early when termination is requested.
pub fn local_search(
    intermediate_result: &mut Vec<Vec<(i32, usize)>>,
    interconnection_matrix: &mut COOInterconnectionMatrix,
    strategy: LocalSearchStrat,
    param: usize,
    termination_signal: &AtomicBool,
) -> (res: bool)
    requires
        old(interconnection_matrix).wf(),
        blocks_ok(*old(interconnection_matrix), blocks_of(old(intermediate_result)@)),
        strategy_runs(strategy, param, blocks_of(old(intermediate_result)@)),
    ensures
        *final(interconnection_matrix) == *old(interconnection_matrix),
        same_blocks(blocks_of(old(intermediate_result)@), blocks_of(final(intermediate_result)@)),
        blocks_ok(*old(interconnection_matrix), blocks_of(final(intermediate_result)@)),
        total_cost(*old(interconnection_matrix), blocks_of(final(intermediate_result)@)) <= total_cost(
            *old(interconnection_matrix),
            blocks_of(old(intermediate_result)@),
        ),
        res ==> total_cost(*old(interconnection_matrix), blocks_of(final(intermediate_result)@))
            < total_cost(*old(interconnection_matrix), blocks_of(old(intermediate_result)@)),
        res == (blocks_of(final(intermediate_result)@) != blocks_of(old(intermediate_result)@)),
        short_blocks_kept(param, blocks_of(old(intermediate_result)@), blocks_of(final(intermediate_result)@)),
        blocks_reached_by_passes(
            *old(interconnection_matrix),
            strategy,
            param,
            blocks_of(old(intermediate_result)@),
            blocks_of(final(intermediate_result)@),
        ),
{
    let ghost m = *interconnection_matrix;
    let ghost b0 = blocks_of(intermediate_result@);
    let ghost t0 = total_cost(m, b0);
    let mut did_change = true;
    let mut switched_any = false;
    proof {
        assert(same_blocks(b0, blocks_of(intermediate_result@)));
        assert forall|k: int| 0 <= k < b0.len() implies reached_by_passes(m, strategy, param, b0[k], #[trigger] b0[k]) by {
            let none = Seq::<nat>::empty();
            assert(after_passes(m, strategy, param, b0[k], none) == b0[k]);
        }
    }
    while did_change
        invariant
            *interconnection_matrix == m,
            blocks_reached_by_passes(m, strategy, param, b0, blocks_of(intermediate_result@)),
            m.wf(),
            t0 == total_cost(m, b0),
            strategy_runs(strategy, param, b0),
            same_blocks(b0, blocks_of(intermediate_result@)),
            blocks_ok(m, blocks_of(intermediate_result@)),
            total_cost(m, blocks_of(intermediate_result@)) <= t0,
            switched_any ==> total_cost(m, blocks_of(intermediate_result@)) < t0,
            !switched_any ==> blocks_of(intermediate_result@) == b0,
            short_blocks_kept(param, b0, blocks_of(intermediate_result@)),
        decreases total_cost(m, blocks_of(intermediate_result@)) + (if did_change {
            1int
        } else {
            0int
        }),
    {
        let ghost round_start = total_cost(m, blocks_of(intermediate_result@));
        did_change = false;
        if should_terminate(termination_signal) {
            break;
        }
        let mut i: usize = 0;
        while i < intermediate_result.len()
            invariant
                *interconnection_matrix == m,
                m.wf(),
                strategy_runs(strategy, param, b0),
                same_blocks(b0, blocks_of(intermediate_result@)),
                blocks_reached_by_passes(m, strategy, param, b0, blocks_of(intermediate_result@)),
                blocks_ok(m, blocks_of(intermediate_result@)),
                i <= intermediate_result@.len(),
                total_cost(m, blocks_of(intermediate_result@)) <= round_start,
                did_change ==> total_cost(m, blocks_of(intermediate_result@)) < round_start,
                round_start <= t0,
                t0 == total_cost(m, b0),
                switched_any ==> total_cost(m, blocks_of(intermediate_result@)) < t0,
                !switched_any ==> blocks_of(intermediate_result@) == b0,
                short_blocks_kept(param, b0, blocks_of(intermediate_result@)),
            ensures
                same_blocks(b0, blocks_of(intermediate_result@)),
                blocks_reached_by_passes(m, strategy, param, b0, blocks_of(intermediate_result@)),
                blocks_ok(m, blocks_of(intermediate_result@)),
                total_cost(m, blocks_of(intermediate_result@)) <= round_start,
                did_change ==> total_cost(m, blocks_of(intermediate_result@)) < round_start,
                switched_any ==> total_cost(m, blocks_of(intermediate_result@)) < t0,
                !switched_any ==> blocks_of(intermediate_result@) == b0,
                short_blocks_kept(param, b0, blocks_of(intermediate_result@)),
            decreases intermediate_result@.len() - i,
        {
            if should_terminate(termination_signal) {
                break;
            }
            if intermediate_result[i].len() > param {
                let ghost bs = blocks_of(intermediate_result@);
                proof {
                    assert(bs[i as int] == intermediate_result@[i as int]@);
                    assert(block_ok(m, bs[i as int]));
                    assert(bs[i as int].to_multiset() == b0[i as int].to_multiset());
                    assert(b0[i as int].len() == bs[i as int].len()) by {
                        vstd::seq_lib::to_multiset_len(b0[i as int]);
                        vstd::seq_lib::to_multiset_len(bs[i as int]);
                    }
                }
                match strategy {
                    LocalSearchStrat::Interleaved5_2 => {
                        proof {
                            assert(b0[i as int].len() <= param);
                        }
                    },
                    LocalSearchStrat::Degree => {
                        proof {
                            assert(b0[i as int].len() <= param);
                        }
                    },
                    LocalSearchStrat::GreedySwitch => {
                        did_change = greedy_switch(&mut intermediate_result[i], interconnection_matrix, termination_signal);
                        proof {
                            let nbi = intermediate_result@[i as int]@;
                            let st = choose|st: nat|
                                st <= bs[i as int].len() - 1 && nbi == greedy_pass(m, bs[i as int], st).0 && did_change
                                    == greedy_pass(m, bs[i as int], st).1;
                            assert(st <= full_pass_steps(strategy, param, bs[i as int].len() as int) && nbi
                                == strategy_pass(m, strategy, param, bs[i as int], st));
                        }
                    },
                    LocalSearchStrat::GreedySwitchKstep => {
                        did_change = greedy_switch_k_step(&mut intermediate_result[i], interconnection_matrix, param, termination_signal);
                        proof {
                            let nbi = intermediate_result@[i as int]@;
                            let st = choose|st: nat|
                                st <= bs[i as int].len() - param && nbi == k_step_pass(m, bs[i as int], param as int, st).0
                                    && did_change == k_step_pass(m, bs[i as int], param as int, st).1;
                            assert(st <= full_pass_steps(strategy, param, bs[i as int].len() as int) && nbi
                                == strategy_pass(m, strategy, param, bs[i as int], st));
                        }
                    },
                }
                proof {
                    let nb = blocks_of(intermediate_result@);
                    assert(nb =~= bs.update(i as int, intermediate_result@[i as int]@));
                    lemma_total_cost_update(m, bs, i as int, intermediate_result@[i as int]@);
                    assert forall|k: int| 0 <= k < nb.len() implies block_ok(m, #[trigger] nb[k]) by {
                        if k != i {
                            assert(nb[k] == bs[k]);
                        }
                    }
                    assert forall|k: int| 0 <= k < b0.len() implies (#[trigger] nb[k]).to_multiset() == b0[k].to_multiset() by {
                        if k != i {
                            assert(nb[k] == bs[k]);
                        }
                    }
                    lemma_one_more_pass(m, strategy, param, b0[i as int], bs[i as int], nb[i as int]);
                    assert forall|k: int| 0 <= k < b0.len() implies reached_by_passes(m, strategy, param, b0[k], #[trigger] nb[k]) by {
                        if k != i {
                            assert(nb[k] == bs[k]);
                        }
                    }
                    assert forall|k: int| 0 <= k < b0.len() && (#[trigger] b0[k]).len() <= param implies nb[k] == b0[k] by {
                        if k != i {
                            assert(nb[k] == bs[k]);
                        }
                    }
                    if !did_change {
                        assert(nb =~= bs);
                    }
                }
                if did_change {
                    switched_any = true;
                }
            }
            i += 1;
        }
    }
    proof {
        let bf = blocks_of(intermediate_result@);
        if switched_any {
            assert(bf != b0);
        }
    }
    switched_any
}

/// The blocks of `b` of length at most `param` are those of `a`.
pub open spec fn short_blocks_kept(param: usize, a: Seq<Seq<(i32, usize)>>, b: Seq<Seq<(i32, usize)>>) -> bool {
    forall|k: int| 0 <= k < a.len() && (#[trigger] a[k]).len() <= param ==> b[k] == a[k]
}

/// A loose order the solver can work on: the matrix is well formed, and the
/// crossings of every pair, and of all pairs together in both orders, fit in
/// a `u32`.
pub open spec fn loose_order_ok(m: COOInterconnectionMatrix) -> bool {
    &&& m.wf()
    &&& m.pairs_fit(m.loose@)
    &&& pair_mass(m.cost(), refs(m.loose@)) <= u32::MAX
}

/// The loose vertices at the positions `comp`, in that order.
pub open spec fn loose_at(m: COOInterconnectionMatrix, comp: Seq<usize>) -> Seq<(i32, usize)> {
    comp.map_values(|v: usize| m.loose@[v as int])
}

/// Blocks that split the loose order: each block is usable for counting
/// crossings and not empty, and together they hold the loose vertices.
pub open spec fn splits_loose_order(m: COOInterconnectionMatrix, bs: Seq<Seq<(i32, usize)>>) -> bool {
    &&& blocks_ok(m, bs)
    &&& forall|k: int| 0 <= k < bs.len() ==> (#[trigger] bs[k]).len() >= 1
    &&& concat_all(bs).to_multiset() == m.loose@.to_multiset()
}

/// A list that holds part of the loose vertices (counted with their
/// repetitions) is usable for counting crossings, whatever its order.
proof fn lemma_block_of_loose(m: COOInterconnectionMatrix, b: Seq<(i32, usize)>, s: Seq<(i32, usize)>)
    requires
        loose_order_ok(m),
        b.to_multiset().subset_of(s.to_multiset()),
        s.to_multiset().subset_of(m.loose@.to_multiset()),
    ensures
        block_ok(m, b),
        order_cost(m.cost(), refs(b)) <= u32::MAX,
{
    broadcast use {vstd::seq_lib::group_to_multiset_ensures, vstd::multiset::group_multiset_axioms};

    assert(b.to_multiset().subset_of(m.loose@.to_multiset()));
    assert forall|i: int| 0 <= i < b.len() implies m.loose@.contains(#[trigger] b[i]) by {
        assert(b.to_multiset().count(b[i]) > 0);
    }
    assert forall|k: int| 0 <= k < b.len() implies #[trigger] b[k].1 < m.adjacency_list@.len() by {
        assert(m.loose@.contains(b[k]));
    }
    assert forall|k: int, l: int| 0 <= k < b.len() && 0 <= l < b.len() implies #[trigger] m.cross(b[k].1, b[l].1)
        <= u32::MAX by {
        assert(m.loose@.contains(b[k]));
        assert(m.loose@.contains(b[l]));
        let p = choose|p: int| 0 <= p < m.loose@.len() && m.loose@[p] == b[k];
        let q = choose|q: int| 0 <= q < m.loose@.len() && m.loose@[q] == b[l];
        assert(m.cross(m.loose@[p].1, m.loose@[q].1) <= u32::MAX);
    }
    lemma_sub_multiset_map(b, m.loose@, |x: (i32, usize)| x.1);
    lemma_pair_mass_sub(m.cost(), refs(b), refs(m.loose@));
}

/// The loose vertices at distinct positions of the loose order are part of
/// the loose order.
proof fn lemma_loose_at_sub(m: COOInterconnectionMatrix, comp: Seq<usize>)
    requires
        m.loose@.len() <= usize::MAX,
        forall|i: int, j: int| 0 <= i < j < comp.len() ==> comp[i] != comp[j],
        forall|i: int| 0 <= i < comp.len() ==> #[trigger] comp[i] < m.loose@.len(),
    ensures
        loose_at(m, comp).to_multiset().subset_of(m.loose@.to_multiset()),
{
    let n = m.loose@.len() as int;
    let f = |v: usize| m.loose@[v as int];
    lemma_distinct_indices_sub(comp, n);
    lemma_sub_multiset_map(comp, vertex_indices(n), f);
    assert(loose_at(m, comp) =~= comp.map_values(f));
    assert forall|i: int| 0 <= i < n implies #[trigger] vertex_indices(n).map_values(f)[i] == m.loose@[i] by {
        assert(vertex_indices(n)[i] == i as usize);
    }
    assert(vertex_indices(n).map_values(f) =~= m.loose@);
}

/// `vert` is the vertex of the condensed penalty graph that stands for the
/// loose positions `comp`: a plain vertex for a single position, else a
/// condensed one whose inner graph numbers the positions in order.
spec fn stands_for(m: COOInterconnectionMatrix, vert: PenaltyGraphVertex, comp: Seq<usize>) -> bool {
    &&& comp.len() >= 1
    &&& forall|i: int, j: int| 0 <= i < j < comp.len() ==> comp[i] != comp[j]
    &&& forall|i: int| 0 <= i < comp.len() ==> #[trigger] comp[i] < m.loose@.len()
    &&& vert.isCondensed == (comp.len() > 1)
    &&& (comp.len() == 1 ==> vert.InterconRef == comp[0])
    &&& (comp.len() > 1 ==> (vert.CondensedVertices matches Some(sub) && sub.vertices@.len() == comp.len()
        && (forall|k: int| 0 <= k < comp.len() ==> (#[trigger] sub.vertices@[k]).InterconRef == comp[k])
        && sub.eades_keys_defined(VertexArcBaseHeuristic::Baharev)))
}

/// The loose vertices of a component in an Eades order of its inner graph.
pub open spec fn eades_block(m: COOInterconnectionMatrix, comp: Seq<usize>, order: Seq<usize>) -> Seq<(i32, usize)> {
    order.map_values(|i: usize| m.loose@[comp[i as int] as int])
}

/// The loose vertices of a component in the order of the mean heuristic,
/// ties broken by the median heuristic.
pub open spec fn mean_block(m: COOInterconnectionMatrix, comp: Seq<usize>) -> Seq<(i32, usize)> {
    m.collapsed(m.mean_buckets(loose_at(m, comp)), TieBreaker::Median)
}

/// The block the base heuristic gives a component of more than one vertex,
/// with inner graph order `eo` (an Eades order with Baharev's key): with
/// `speedup` the Eades order; otherwise the Eades order when it has fewer
/// crossings than the mean order, and the mean order when it does not.
pub open spec fn component_choice(
    m: COOInterconnectionMatrix,
    comp: Seq<usize>,
    eo: Seq<usize>,
    speedup: bool,
) -> Seq<(i32, usize)> {
    if speedup || block_cost(m, eades_block(m, comp, eo)) < block_cost(m, mean_block(m, comp)) {
        eades_block(m, comp, eo)
    } else {
        mean_block(m, comp)
    }
}

/// `b` is a block the base heuristic may give the component `comp` whose
/// inner graph is `sub`: the vertex itself for a single one, else the
/// vertices in the Eades order with Baharev's key, or in the mean order when
/// that has no more crossings (which of the two is `component_choice` of
/// whether termination was requested while the blocks were built).
pub open spec fn chosen_block(
    m: COOInterconnectionMatrix,
    sub: PenaltyGraph,
    comp: Seq<usize>,
    b: Seq<(i32, usize)>,
) -> bool {
    if comp.len() == 1 {
        b == loose_at(m, comp)
    } else {
        exists|eo: Seq<usize>|
            sub.is_eades_order(VertexArcBaseHeuristic::Baharev, eo) && (b == eades_block(m, comp, eo) || (b
                == mean_block(m, comp) && block_cost(m, b) <= block_cost(m, eades_block(m, comp, eo))))
    }
}

/// The block for one vertex of the condensed penalty graph: the loose vertex
/// itself, or the vertices of the component ordered by the Eades heuristic
/// with Baharev's key or by the mean heuristic (median tie-breaking),
/// whichever has fewer crossings (the Eades order on a tie).  With `speedup`
/// only the Eades order is computed.
fn component_block(
    interconnection_matrix: &COOInterconnectionMatrix,
    vert: &PenaltyGraphVertex,
    speedup: bool,
    Ghost(comp): Ghost<Seq<usize>>,
) -> (b: Vec<(i32, usize)>)
    requires
        loose_order_ok(*interconnection_matrix),
        interconnection_matrix.loose@.len() <= usize::MAX,
        stands_for(*interconnection_matrix, *vert, comp),
    ensures
        b@.to_multiset() == loose_at(*interconnection_matrix, comp).to_multiset(),
        block_ok(*interconnection_matrix, b@),
        b@.len() >= 1,
        comp.len() == 1 ==> b@ == loose_at(*interconnection_matrix, comp),
        comp.len() > 1 ==> chosen_block(*interconnection_matrix, vert.CondensedVertices->Some_0, comp, b@),
        comp.len() > 1 ==> exists|eo: Seq<usize>|
            vert.CondensedVertices->Some_0.is_eades_order(VertexArcBaseHeuristic::Baharev, eo) && b@
                == component_choice(*interconnection_matrix, comp, eo, speedup),
{
    let ghost m = *interconnection_matrix;
    let ghost lc = loose_at(m, comp);
    proof {
        lemma_loose_at_sub(m, comp);
    }
    if vert.isCondensed {
        let sub = vert.CondensedVertices.as_ref().unwrap();
        let sl = sub.vertices.len();
        let subproblem = sub.sort_eads_heuristic(VertexArcBaseHeuristic::Baharev);
        let ghost order = choose|order: Seq<usize>|
            sub.lists_in_eades_order(VertexArcBaseHeuristic::Baharev, order, subproblem@);
        proof {
            lemma_eades_order_lists_all(*sub, VertexArcBaseHeuristic::Baharev, order);
        }
        let ghost f = |i: usize| m.loose@[comp[i as int] as int];
        let mut p_heuristic: Vec<(i32, usize)> = Vec::new();
        let mut k: usize = 0;
        while k < subproblem.len()
            invariant
                m == *interconnection_matrix,
                stands_for(m, *vert, comp),
                comp.len() > 1,
                vert.CondensedVertices == Some(*sub),
                order.len() == subproblem@.len(),
                forall|j: int|
                    0 <= j < order.len() ==> order[j] < sub.vertices@.len() && *#[trigger] subproblem@[j]
                        == sub.vertices@[order[j] as int],
                k <= subproblem@.len(),
                p_heuristic@ == order.take(k as int).map_values(f),
                f == (|i: usize| m.loose@[comp[i as int] as int]),
            decreases subproblem@.len() - k,
        {
            let r = subproblem[k].InterconRef;
            proof {
                let v = order[k as int] as int;
                assert(*subproblem@[k as int] == sub.vertices@[v]);
                assert(sub.vertices@[v].InterconRef == comp[v]);
                assert(comp[v] < m.loose@.len());
            }
            p_heuristic.push(interconnection_matrix.loose[r]);
            proof {
                assert(order.take(k + 1).map_values(f) =~= order.take(k as int).map_values(f).push(
                    f(order[k as int]),
                ));
            }
            k += 1;
        }
        proof {
            assert(order.take(k as int) =~= order);
            lemma_map_multiset(order, vertex_indices(sl as int), f);
            assert(vertex_indices(sl as int).map_values(f) =~= lc);
            lemma_block_of_loose(m, p_heuristic@, lc);
            vstd::seq_lib::to_multiset_len(p_heuristic@);
            vstd::seq_lib::to_multiset_len(lc);
        }
        proof {
            assert(p_heuristic@ == eades_block(m, comp, order));
            assert(sub.is_eades_order(VertexArcBaseHeuristic::Baharev, order));
        }
        if speedup {
            proof {
                assert(p_heuristic@ == component_choice(m, comp, order, speedup));
            }
            return p_heuristic;
        }
        let mut subproblem_references: Vec<(i32, usize)> = Vec::new();
        let mut k2: usize = 0;
        while k2 < sl
            invariant
                m == *interconnection_matrix,
                stands_for(m, *vert, comp),
                comp.len() > 1,
                vert.CondensedVertices == Some(*sub),
                sl == sub.vertices@.len(),
                k2 <= sl,
                subproblem_references@ == loose_at(m, comp.take(k2 as int)),
            decreases sl - k2,
        {
            let r = sub.vertices[k2].InterconRef;
            proof {
                assert(sub.vertices@[k2 as int].InterconRef == comp[k2 as int]);
                assert(comp[k2 as int] < m.loose@.len());
            }
            subproblem_references.push(interconnection_matrix.loose[r]);
            proof {
                assert(loose_at(m, comp.take(k2 + 1)) =~= loose_at(m, comp.take(k2 as int)).push(
                    m.loose@[comp[k2 as int] as int],
                ));
            }
            k2 += 1;
        }
        proof {
            assert(comp.take(k2 as int) =~= comp);
            assert forall|i: int| 0 <= i < subproblem_references@.len() implies #[trigger] subproblem_references@[i].1
                < m.adjacency_list@.len() by {
                assert(m.loose@.contains(lc[i]));
            }
        }
        let mean_temp = interconnection_matrix.mean_heuristic_from_sublist(&subproblem_references);
        proof {
            assert(m.valid_refs(subproblem_references@));
            lemma_mean_buckets_valid(&m, subproblem_references@);
            assert forall|q: int| 0 <= q < mean_temp@.len() implies m.valid_refs(#[trigger] mean_temp@[q]@) by {
                assert(mean_temp@.map_values(|b: Vec<(i32, usize)>| b@)[q] == mean_temp@[q]@);
                assert(m.valid_refs(m.mean_buckets(subproblem_references@)[q]));
            }
        }
        let m_heuristic = interconnection_matrix.collapse_loose_edge_list(mean_temp, TieBreaker::Median);
        proof {
            lemma_mean_median_order_multiset(&m, subproblem_references@);
            lemma_block_of_loose(m, m_heuristic@, lc);
            vstd::seq_lib::to_multiset_len(m_heuristic@);
            vstd::seq_lib::to_multiset_len(lc);
        }
        let m_heur_count = interconnection_matrix.calculate_current_crossing_count_on_sublist(&m_heuristic);
        let p_heur_count = interconnection_matrix.calculate_current_crossing_count_on_sublist(&p_heuristic);
        proof {
            assert(m_heuristic@ == mean_block(m, comp));
        }
        proof {
            assert(p_heuristic@ == eades_block(m, comp, order));
            assert(p_heur_count == block_cost(m, p_heuristic@));
            assert(m_heur_count == block_cost(m, m_heuristic@));
        }
        if p_heur_count < m_heur_count {
            proof {
                assert(p_heuristic@ == component_choice(m, comp, order, speedup));
            }
            p_heuristic
        } else {
            proof {
                assert(m_heuristic@ == component_choice(m, comp, order, speedup));
            }
            m_heuristic
        }
    } else {
        let temp = vec![interconnection_matrix.loose[vert.InterconRef]];
        proof {
            assert(temp@ =~= lc);
            lemma_block_of_loose(m, temp@, lc);
        }
        temp
    }
}

/// Keeping the arcs inside a component never lengthens an arc list.
proof fn lemma_internal_arcs_len(arcs: Seq<(usize, u32)>, comps: Seq<Seq<usize>>, c: int)
    ensures
        internal_arcs(arcs, comps, c).len() <= arcs.len(),
{
    broadcast use vstd::seq_lib::group_filter_ensures;

    let p = |a: (usize, u32)| comp_index(comps, a.0) == c;
    arcs.lemma_filter_len(p);
}

/// Vertex `c` of the condensation of the penalty graph stands for the loose
/// positions of component `c`.
proof fn lemma_stands_for(
    m: COOInterconnectionMatrix,
    g: PenaltyGraph,
    cg: PenaltyGraph,
    comps: Seq<Seq<usize>>,
    c: int,
)
    requires
        loose_order_ok(m),
        m.loose@.len() <= i32::MAX,
        is_penalty_graph_of(g, m),
        g.is_vertex_partition(comps),
        g.is_condensation(cg, comps),
        0 <= c < comps.len(),
    ensures
        stands_for(m, cg.vertices@[c], comps[c]),
{
    lemma_penalty_graph_shape(g, m);
    let comp = comps[c];
    let v = cg.vertices@[c];
    assert(comp.len() > 0);
    assert forall|i: int, j: int| 0 <= i < j < comp.len() implies comp[i] != comp[j] by {
        if comp[i] == comp[j] {
            assert(comps[c][i] == comps[c][j]);
        }
    }
    assert forall|i: int| 0 <= i < comp.len() implies #[trigger] comp[i] < m.loose@.len() by {
        assert(comps[c][i] < g.vertices@.len());
    }
    let first = g.vertices@[comp[0] as int];
    assert(first.InterconRef == comp[0]);
    if comp.len() > 1 {
        let sub = v.CondensedVertices->Some_0;
        assert(g.is_component_graph(sub, comps, c));
        assert forall|k: int| 0 <= k < comp.len() implies (#[trigger] sub.vertices@[k]).InterconRef == comp[k] by {
            assert(g.vertices@[comp[k] as int].InterconRef == comp[k]);
        }
        assert forall|i: int|
            0 <= i < sub.vertices@.len() && sub.vertices@[i].InNeighbours@.len() > 0
                && sub.vertices@[i].OutNeighbours@.len() > 0 implies eades_key_defined(
            #[trigger] sub.vertices@[i],
            VertexArcBaseHeuristic::Baharev,
        ) by {
            let orig = g.vertices@[comp[i] as int];
            lemma_internal_arcs_len(orig.InNeighbours@, comps, c);
            lemma_internal_arcs_len(orig.OutNeighbours@, comps, c);
            assert(orig.InNeighbours@.len() <= g.vertices@.len());
        }
    }
}

/// The loose positions seen so far after laying out the components at the
/// first `q` places of `order`: distinct positions whose components are
/// among those, and all of their members.
spec fn seen_so_far(comps: Seq<Seq<usize>>, order: Seq<usize>, q: int, seen: Seq<usize>, n: int) -> bool {
    &&& forall|i: int, j: int| 0 <= i < j < seen.len() ==> seen[i] != seen[j]
    &&& forall|i: int|
        0 <= i < seen.len() ==> #[trigger] seen[i] < n && order.take(q).contains(comp_index(comps, seen[i]) as usize)
    &&& forall|j: int, k: int|
        0 <= j < q && 0 <= k < comps[order[j] as int].len() ==> seen.contains(#[trigger] comps[order[j] as int][k])
}

/// Laying out one more component keeps the seen positions distinct.
proof fn lemma_seen_extend(
    g: PenaltyGraph,
    comps: Seq<Seq<usize>>,
    order: Seq<usize>,
    q: int,
    seen: Seq<usize>,
    n: int,
)
    requires
        g.is_vertex_partition(comps),
        g.vertices@.len() == n,
        comps.len() <= usize::MAX,
        0 <= q < order.len(),
        forall|j: int| 0 <= j < order.len() ==> #[trigger] order[j] < comps.len(),
        forall|i: int, j: int| 0 <= i < j < order.len() ==> order[i] != order[j],
        seen_so_far(comps, order, q, seen, n),
    ensures
        seen_so_far(comps, order, q + 1, seen + comps[order[q] as int], n),
{
    let c = order[q] as int;
    let comp = comps[c];
    let s2 = seen + comp;
    assert(order.take(q + 1) == order.take(q).push(order[q]));
    assert forall|k: int| 0 <= k < comp.len() implies comp_index(comps, #[trigger] comp[k]) == c by {
        crate::pengraph::lemma_partition_index(&g, comps, c, k);
    }
    assert forall|i: int, j: int| 0 <= i < j < s2.len() implies s2[i] != s2[j] by {
        if j < seen.len() {
        } else if i >= seen.len() {
            assert(comps[c][i - seen.len()] != comps[c][j - seen.len()] || i - seen.len() == j - seen.len());
        } else {
            if s2[i] == s2[j] {
                assert(seen[i] == comp[j - seen.len()]);
                assert(comp_index(comps, seen[i]) == c);
                assert(order.take(q).contains(c as usize));
                let j2 = choose|j2: int| 0 <= j2 < order.take(q).len() && order.take(q)[j2] == c as usize;
                assert(order[j2] == order[q]);
            }
        }
    }
    assert forall|i: int| 0 <= i < s2.len() implies #[trigger] s2[i] < n && order.take(q + 1).contains(
        comp_index(comps, s2[i]) as usize,
    ) by {
        if i < seen.len() {
            assert(s2[i] == seen[i]);
            let j2 = choose|j2: int|
                0 <= j2 < order.take(q).len() && order.take(q)[j2] == comp_index(comps, seen[i]) as usize;
            assert(order.take(q + 1)[j2] == order.take(q)[j2]);
        } else {
            let k = i - seen.len();
            assert(s2[i] == comp[k]);
            assert(comps[c][k] < n);
            assert(order.take(q + 1)[q] == order[q]);
        }
    }
    assert forall|j: int, k: int| 0 <= j < q + 1 && 0 <= k < comps[order[j] as int].len() implies s2.contains(
        #[trigger] comps[order[j] as int][k],
    ) by {
        if j < q {
            assert(seen.contains(comps[order[j] as int][k]));
            let i = choose|i: int| 0 <= i < seen.len() && seen[i] == comps[order[j] as int][k];
            assert(s2[i] == seen[i]);
        } else {
            assert(s2[seen.len() + k] == comp[k]);
        }
    }
}

/// No vertex of a later block is cheaper to draw left of a vertex of an
/// earlier block: the blocks follow the arcs of the penalty graph.
pub open spec fn blocks_follow_penalties(m: COOInterconnectionMatrix, bs: Seq<Seq<(i32, usize)>>) -> bool {
    forall|i: int, j: int, a: int, b: int|
        0 <= i < j < bs.len() && 0 <= a < bs[i].len() && 0 <= b < bs[j].len() ==> m.cross(
            (#[trigger] bs[i][a]).1,
            (#[trigger] bs[j][b]).1,
        ) <= m.cross(bs[j][b].1, bs[i][a].1)
}

/// The blocks are the strongly connected components of the penalty graph of
/// the loose order, one block holding the loose vertices of one component,
/// in some order of the components.
pub open spec fn blocks_are_components(m: COOInterconnectionMatrix, bs: Seq<Seq<(i32, usize)>>) -> bool {
    exists|g: PenaltyGraph, comps: Seq<Seq<usize>>, order: Seq<usize>|
        is_penalty_graph_of(g, m) && g.is_vertex_partition(comps) && g.strongly_connected_parts(comps)
            && g.arcs_go_forward(comps) && order.len() == comps.len() && bs.len() == comps.len() && (forall|i: int, j: int|
            0 <= i < j < order.len() ==> order[i] != order[j]) && (forall|k: int| 0 <= k < order.len() ==> order[k] < comps.len())
            && (forall|k: int| 0 <= k < bs.len() ==> (#[trigger] bs[k]).to_multiset() == loose_at(m, comps[order[k] as int]).to_multiset())
}

/// `b` is the block of the component `comp`, with inner graph `sub`, for
/// the given early-finish choice: the vertex itself for a single one, else
/// `component_choice` for an Eades order of the inner graph.
pub open spec fn block_for_choice(
    m: COOInterconnectionMatrix,
    sub: PenaltyGraph,
    comp: Seq<usize>,
    b: Seq<(i32, usize)>,
    speedup: bool,
) -> bool {
    if comp.len() == 1 {
        b == loose_at(m, comp)
    } else {
        exists|eo: Seq<usize>|
            sub.is_eades_order(VertexArcBaseHeuristic::Baharev, eo) && b == component_choice(m, comp, eo, speedup)
    }
}

/// The blocks of the base heuristic with the place `switch` where the early
/// finish began: every block before it is the better of the Eades order and
/// the mean order (the mean order on a tie), and every block from it on is
/// the Eades order, for one strongly connected component each, in an order
/// of the components.
pub open spec fn base_blocks_from(m: COOInterconnectionMatrix, bs: Seq<Seq<(i32, usize)>>, switch: int) -> bool {
    exists|g: PenaltyGraph, cg: PenaltyGraph, comps: Seq<Seq<usize>>, order: Seq<usize>|
        is_penalty_graph_of(g, m) && g.is_vertex_partition(comps) && g.strongly_connected_parts(comps)
            && g.arcs_go_forward(comps) && g.is_condensation(cg, comps) && order.len() == comps.len() && bs.len()
            == comps.len() && (forall|i: int, j: int| 0 <= i < j < order.len() ==> order[i] != order[j]) && (forall|k: int|
            0 <= k < order.len() ==> order[k] < comps.len()) && (forall|k: int|
            0 <= k < bs.len() ==> block_for_choice(
                m,
                cg.vertices@[order[k] as int].CondensedVertices->Some_0,
                comps[order[k] as int],
                #[trigger] bs[k],
                k >= switch,
            ))
}

/// The witnesses of `base_blocks_from`.
proof fn lemma_base_blocks_from(
    m: COOInterconnectionMatrix,
    g: PenaltyGraph,
    cg: PenaltyGraph,
    comps: Seq<Seq<usize>>,
    order: Seq<usize>,
    bs: Seq<Seq<(i32, usize)>>,
    switch: int,
)
    requires
        is_penalty_graph_of(g, m),
        g.is_vertex_partition(comps),
        g.strongly_connected_parts(comps),
        g.arcs_go_forward(comps),
        g.is_condensation(cg, comps),
        order.len() == comps.len(),
        bs.len() == comps.len(),
        forall|i: int, j: int| 0 <= i < j < order.len() ==> order[i] != order[j],
        forall|k: int| 0 <= k < order.len() ==> order[k] < comps.len(),
        forall|k: int|
            0 <= k < bs.len() ==> block_for_choice(
                m,
                cg.vertices@[order[k] as int].CondensedVertices->Some_0,
                comps[order[k] as int],
                #[trigger] bs[k],
                k >= switch,
            ),
    ensures
        base_blocks_from(m, bs, switch),
{
}

/// What `component_block` states of its block, as `block_for_choice`.
proof fn lemma_choice_step(
    m: COOInterconnectionMatrix,
    sub: PenaltyGraph,
    comp: Seq<usize>,
    b: Seq<(i32, usize)>,
    speedup: bool,
)
    requires
        comp.len() >= 1,
        comp.len() == 1 ==> b == loose_at(m, comp),
        comp.len() > 1 ==> exists|eo: Seq<usize>|
            sub.is_eades_order(VertexArcBaseHeuristic::Baharev, eo) && b == component_choice(m, comp, eo, speedup),
    ensures
        block_for_choice(m, sub, comp, b, speedup),
{
}

/// The blocks of the base heuristic: one for each strongly connected
/// component of the penalty graph, in an order of the components, each
/// holding its component as `chosen_block` describes (with the inner graph
/// that the condensation `cg` keeps for the component).
pub open spec fn base_blocks(m: COOInterconnectionMatrix, bs: Seq<Seq<(i32, usize)>>) -> bool {
    exists|g: PenaltyGraph, cg: PenaltyGraph, comps: Seq<Seq<usize>>, order: Seq<usize>|
        is_penalty_graph_of(g, m) && g.is_vertex_partition(comps) && g.strongly_connected_parts(comps)
            && g.arcs_go_forward(comps) && g.is_condensation(cg, comps) && order.len() == comps.len() && bs.len()
            == comps.len() && (forall|i: int, j: int| 0 <= i < j < order.len() ==> order[i] != order[j]) && (forall|k: int|
            0 <= k < order.len() ==> order[k] < comps.len()) && (forall|k: int|
            0 <= k < bs.len() ==> chosen_block(
                m,
                cg.vertices@[order[k] as int].CondensedVertices->Some_0,
                comps[order[k] as int],
                #[trigger] bs[k],
            ))
}

/// The blocks so far hold, block by block, loose vertices of the components
/// at the first places of `order`.
spec fn blocks_from_components(
    m: COOInterconnectionMatrix,
    comps: Seq<Seq<usize>>,
    order: Seq<usize>,
    bs: Seq<Seq<(i32, usize)>>,
) -> bool {
    forall|k: int, e: int|
        0 <= k < bs.len() && 0 <= e < bs[k].len() ==> loose_at(m, comps[order[k] as int]).contains(
            #[trigger] bs[k][e],
        )
}

/// Appending the block of the component at place `q` of a topological order
/// of the condensed graph keeps the blocks following the penalty graph.
proof fn lemma_block_after(
    m: COOInterconnectionMatrix,
    g: PenaltyGraph,
    cg: PenaltyGraph,
    comps: Seq<Seq<usize>>,
    order: Seq<usize>,
    bs: Seq<Seq<(i32, usize)>>,
    nb: Seq<(i32, usize)>,
)
    requires
        is_penalty_graph_of(g, m),
        m.loose@.len() <= usize::MAX,
        condenses(g, cg, comps),
        comps.len() == cg.vertices@.len(),
        forall|j: int| 0 <= j < order.len() ==> #[trigger] order[j] < cg.vertices@.len(),
        forall|i: int, j: int| 0 <= i < j < order.len() ==> order[i] != order[j],
        forall|i: int| 0 <= i < order.len() ==> cg.sources_done(#[trigger] order[i] as int, order.take(i)),
        bs.len() < order.len(),
        blocks_follow_penalties(m, bs),
        blocks_from_components(m, comps, order, bs),
        forall|e: int| 0 <= e < nb.len() ==> loose_at(m, comps[order[bs.len() as int] as int]).contains(#[trigger] nb[e]),
    ensures
        blocks_follow_penalties(m, bs.push(nb)),
        blocks_from_components(m, comps, order, bs.push(nb)),
{
    let q = bs.len() as int;
    let c = order[q] as int;
    let b2 = bs.push(nb);
    reveal(condenses);
    assert forall|i: int, j: int, a: int, b: int|
        0 <= i < j < b2.len() && 0 <= a < b2[i].len() && 0 <= b < b2[j].len() implies m.cross(
        (#[trigger] b2[i][a]).1,
        (#[trigger] b2[j][b]).1,
    ) <= m.cross(b2[j][b].1, b2[i][a].1) by {
        if j < q {
            assert(b2[i] == bs[i]);
            assert(b2[j] == bs[j]);
        } else {
            assert(b2[i] == bs[i]);
            assert(b2[j] == nb);
            let t = order[i] as int;
            assert(loose_at(m, comps[t]).contains(bs[i][a]));
            assert(loose_at(m, comps[c]).contains(nb[b]));
            let pa = choose|pa: int| 0 <= pa < loose_at(m, comps[t]).len() && loose_at(m, comps[t])[pa] == bs[i][a];
            let pb = choose|pb: int| 0 <= pb < loose_at(m, comps[c]).len() && loose_at(m, comps[c])[pb] == nb[b];
            let u = comps[t][pa];
            let v = comps[c][pb];
            assert(u < g.vertices@.len());
            assert(v < g.vertices@.len());
            if m.cross(bs[i][a].1, nb[b].1) > m.cross(nb[b].1, bs[i][a].1) {
                assert(beats(m, u as int, v as int));
                lemma_penalty_arc(g, m, u as int, v as int);
                let e = choose|e: int|
                    0 <= e < g.vertices@[u as int].InNeighbours@.len() && g.vertices@[u as int].InNeighbours@[e].0
                        == v as usize;
                crate::pengraph::lemma_partition_index(&g, comps, t, pa);
                crate::pengraph::lemma_partition_index(&g, comps, c, pb);
                assert(order[i] != order[q]);
                lemma_cond_has_arc(g, cg, comps, u, e);
                let jj = choose|jj: int|
                    0 <= jj < cg.vertices@[t].InNeighbours@.len() && cg.vertices@[t].InNeighbours@[jj].0 == c as usize;
                assert(cg.sources_done(order[i] as int, order.take(i)));
                assert(order.take(i).contains(cg.vertices@[t].InNeighbours@[jj].0));
                let w = choose|w: int| 0 <= w < order.take(i).len() && order.take(i)[w] == c as usize;
                assert(order[w] == order[q]);
            }
        }
    }
    assert forall|k: int, e: int| 0 <= k < b2.len() && 0 <= e < b2[k].len() implies loose_at(
        m,
        comps[order[k] as int],
    ).contains(#[trigger] b2[k][e]) by {
        if k < q {
            assert(b2[k] == bs[k]);
        } else {
            assert(b2[k] == nb);
        }
    }
}

/// Laying out the block of the component at the next place of the
/// topological order keeps what the base heuristic's loop holds of its blocks.
#[verifier::spinoff_prover]
proof fn lemma_base_step(
    m: COOInterconnectionMatrix,
    g: PenaltyGraph,
    cg: PenaltyGraph,
    comps: Seq<Seq<usize>>,
    kahn: Seq<usize>,
    seen: Seq<usize>,
    bs0: Seq<Seq<(i32, usize)>>,
    block: Seq<(i32, usize)>,
)
    requires
        loose_order_ok(m),
        m.loose@.len() <= i32::MAX,
        is_penalty_graph_of(g, m),
        g.is_vertex_partition(comps),
        g.is_condensation(cg, comps),
        condenses(g, cg, comps),
        comps.len() == cg.vertices@.len(),
        comps.len() <= usize::MAX,
        forall|j: int| 0 <= j < kahn.len() ==> #[trigger] kahn[j] < cg.vertices@.len(),
        forall|i: int, j: int| 0 <= i < j < kahn.len() ==> kahn[i] != kahn[j],
        forall|i: int| 0 <= i < kahn.len() ==> cg.sources_done(#[trigger] kahn[i] as int, kahn.take(i)),
        bs0.len() < kahn.len(),
        seen_so_far(comps, kahn, bs0.len() as int, seen, m.loose@.len() as int),
        splits_loose_order_upto(m, bs0, seen),
        blocks_follow_penalties(m, bs0),
        blocks_from_components(m, comps, kahn, bs0),
        forall|k: int| 0 <= k < bs0.len() ==> (#[trigger] bs0[k]).to_multiset() == loose_at(
            m,
            comps[kahn[k] as int],
        ).to_multiset(),
        forall|k: int|
            0 <= k < bs0.len() ==> chosen_block(
                m,
                cg.vertices@[kahn[k] as int].CondensedVertices->Some_0,
                comps[kahn[k] as int],
                #[trigger] bs0[k],
            ),
        block.to_multiset() == loose_at(m, comps[kahn[bs0.len() as int] as int]).to_multiset(),
        block_ok(m, block),
        block.len() >= 1,
        comps[kahn[bs0.len() as int] as int].len() == 1 ==> block == loose_at(m, comps[kahn[bs0.len() as int] as int]),
        comps[kahn[bs0.len() as int] as int].len() > 1 ==> chosen_block(
            m,
            cg.vertices@[kahn[bs0.len() as int] as int].CondensedVertices->Some_0,
            comps[kahn[bs0.len() as int] as int],
            block,
        ),
    ensures
        ({
            let q = bs0.len() as int;
            let bs1 = bs0.push(block);
            let seen1 = seen + comps[kahn[q] as int];
            &&& seen_so_far(comps, kahn, q + 1, seen1, m.loose@.len() as int)
            &&& splits_loose_order_upto(m, bs1, seen1)
            &&& blocks_follow_penalties(m, bs1)
            &&& blocks_from_components(m, comps, kahn, bs1)
            &&& forall|k: int| 0 <= k < bs1.len() ==> (#[trigger] bs1[k]).to_multiset() == loose_at(
                m,
                comps[kahn[k] as int],
            ).to_multiset()
            &&& forall|k: int|
                0 <= k < bs1.len() ==> chosen_block(
                    m,
                    cg.vertices@[kahn[k] as int].CondensedVertices->Some_0,
                    comps[kahn[k] as int],
                    #[trigger] bs1[k],
                )
        }),
{
    let q = bs0.len() as int;
    let n = m.loose@.len() as int;
    let comp = comps[kahn[q] as int];
    let bs1 = bs0.push(block);
    lemma_seen_extend(g, comps, kahn, q, seen, n);
    assert(blocks_follow_penalties(m, bs1) && blocks_from_components(m, comps, kahn, bs1)) by {
        assert forall|e: int| 0 <= e < block.len() implies loose_at(m, comps[kahn[bs0.len() as int] as int]).contains(
            #[trigger] block[e],
        ) by {
            assert(block.contains(block[e]));
            vstd::seq_lib::to_multiset_contains(block, block[e]);
            vstd::seq_lib::to_multiset_contains(loose_at(m, comp), block[e]);
        }
        lemma_block_after(m, g, cg, comps, kahn, bs0, block);
    }
    assert(concat_all(bs1).to_multiset() == loose_at(m, seen + comp).to_multiset()) by {
        assert(bs1.drop_last() =~= bs0);
        assert(concat_all(bs1) == concat_all(bs0) + block);
        assert(loose_at(m, seen + comp) =~= loose_at(m, seen) + loose_at(m, comp));
        vstd::seq_lib::lemma_multiset_commutative(concat_all(bs0), block);
        vstd::seq_lib::lemma_multiset_commutative(loose_at(m, seen), loose_at(m, comp));
    }
    assert forall|k: int| 0 <= k < bs1.len() implies block_ok(m, #[trigger] bs1[k]) && bs1[k].len() >= 1 by {
        if k < bs0.len() {
            assert(bs1[k] == bs0[k]);
        }
    }
    assert forall|k: int| 0 <= k < bs1.len() implies (#[trigger] bs1[k]).to_multiset() == loose_at(
        m,
        comps[kahn[k] as int],
    ).to_multiset() by {
        if k < q {
            assert(bs1[k] == bs0[k]);
        }
    }
    assert forall|k: int| 0 <= k < bs1.len() implies chosen_block(
        m,
        cg.vertices@[kahn[k] as int].CondensedVertices->Some_0,
        comps[kahn[k] as int],
        #[trigger] bs1[k],
    ) by {
        if k < q {
            assert(bs1[k] == bs0[k]);
        } else {
            assert(bs1[k] == block);
        }
    }
}

/// Performs the following steps, stopping with `None` when termination is
/// requested or the process holds more than 4 GB:
/// 1. builds the penalty graph of the loose order;
/// 2. condenses its strongly connected components, which makes it acyclic;
/// 3. sorts the condensed graph topologically;
/// 4. orders the vertices of each component by a heuristic
///    (see `component_block`), one block per component in topological order:
///    the mean order unless the Eades order has fewer crossings, and, once
///    termination has been requested, the Eades order (`component_choice`).
///
/// When it succeeds, the blocks split the loose order and follow the
/// penalty graph.
#[verifier::spinoff_prover]
#[verifier::rlimit(80)]
pub fn solve_base_heuristic_on_penalty_graph(
    interconnection_matrix: &COOInterconnectionMatrix,
    termination_signal: &AtomicBool,
) -> (res: Option<Vec<Vec<(i32, usize)>>>)
    requires
        loose_order_ok(*interconnection_matrix),
        1 <= interconnection_matrix.loose@.len() <= i32::MAX,
    ensures
        res matches Some(bs) ==> splits_loose_order(*interconnection_matrix, blocks_of(bs@)),
        res matches Some(bs) ==> blocks_follow_penalties(*interconnection_matrix, blocks_of(bs@)),
        res matches Some(bs) ==> blocks_are_components(*interconnection_matrix, blocks_of(bs@)),
        res matches Some(bs) ==> base_blocks(*interconnection_matrix, blocks_of(bs@)),
        res matches Some(bs) ==> exists|switch: int|
            0 <= switch <= bs@.len() && base_blocks_from(*interconnection_matrix, blocks_of(bs@), switch),
{
    let ghost m = *interconnection_matrix;
    let n = interconnection_matrix.loose.len();
    let penalty_graph_option = PenaltyGraph::parse(interconnection_matrix, termination_signal);
    if penalty_graph_option.is_none() || memory_limit_exceeded() {
        return None;
    }
    let penalty_graph = penalty_graph_option.unwrap();
    proof {
        lemma_penalty_graph_shape(penalty_graph, m);
    }
    let condensed = penalty_graph.CondenseGraph();
    let cn = condensed.vertices.len();
    let ghost comps = choose|comps: Seq<Seq<usize>>|
        penalty_graph.is_vertex_partition(comps) && penalty_graph.arcs_go_forward(comps)
            && penalty_graph.strongly_connected_parts(comps) && penalty_graph.is_condensation(condensed, comps);
    proof {
        reveal(condenses);
        lemma_condensation_shape(penalty_graph, condensed, comps);
        assert(condenses(penalty_graph, condensed, comps));
    }
    if should_terminate(termination_signal) {
        return None;
    }
    let topological_sort = match condensed.SortWithKahnsAlgorithm() {
        Some(order) => order,
        None => {
            return None;
        },
    };
    if should_terminate(termination_signal) {
        return None;
    }
    let ghost kahn = topological_sort@;
    let mut intermediate_result: Vec<Vec<(i32, usize)>> = Vec::new();
    let mut speedup = false;
    let ghost mut switch: int = 0;
    let ghost mut seen: Seq<usize> = Seq::empty();
    proof {
        lemma_empty_multiset(concat_all(blocks_of(intermediate_result@)));
        lemma_empty_multiset(loose_at(m, seen));
    }
    let mut q: usize = 0;
    while q < topological_sort.len()
        invariant
            m == *interconnection_matrix,
            loose_order_ok(m),
            n == m.loose@.len(),
            n <= i32::MAX,
            is_penalty_graph_of(penalty_graph, m),
            penalty_graph.is_vertex_partition(comps),
            penalty_graph.is_condensation(condensed, comps),
            cn == condensed.vertices@.len(),
            cn == comps.len(),
            kahn == topological_sort@,
            forall|j: int| 0 <= j < kahn.len() ==> #[trigger] kahn[j] < cn,
            forall|i: int, j: int| 0 <= i < j < kahn.len() ==> kahn[i] != kahn[j],
            forall|c: int| 0 <= c < cn ==> #[trigger] kahn.contains(c as usize),
            q <= kahn.len(),
            seen_so_far(comps, kahn, q as int, seen, n as int),
            splits_loose_order_upto(m, blocks_of(intermediate_result@), seen),
            condenses(penalty_graph, condensed, comps),
            forall|i: int| 0 <= i < kahn.len() ==> condensed.sources_done(#[trigger] kahn[i] as int, kahn.take(i)),
            intermediate_result@.len() == q,
            blocks_follow_penalties(m, blocks_of(intermediate_result@)),
            blocks_from_components(m, comps, kahn, blocks_of(intermediate_result@)),
            forall|k: int| 0 <= k < q ==> (#[trigger] blocks_of(intermediate_result@)[k]).to_multiset() == loose_at(
                m,
                comps[kahn[k] as int],
            ).to_multiset(),
            forall|k: int|
                0 <= k < q ==> chosen_block(
                    m,
                    condensed.vertices@[kahn[k] as int].CondensedVertices->Some_0,
                    comps[kahn[k] as int],
                    #[trigger] blocks_of(intermediate_result@)[k],
                ),
            0 <= switch <= q,
            !speedup ==> switch == q,
            forall|k: int|
                0 <= k < q ==> block_for_choice(
                    m,
                    condensed.vertices@[kahn[k] as int].CondensedVertices->Some_0,
                    comps[kahn[k] as int],
                    #[trigger] blocks_of(intermediate_result@)[k],
                    k >= switch,
                ),
        decreases kahn.len() - q,
    {
        let vertex_reference = topological_sort[q];
        let vert = &condensed.vertices[vertex_reference];
        if should_terminate(termination_signal) {
            speedup = true;
        }
        let ghost comp = comps[vertex_reference as int];
        proof {
            lemma_stands_for(m, penalty_graph, condensed, comps, vertex_reference as int);
        }
        let block = component_block(interconnection_matrix, vert, speedup, Ghost(comp));
        let ghost bs0 = blocks_of(intermediate_result@);
        intermediate_result.push(block);
        proof {
            lemma_base_step(m, penalty_graph, condensed, comps, kahn, seen, bs0, block@);
            assert(blocks_of(intermediate_result@) =~= bs0.push(block@));
            seen = seen + comp;
            let sw1: int = if speedup { switch } else { q + 1 };
            lemma_choice_step(
                m,
                condensed.vertices@[vertex_reference as int].CondensedVertices->Some_0,
                comp,
                block@,
                speedup,
            );
            assert forall|k: int| 0 <= k < q + 1 implies block_for_choice(
                m,
                condensed.vertices@[kahn[k] as int].CondensedVertices->Some_0,
                comps[kahn[k] as int],
                #[trigger] blocks_of(intermediate_result@)[k],
                k >= sw1,
            ) by {
                if k < q {
                    assert(blocks_of(intermediate_result@)[k] == bs0[k]);
                    assert((k >= switch) == (k >= sw1));
                } else {
                    assert(blocks_of(intermediate_result@)[k] == block@);
                }
            }
            switch = sw1;
        }
        q += 1;
    }
    proof {
        let g = penalty_graph;
        assert forall|v: int| 0 <= v < n implies #[trigger] seen.contains(v as usize) by {
            lemma_comp_index_valid(g, comps, v as usize);
            let c = comp_index(comps, v as usize);
            assert(kahn.contains(c as usize));
            let j = choose|j: int| 0 <= j < kahn.len() && kahn[j] == c as usize;
            let k = pos_in(comps[c], v as usize);
            assert(comps[kahn[j] as int][k] == v as usize);
        }
        assert(kahn.take(q as int) =~= kahn);
        lemma_covering_indices(seen, n as int);
        let f = |v: usize| m.loose@[v as int];
        lemma_map_multiset(seen, vertex_indices(n as int), f);
        assert(vertex_indices(n as int).map_values(f) =~= m.loose@);
        assert(loose_at(m, seen) == seen.map_values(f));
        lemma_covering_indices(kahn, cn as int);
        vstd::seq_lib::to_multiset_len(kahn);
        vstd::seq_lib::to_multiset_len(vertex_indices(cn as int));
        let bs = blocks_of(intermediate_result@);
        assert(is_penalty_graph_of(g, m) && g.is_vertex_partition(comps) && g.strongly_connected_parts(comps)
            && g.arcs_go_forward(comps) && kahn.len() == comps.len() && bs.len() == comps.len() && (forall|i: int, j: int|
            0 <= i < j < kahn.len() ==> kahn[i] != kahn[j]) && (forall|k: int| 0 <= k < kahn.len() ==> kahn[k] < comps.len())
            && (forall|k: int| 0 <= k < bs.len() ==> (#[trigger] bs[k]).to_multiset() == loose_at(m, comps[kahn[k] as int]).to_multiset()));
        assert(is_penalty_graph_of(g, m) && g.is_vertex_partition(comps) && g.strongly_connected_parts(comps)
            && g.arcs_go_forward(comps) && g.is_condensation(condensed, comps) && kahn.len() == comps.len() && bs.len()
            == comps.len() && (forall|i: int, j: int| 0 <= i < j < kahn.len() ==> kahn[i] != kahn[j]) && (forall|k: int|
            0 <= k < kahn.len() ==> kahn[k] < comps.len()) && (forall|k: int|
            0 <= k < bs.len() ==> chosen_block(
                m,
                condensed.vertices@[kahn[k] as int].CondensedVertices->Some_0,
                comps[kahn[k] as int],
                #[trigger] bs[k],
            )));
        lemma_base_blocks_from(m, g, condensed, comps, kahn, bs, switch);
    }
    Some(intermediate_result)
}

/// The blocks so far are usable, not empty, and hold the loose vertices at
/// the positions `seen`.
spec fn splits_loose_order_upto(m: COOInterconnectionMatrix, bs: Seq<Seq<(i32, usize)>>, seen: Seq<usize>) -> bool {
    &&& blocks_ok(m, bs)
    &&& forall|k: int| 0 <= k < bs.len() ==> (#[trigger] bs[k]).len() >= 1
    &&& concat_all(bs).to_multiset() == loose_at(m, seen).to_multiset()
}

/// Largest number of loose vertices for which the penalty graph is built;
/// larger instances keep the order of the mean heuristic.
pub const INSTANCE_SIZE_CUTOFF: usize = 50000;

/// The names of a list of loose vertices.
pub open spec fn names(s: Seq<(i32, usize)>) -> Seq<i32> {
    s.map_values(|x: (i32, usize)| x.0)
}

/// A part of a loose order the solver can work on is one too.
proof fn lemma_loose_order_ok_part(m: COOInterconnectionMatrix, m2: COOInterconnectionMatrix)
    requires
        loose_order_ok(m),
        m2.wf(),
        m2.adjacency_list@ == m.adjacency_list@,
        m2.loose@.to_multiset().subset_of(m.loose@.to_multiset()),
    ensures
        loose_order_ok(m2),
{
    let s = m.loose@;
    let t = m2.loose@;
    lemma_block_of_loose(m, t, s);
    assert(m2.cost() =~= m.cost()) by {
        assert forall|x: usize, y: usize| #[trigger] m2.cost()(x, y) == m.cost()(x, y) by {
            assert(m2.nbrs(x) == m.nbrs(x));
            assert(m2.nbrs(y) == m.nbrs(y));
        }
    }
    assert forall|k: int, l: int| 0 <= k < t.len() && 0 <= l < t.len() implies #[trigger] m2.cross(t[k].1, t[l].1)
        <= u32::MAX by {
        assert(m2.nbrs(t[k].1) == m.nbrs(t[k].1));
        assert(m2.nbrs(t[l].1) == m.nbrs(t[l].1));
        assert(m.cross(t[k].1, t[l].1) <= u32::MAX);
    }
}

/// Blocks that hold the same vertices block by block hold the same vertices
/// together.
proof fn lemma_same_blocks_concat(a: Seq<Seq<(i32, usize)>>, b: Seq<Seq<(i32, usize)>>)
    requires
        same_blocks(a, b),
    ensures
        concat_all(a).to_multiset() == concat_all(b).to_multiset(),
        forall|k: int| 0 <= k < a.len() ==> (#[trigger] b[k]).len() == a[k].len(),
    decreases a.len(),
{
    assert forall|k: int| 0 <= k < a.len() implies (#[trigger] b[k]).len() == a[k].len() by {
        vstd::seq_lib::to_multiset_len(a[k]);
        vstd::seq_lib::to_multiset_len(b[k]);
    }
    if a.len() > 0 {
        assert(same_blocks(a.drop_last(), b.drop_last())) by {
            assert forall|k: int| 0 <= k < a.len() - 1 implies (#[trigger] b.drop_last()[k]).to_multiset()
                == a.drop_last()[k].to_multiset() by {
                assert(b.drop_last()[k] == b[k]);
                assert(a.drop_last()[k] == a[k]);
            }
        }
        lemma_same_blocks_concat(a.drop_last(), b.drop_last());
        assert(b.last().to_multiset() == a.last().to_multiset()) by {
            assert(b[b.len() - 1].to_multiset() == a[a.len() - 1].to_multiset());
        }
        vstd::seq_lib::lemma_multiset_commutative(concat_all(a.drop_last()), a.last());
        vstd::seq_lib::lemma_multiset_commutative(concat_all(b.drop_last()), b.last());
    }
}

/// Local search keeps the blocks splitting the loose order.
proof fn lemma_split_kept(m: COOInterconnectionMatrix, a: Seq<Seq<(i32, usize)>>, b: Seq<Seq<(i32, usize)>>)
    requires
        splits_loose_order(m, a),
        same_blocks(a, b),
        blocks_ok(m, b),
    ensures
        splits_loose_order(m, b),
{
    lemma_same_blocks_concat(a, b);
    assert forall|k: int| 0 <= k < b.len() implies (#[trigger] b[k]).len() >= 1 by {
        assert(a[k].len() >= 1);
    }
}

/// The blocks the solver ends with: they split the loose order, and unless
/// there is a single one they are the strongly connected components of the
/// penalty graph, in an order that the arcs of the penalty graph follow.
pub open spec fn solver_blocks(m: COOInterconnectionMatrix, bs: Seq<Seq<(i32, usize)>>) -> bool {
    &&& splits_loose_order(m, bs)
    &&& (bs.len() == 1 || (blocks_are_components(m, bs) && blocks_follow_penalties(m, bs)))
}

/// The blocks the local search of the solver starts from: the whole loose
/// order in the order of the mean heuristic (median tie-breaking), or, on an
/// instance of at most `INSTANCE_SIZE_CUTOFF` loose vertices, the blocks of
/// the base heuristic.
pub open spec fn start_blocks(m: COOInterconnectionMatrix, bs: Seq<Seq<(i32, usize)>>) -> bool {
    ||| bs == seq![m.collapsed(m.mean_buckets(m.loose@), TieBreaker::Median)]
    ||| (m.loose@.len() <= INSTANCE_SIZE_CUTOFF && base_blocks(m, bs))
}

/// Holding the same vertices block by block is transitive.
proof fn lemma_same_blocks_trans(a: Seq<Seq<(i32, usize)>>, b: Seq<Seq<(i32, usize)>>, c: Seq<Seq<(i32, usize)>>)
    requires
        same_blocks(a, b),
        same_blocks(b, c),
    ensures
        same_blocks(a, c),
{
    assert forall|k: int| 0 <= k < a.len() implies (#[trigger] c[k]).to_multiset() == a[k].to_multiset() by {
        assert(b[k].to_multiset() == a[k].to_multiset());
    }
}

/// Rearranging blocks inside themselves keeps them the solver's blocks.
proof fn lemma_solver_blocks_kept(m: COOInterconnectionMatrix, a: Seq<Seq<(i32, usize)>>, b: Seq<Seq<(i32, usize)>>)
    requires
        solver_blocks(m, a),
        same_blocks(a, b),
        blocks_ok(m, b),
    ensures
        solver_blocks(m, b),
{
    lemma_split_kept(m, a, b);
    if a.len() != 1 {
        let (g, comps, order) = choose|g: PenaltyGraph, comps: Seq<Seq<usize>>, order: Seq<usize>|
            is_penalty_graph_of(g, m) && g.is_vertex_partition(comps) && g.strongly_connected_parts(comps)
                && g.arcs_go_forward(comps) && order.len() == comps.len() && a.len() == comps.len() && (forall|i: int, j: int|
                0 <= i < j < order.len() ==> order[i] != order[j]) && (forall|k: int| 0 <= k < order.len() ==> order[k] < comps.len())
                && (forall|k: int| 0 <= k < a.len() ==> (#[trigger] a[k]).to_multiset() == loose_at(m, comps[order[k] as int]).to_multiset());
        assert forall|k: int| 0 <= k < b.len() implies (#[trigger] b[k]).to_multiset() == loose_at(m, comps[order[k] as int]).to_multiset() by {
            assert(a[k].to_multiset() == loose_at(m, comps[order[k] as int]).to_multiset());
        }
        assert(blocks_are_components(m, b));
        assert forall|i: int, j: int, x: int, y: int|
            0 <= i < j < b.len() && 0 <= x < b[i].len() && 0 <= y < b[j].len() implies m.cross(
            (#[trigger] b[i][x]).1,
            (#[trigger] b[j][y]).1,
        ) <= m.cross(b[j][y].1, b[i][x].1) by {
            vstd::seq_lib::to_multiset_contains(b[i], b[i][x]);
            vstd::seq_lib::to_multiset_contains(a[i], b[i][x]);
            vstd::seq_lib::to_multiset_contains(b[j], b[j][y]);
            vstd::seq_lib::to_multiset_contains(a[j], b[j][y]);
            assert(b[i].contains(b[i][x]));
            assert(b[j].contains(b[j][y]));
            let p = choose|p: int| 0 <= p < a[i].len() && a[i][p] == b[i][x];
            let q = choose|q: int| 0 <= q < a[j].len() && a[j][q] == b[j][y];
            assert(m.cross(a[i][p].1, a[j][q].1) <= m.cross(a[j][q].1, a[i][p].1));
        }
    }
}

/// Solves an instance: the loose vertices without edges go first, in their
/// order; the others are split into blocks (by the penalty graph, or a single
/// block in the order of the mean heuristic when the instance is larger than
/// `INSTANCE_SIZE_CUTOFF` or the penalty graph could not be finished), which
/// are improved by local search (a greedy switch pass, then rounds of
/// `k`-step passes for `k` in `2..30` and another greedy switch pass, while a
/// round removes crossings).  Returns the names of the loose vertices in the
/// order found; the matrix is left without the vertices of degree zero.
/// The local search keeps each block's vertices and never adds crossings to
/// the blocks it starts from.
#[verifier::spinoff_prover]
#[verifier::rlimit(80)]
pub fn solve(interconnection_matrix: &mut COOInterconnectionMatrix, termination_signal: &AtomicBool) -> (res: Vec<i32>)
    requires
        loose_order_ok(*old(interconnection_matrix)),
        exists|i: int|
            0 <= i < old(interconnection_matrix).loose@.len() && old(interconnection_matrix).nbrs(
                #[trigger] old(interconnection_matrix).loose@[i].1,
            ).len() > 0,
    ensures
        res@.to_multiset() == names(old(interconnection_matrix).loose@).to_multiset(),
        res@.take(orphans_of(*old(interconnection_matrix)).len() as int) == names(orphans_of(*old(interconnection_matrix))),
        final(interconnection_matrix).loose@ == old(interconnection_matrix).loose@.filter(
            |x: (i32, usize)| old(interconnection_matrix).nbrs(x.1).len() > 0,
        ),
        final(interconnection_matrix).adjacency_list@ == old(interconnection_matrix).adjacency_list@,
        final(interconnection_matrix).fixed@ == old(interconnection_matrix).fixed@,
        exists|bs0: Seq<Seq<(i32, usize)>>, bs: Seq<Seq<(i32, usize)>>|
            res@ == names(orphans_of(*old(interconnection_matrix))) + names(concat_all(bs)) && solver_blocks(
                *final(interconnection_matrix),
                bs,
            ) && start_blocks(*final(interconnection_matrix), bs0) && same_blocks(bs0, bs) && total_cost(
                *final(interconnection_matrix),
                bs,
            ) <= total_cost(*final(interconnection_matrix), bs0),
{
    let ghost m0 = *interconnection_matrix;
    //Extracting orphans (vertices with degree = 0)
    let orphans = interconnection_matrix.extract_orphan_nodes();
    let ghost m = *interconnection_matrix;
    proof {
        let keep = |x: (i32, usize)| m0.nbrs(x.1).len() > 0;
        let drop = |x: (i32, usize)| m0.nbrs(x.1).len() == 0;
        assert(m.loose@ == m0.loose@.filter(keep));
        assert(orphans@ == m0.loose@.filter(drop));
        assert(orphans_of(m0) == orphans@);
        lemma_filter_split(m0.loose@, keep);
        assert((|x: (i32, usize)| !keep(x)) =~= drop);
        assert(m.loose@.to_multiset().subset_of(m0.loose@.to_multiset()));
        lemma_loose_order_ok_part(m0, m);
        let i = choose|i: int| 0 <= i < m0.loose@.len() && m0.nbrs(#[trigger] m0.loose@[i].1).len() > 0;
        m0.loose@.lemma_filter_contains(keep, i);
        assert(m.loose@.len() > 0);
        assert(m.valid_refs(m.loose@));
        lemma_mean_buckets_valid(&m, m.loose@);
    }
    //Calculate fallback result
    let temp_list = interconnection_matrix.mean_heuristic();
    proof {
        assert forall|q: int| 0 <= q < temp_list@.len() implies m.valid_refs(#[trigger] temp_list@[q]@) by {
            assert(temp_list@.map_values(|b: Vec<(i32, usize)>| b@)[q] == temp_list@[q]@);
            assert(m.valid_refs(m.mean_buckets(m.loose@)[q]));
        }
    }
    let emergency_result = interconnection_matrix.collapse_loose_edge_list(temp_list, TieBreaker::Median);
    proof {
        lemma_mean_median_order_multiset(&m, m.loose@);
        lemma_block_of_loose(m, emergency_result@, m.loose@);
        vstd::seq_lib::to_multiset_len(emergency_result@);
        vstd::seq_lib::to_multiset_len(m.loose@);
        let bs = seq![emergency_result@];
        assert(bs.drop_last() =~= Seq::<Seq<(i32, usize)>>::empty());
        assert(concat_all(bs.drop_last()).len() == 0);
        assert(concat_all(bs) =~= emergency_result@);
        assert(splits_loose_order(m, bs));
        assert(solver_blocks(m, bs));
    }
    let ghost eb = emergency_result@;
    let mut intermediate_result: Vec<Vec<(i32, usize)>>;
    //If instance is so big that it might break the memory limit default to emergency result
    if interconnection_matrix.loose.len() > INSTANCE_SIZE_CUTOFF {
        intermediate_result = vec![emergency_result];
        proof {
            assert(blocks_of(intermediate_result@) =~= seq![eb]);
        }
    } else {
        //Solve penalty graph base-heuristic. If it gets interrupted (SIGTERM or memory), default to emergency result)
        let option = solve_base_heuristic_on_penalty_graph(interconnection_matrix, termination_signal);
        match option {
            Some(blocks) => {
                intermediate_result = blocks;
            },
            None => {
                intermediate_result = vec![emergency_result];
                proof {
                    assert(blocks_of(intermediate_result@) =~= seq![eb]);
                }
            },
        }
    }
    //Perform initial local search
    let ghost before = blocks_of(intermediate_result@);
    proof {
        assert(start_blocks(m, before));
        assert(same_blocks(before, before));
    }
    local_search(&mut intermediate_result, interconnection_matrix, LocalSearchStrat::GreedySwitch, 0, termination_signal);
    proof {
        lemma_solver_blocks_kept(m, before, blocks_of(intermediate_result@));
    }
    let mut continue_search = true;
    //Rounds of k-step searches for increasing k, then a greedy switch search.
    //Stops only when a round over all parameters removes no crossings.
    while continue_search
        invariant
            *interconnection_matrix == m,
            loose_order_ok(m),
            solver_blocks(m, blocks_of(intermediate_result@)),
            start_blocks(m, before),
            same_blocks(before, blocks_of(intermediate_result@)),
            total_cost(m, blocks_of(intermediate_result@)) <= total_cost(m, before),
        decreases total_cost(m, blocks_of(intermediate_result@)) + (if continue_search {
            1int
        } else {
            0int
        }),
    {
        let ghost round_start = total_cost(m, blocks_of(intermediate_result@));
        continue_search = false;
        let mut i: usize = 2;
        while i < 30
            invariant
                *interconnection_matrix == m,
                loose_order_ok(m),
                solver_blocks(m, blocks_of(intermediate_result@)),
                same_blocks(before, blocks_of(intermediate_result@)),
                total_cost(m, blocks_of(intermediate_result@)) <= total_cost(m, before),
                2 <= i <= 30,
                total_cost(m, blocks_of(intermediate_result@)) <= round_start,
                continue_search ==> total_cost(m, blocks_of(intermediate_result@)) < round_start,
            decreases 30 - i,
        {
            if should_terminate(termination_signal) {
                break;
            }
            if !continue_search {
                let ghost b0 = blocks_of(intermediate_result@);
                continue_search = local_search(
                    &mut intermediate_result,
                    interconnection_matrix,
                    LocalSearchStrat::GreedySwitchKstep,
                    i,
                    termination_signal,
                );
                proof {
                    lemma_solver_blocks_kept(m, b0, blocks_of(intermediate_result@));
                    lemma_same_blocks_trans(before, b0, blocks_of(intermediate_result@));
                }
            }
            i += 1;
        }
        if should_terminate(termination_signal) {
            break;
        }
        if !continue_search {
            let ghost b0 = blocks_of(intermediate_result@);
            continue_search = local_search(
                &mut intermediate_result,
                interconnection_matrix,
                LocalSearchStrat::GreedySwitch,
                0,
                termination_signal,
            );
            proof {
                lemma_solver_blocks_kept(m, b0, blocks_of(intermediate_result@));
                lemma_same_blocks_trans(before, b0, blocks_of(intermediate_result@));
            }
        }
    }
    //Generates result
    let mut result: Vec<i32> = Vec::new();
    //reattach orphans
    let mut k: usize = 0;
    while k < orphans.len()
        invariant
            k <= orphans@.len(),
            result@ == names(orphans@.take(k as int)),
        decreases orphans@.len() - k,
    {
        result.push(orphans[k].0);
        proof {
            assert(orphans@.take(k + 1) =~= orphans@.take(k as int).push(orphans@[k as int]));
            assert(names(orphans@.take(k + 1)) =~= names(orphans@.take(k as int)).push(orphans@[k as int].0));
        }
        k += 1;
    }
    proof {
        assert(orphans@.take(k as int) =~= orphans@);
    }
    let ghost bs = blocks_of(intermediate_result@);
    let mut b: usize = 0;
    while b < intermediate_result.len()
        invariant
            bs == blocks_of(intermediate_result@),
            b <= bs.len(),
            result@ == names(orphans@ + concat_all(bs.take(b as int))),
        decreases bs.len() - b,
    {
        let sublist = &intermediate_result[b];
        let ghost r0 = result@;
        let mut e: usize = 0;
        while e < sublist.len()
            invariant
                e <= sublist@.len(),
                result@ == r0 + names(sublist@.take(e as int)),
            decreases sublist@.len() - e,
        {
            result.push(sublist[e].0);
            proof {
                assert(sublist@.take(e + 1) =~= sublist@.take(e as int).push(sublist@[e as int]));
                assert(names(sublist@.take(e + 1)) =~= names(sublist@.take(e as int)).push(sublist@[e as int].0));
                assert(result@ =~= r0 + names(sublist@.take(e + 1)));
            }
            e += 1;
        }
        proof {
            assert(sublist@.take(e as int) =~= sublist@);
            assert(bs[b as int] == sublist@);
            assert(bs.take(b + 1).drop_last() =~= bs.take(b as int));
            assert(concat_all(bs.take(b + 1)) == concat_all(bs.take(b as int)) + sublist@);
            assert(names(orphans@ + concat_all(bs.take(b + 1))) =~= names(orphans@ + concat_all(bs.take(b as int)))
                + names(sublist@));
        }
        b += 1;
    }
    proof {
        assert(bs.take(b as int) =~= bs);
        let all = orphans@ + concat_all(bs);
        vstd::seq_lib::lemma_multiset_commutative(orphans@, concat_all(bs));
        lemma_filter_split(m0.loose@, |x: (i32, usize)| m0.nbrs(x.1).len() > 0);
        assert((|x: (i32, usize)| !(m0.nbrs(x.1).len() > 0)) =~= (|x: (i32, usize)| m0.nbrs(x.1).len() == 0));
        assert(all.to_multiset() =~= m0.loose@.to_multiset());
        lemma_map_multiset(all, m0.loose@, |x: (i32, usize)| x.0);
        assert(result@.take(orphans@.len() as int) =~= names(orphans@));
        assert(names(orphans@ + concat_all(bs)) =~= names(orphans@) + names(concat_all(bs)));
        assert(result@ == names(orphans_of(m0)) + names(concat_all(bs)) && solver_blocks(m, bs) && start_blocks(m, before)
            && same_blocks(before, bs) && total_cost(m, bs) <= total_cost(m, before));
    }
    result
}

/// The loose vertices without edges, in order.
pub open spec fn orphans_of(m: COOInterconnectionMatrix) -> Seq<(i32, usize)> {
    m.loose@.filter(|x: (i32, usize)| m.nbrs(x.1).len() == 0)
}

} // verus!
