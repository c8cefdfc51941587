//! Laws of the orders built from the penalty graph.  The penalty graph has
//! no arc from a vertex to itself and lists every arc at both ends; its
//! condensation keeps both properties, leads each vertex to distinct
//! components and numbers the components so that every arc goes from a
//! smaller number to a larger one, so that the topological sort lists every
//! component.  Vertices that reach each other share a component, and the
//! Eades order lists every vertex once.
#![allow(non_snake_case)]
use vstd::prelude::*;
use crate::interconnection::{concat_all, COOInterconnectionMatrix};
use crate::pengraph::{
    comp_index, dedup_arcs, in_some_list, is_penalty_graph_of, penalty_in_upto, penalty_out_upto,
    lemma_filter_indices_distinct, pos_in, PenaltyGraph, VertexArcBaseHeuristic,
};
use crate::permutation::{lemma_covering_indices, vertex_indices};
use crate::strong_components::{has_arc, is_arc_path, reaches};

verus! {

/// No arc of `g` leads from a vertex to itself.
pub open spec fn has_no_self_arcs(g: PenaltyGraph) -> bool {
    forall|v: int, e: int|
        0 <= v < g.vertices@.len() && 0 <= e < g.vertices@[v].InNeighbours@.len()
            ==> #[trigger] g.vertices@[v].InNeighbours@[e].0 != v
}

/// Drawing loose position `y` left of `x` costs more than the other way round.
pub open spec fn beats(m: COOInterconnectionMatrix, x: int, y: int) -> bool {
    m.cross(m.loose@[x].1, m.loose@[y].1) > m.cross(m.loose@[y].1, m.loose@[x].1)
}

proof fn lemma_penalty_in_upto(m: COOInterconnectionMatrix, x: int, p: int)
    requires
        0 <= p <= m.loose@.len(),
        m.loose@.len() <= usize::MAX,
    ensures
        penalty_in_upto(m, x, p).len() <= p,
        forall|e: int|
            0 <= e < penalty_in_upto(m, x, p).len() ==> (#[trigger] penalty_in_upto(m, x, p)[e]).0 < p
                && beats(m, x, penalty_in_upto(m, x, p)[e].0 as int),
        forall|y: int|
            0 <= y < p && #[trigger] beats(m, x, y) ==> exists|e: int|
                0 <= e < penalty_in_upto(m, x, p).len() && (#[trigger] penalty_in_upto(m, x, p)[e]).0
                    == y as usize,
    decreases p,
{
    if p > 0 {
        lemma_penalty_in_upto(m, x, p - 1);
        let rest = penalty_in_upto(m, x, p - 1);
        let s = penalty_in_upto(m, x, p);
        if beats(m, x, p - 1) {
            assert(s == rest.push(((p - 1) as usize, (m.cross(m.loose@[x].1, m.loose@[p - 1].1) - m.cross(
                m.loose@[p - 1].1,
                m.loose@[x].1,
            )) as u32)));
            assert forall|y: int| 0 <= y < p && #[trigger] beats(m, x, y) implies exists|e: int|
                0 <= e < s.len() && (#[trigger] s[e]).0 == y as usize by {
                if y == p - 1 {
                    assert(s[rest.len() as int].0 == y as usize);
                } else {
                    let e = choose|e: int| 0 <= e < rest.len() && (#[trigger] rest[e]).0 == y as usize;
                    assert(s[e] == rest[e]);
                }
            }
            assert forall|e: int| 0 <= e < s.len() implies (#[trigger] s[e]).0 < p && beats(
                m,
                x,
                s[e].0 as int,
            ) by {
                if e < rest.len() {
                    assert(s[e] == rest[e]);
                }
            }
        } else {
            assert(s == rest);
        }
    }
}

proof fn lemma_penalty_out_upto(m: COOInterconnectionMatrix, x: int, p: int)
    requires
        0 <= p <= m.loose@.len(),
        m.loose@.len() <= usize::MAX,
    ensures
        penalty_out_upto(m, x, p).len() <= p,
        forall|e: int|
            0 <= e < penalty_out_upto(m, x, p).len() ==> (#[trigger] penalty_out_upto(m, x, p)[e]).0 < p
                && beats(m, penalty_out_upto(m, x, p)[e].0 as int, x),
        forall|y: int|
            0 <= y < p && #[trigger] beats(m, y, x) ==> exists|e: int|
                0 <= e < penalty_out_upto(m, x, p).len() && (#[trigger] penalty_out_upto(m, x, p)[e]).0
                    == y as usize,
    decreases p,
{
    if p > 0 {
        lemma_penalty_out_upto(m, x, p - 1);
        let rest = penalty_out_upto(m, x, p - 1);
        let s = penalty_out_upto(m, x, p);
        if beats(m, p - 1, x) {
            assert(s == rest.push(((p - 1) as usize, (m.cross(m.loose@[p - 1].1, m.loose@[x].1) - m.cross(
                m.loose@[x].1,
                m.loose@[p - 1].1,
            )) as u32)));
            assert forall|y: int| 0 <= y < p && #[trigger] beats(m, y, x) implies exists|e: int|
                0 <= e < s.len() && (#[trigger] s[e]).0 == y as usize by {
                if y == p - 1 {
                    assert(s[rest.len() as int].0 == y as usize);
                } else {
                    let e = choose|e: int| 0 <= e < rest.len() && (#[trigger] rest[e]).0 == y as usize;
                    assert(s[e] == rest[e]);
                }
            }
            assert forall|e: int| 0 <= e < s.len() implies (#[trigger] s[e]).0 < p && beats(
                m,
                s[e].0 as int,
                x,
            ) by {
                if e < rest.len() {
                    assert(s[e] == rest[e]);
                }
            }
        } else {
            assert(s == rest);
        }
    }
}

/// The penalty graph of a loose order has its arcs in range, listed at both
/// ends, no arc from a vertex to itself, and at most `n` arcs at each end of
/// a vertex.
pub proof fn lemma_penalty_graph_shape(g: PenaltyGraph, m: COOInterconnectionMatrix)
    requires
        is_penalty_graph_of(g, m),
        m.loose@.len() <= usize::MAX,
    ensures
        g.arcs_in_range(),
        g.mirrored(),
        has_no_self_arcs(g),
        forall|v: int|
            0 <= v < g.vertices@.len() ==> (#[trigger] g.vertices@[v]).InNeighbours@.len() <= g.vertices@.len()
                && g.vertices@[v].OutNeighbours@.len() <= g.vertices@.len(),
{
    let n = m.loose@.len() as int;
    assert forall|v: int| 0 <= v < n implies {
        &&& (#[trigger] g.vertices@[v]).InNeighbours@.len() <= n
        &&& g.vertices@[v].OutNeighbours@.len() <= n
        &&& forall|e: int|
            0 <= e < g.vertices@[v].InNeighbours@.len() ==> (#[trigger] g.vertices@[v].InNeighbours@[e]).0
                < n && beats(m, v, g.vertices@[v].InNeighbours@[e].0 as int)
        &&& forall|f: int|
            0 <= f < g.vertices@[v].OutNeighbours@.len() ==> (#[trigger] g.vertices@[v].OutNeighbours@[f]).0
                < n && beats(m, g.vertices@[v].OutNeighbours@[f].0 as int, v)
    } by {
        lemma_penalty_in_upto(m, v, n);
        lemma_penalty_out_upto(m, v, n);
    }
    assert(g.arcs_in_range());
    assert forall|v: int, e: int|
        0 <= v < g.vertices@.len() && 0 <= e < g.vertices@[v].InNeighbours@.len() implies #[trigger] g.vertices@[v].InNeighbours@[e].0
        != v by {
        assert(beats(m, v, g.vertices@[v].InNeighbours@[e].0 as int));
    }
    assert forall|v: int, e: int|
        0 <= v < n && 0 <= e < g.vertices@[v].InNeighbours@.len() implies {
        let u = #[trigger] g.vertices@[v].InNeighbours@[e].0;
        exists|f: int|
            0 <= f < g.vertices@[u as int].OutNeighbours@.len() && #[trigger] g.vertices@[u as int].OutNeighbours@[f].0
                == v
    } by {
        let u = g.vertices@[v].InNeighbours@[e].0 as int;
        assert(beats(m, v, u));
        lemma_penalty_out_upto(m, u, n);
        assert(g.vertices@[u].OutNeighbours@ == penalty_out_upto(m, u, n));
        let f = choose|f: int|
            0 <= f < penalty_out_upto(m, u, n).len() && (#[trigger] penalty_out_upto(m, u, n)[f]).0 == v as usize;
        assert(g.vertices@[u].OutNeighbours@[f].0 == v);
    }
    assert forall|u: int, f: int|
        0 <= u < n && 0 <= f < g.vertices@[u].OutNeighbours@.len() implies {
        let v = #[trigger] g.vertices@[u].OutNeighbours@[f].0;
        exists|e: int|
            0 <= e < g.vertices@[v as int].InNeighbours@.len() && #[trigger] g.vertices@[v as int].InNeighbours@[e].0
                == u
    } by {
        let v = g.vertices@[u].OutNeighbours@[f].0 as int;
        assert(beats(m, v, u));
        lemma_penalty_in_upto(m, v, n);
        assert(g.vertices@[v].InNeighbours@ == penalty_in_upto(m, v, n));
        let e = choose|e: int|
            0 <= e < penalty_in_upto(m, v, n).len() && (#[trigger] penalty_in_upto(m, v, n)[e]).0 == u as usize;
        assert(g.vertices@[v].InNeighbours@[e].0 == u);
    }
}

/// Component `t` is that of the other end of an arc of `arcs`, and not `skip`.
pub open spec fn kept_from(arcs: Seq<(usize, u32)>, comps: Seq<Seq<usize>>, skip: int, t: usize) -> bool {
    exists|i: int| 0 <= i < arcs.len() && comp_index(comps, arcs[i].0) != skip && t == comp_index(comps, arcs[i].0) as usize
}

/// Arcs redirected to components and kept once per component: every kept
/// arc comes from an arc to a component other than `skip`, every such
/// component is kept, and no component is kept twice.
proof fn lemma_dedup_arcs(arcs: Seq<(usize, u32)>, comps: Seq<Seq<usize>>, skip: int)
    ensures
        forall|j: int|
            0 <= j < dedup_arcs(arcs, comps, skip).len() ==> kept_from(
                arcs,
                comps,
                skip,
                (#[trigger] dedup_arcs(arcs, comps, skip)[j]).0,
            ),
        forall|i: int|
            0 <= i < arcs.len() && comp_index(comps, (#[trigger] arcs[i]).0) != skip ==> exists|j: int|
                0 <= j < dedup_arcs(arcs, comps, skip).len() && (#[trigger] dedup_arcs(arcs, comps, skip)[j]).0
                    == comp_index(comps, arcs[i].0) as usize,
        forall|j1: int, j2: int|
            0 <= j1 < j2 < dedup_arcs(arcs, comps, skip).len() ==> (#[trigger] dedup_arcs(arcs, comps, skip)[j1]).0
                != (#[trigger] dedup_arcs(arcs, comps, skip)[j2]).0,
    decreases arcs.len(),
{
    if arcs.len() > 0 {
        let a = arcs.drop_last();
        lemma_dedup_arcs(a, comps, skip);
        let r = dedup_arcs(a, comps, skip);
        let d = dedup_arcs(arcs, comps, skip);
        let last = arcs.last();
        let t = comp_index(comps, last.0);
        let heads = r.map_values(|x: (usize, u32)| x.0);
        assert forall|j: int| 0 <= j < r.len() implies #[trigger] heads[j] == r[j].0 by {}
        assert forall|i: int| 0 <= i < a.len() implies #[trigger] a[i] == arcs[i] by {}
        if t == skip || heads.contains(t as usize) {
            assert(d == r);
            assert forall|i: int|
                0 <= i < arcs.len() && comp_index(comps, (#[trigger] arcs[i]).0) != skip implies exists|j: int|
                    0 <= j < d.len() && (#[trigger] d[j]).0 == comp_index(comps, arcs[i].0) as usize by {
                if i == arcs.len() - 1 {
                    let j = choose|j: int| 0 <= j < heads.len() && heads[j] == t as usize;
                    assert(d[j].0 == t as usize);
                } else {
                    assert(a[i] == arcs[i]);
                }
            }
            assert forall|j: int| 0 <= j < d.len() implies kept_from(arcs, comps, skip, (#[trigger] d[j]).0) by {
                assert(kept_from(a, comps, skip, r[j].0));
                let i = choose|i: int|
                    0 <= i < a.len() && comp_index(comps, a[i].0) != skip && r[j].0 == comp_index(comps, a[i].0) as usize;
                assert(arcs[i] == a[i]);
            }
        } else {
            assert(d == r.push((t as usize, last.1)));
            assert forall|j: int| 0 <= j < r.len() implies r[j].0 != t as usize by {
                assert(heads[j] == r[j].0);
            }
            assert forall|i: int|
                0 <= i < arcs.len() && comp_index(comps, (#[trigger] arcs[i]).0) != skip implies exists|j: int|
                    0 <= j < d.len() && (#[trigger] d[j]).0 == comp_index(comps, arcs[i].0) as usize by {
                if i == arcs.len() - 1 {
                    assert(d[r.len() as int].0 == t as usize);
                } else {
                    assert(a[i] == arcs[i]);
                    let j = choose|j: int|
                        0 <= j < r.len() && (#[trigger] r[j]).0 == comp_index(comps, a[i].0) as usize;
                    assert(d[j] == r[j]);
                }
            }
            assert forall|j: int| 0 <= j < d.len() implies kept_from(arcs, comps, skip, (#[trigger] d[j]).0) by {
                if j == r.len() {
                    assert(arcs[arcs.len() - 1] == last);
                } else {
                    assert(d[j] == r[j]);
                    assert(kept_from(a, comps, skip, r[j].0));
                    let i = choose|i: int|
                        0 <= i < a.len() && comp_index(comps, a[i].0) != skip && r[j].0 == comp_index(comps, a[i].0) as usize;
                    assert(arcs[i] == a[i]);
                }
            }
            assert forall|j1: int, j2: int| 0 <= j1 < j2 < d.len() implies (#[trigger] d[j1]).0
                != (#[trigger] d[j2]).0 by {
                assert(d[j1] == r[j1]);
                if j2 < r.len() {
                    assert(d[j2] == r[j2]);
                }
            }
        }
    }
}

/// `x` is an entry of one of the lists.
pub open spec fn in_some_entry<A>(ss: Seq<Seq<A>>, x: A) -> bool {
    exists|k: int, e: int| 0 <= k < ss.len() && 0 <= e < ss[k].len() && ss[k][e] == x
}

/// Every entry of the laid-out lists is an entry of one of the lists, and
/// every entry of a list is an entry of the laid-out lists.
pub proof fn lemma_concat_all_member<A>(ss: Seq<Seq<A>>)
    ensures
        forall|i: int| 0 <= i < concat_all(ss).len() ==> in_some_entry(ss, #[trigger] concat_all(ss)[i]),
        forall|k: int, e: int|
            0 <= k < ss.len() && 0 <= e < ss[k].len() ==> concat_all(ss).contains(#[trigger] ss[k][e]),
    decreases ss.len(),
{
    if ss.len() > 0 {
        let t = ss.drop_last();
        lemma_concat_all_member(t);
        let ct = concat_all(t);
        let l = ss.last();
        assert(concat_all(ss) == ct + l);
        assert forall|i: int| 0 <= i < concat_all(ss).len() implies in_some_entry(ss, #[trigger] concat_all(ss)[i]) by {
            if i < ct.len() {
                assert(in_some_entry(t, ct[i]));
                let (k, e) = choose|k: int, e: int| 0 <= k < t.len() && 0 <= e < t[k].len() && t[k][e] == ct[i];
                assert(ss[k] == t[k]);
                assert(concat_all(ss)[i] == ss[k][e]);
            } else {
                assert(concat_all(ss)[i] == ss[ss.len() - 1][i - ct.len()]);
            }
        }
        assert forall|k: int, e: int| 0 <= k < ss.len() && 0 <= e < ss[k].len() implies concat_all(ss).contains(
            #[trigger] ss[k][e],
        ) by {
            if k < t.len() {
                assert(ss[k] == t[k]);
                assert(ct.contains(t[k][e]));
                let i = choose|i: int| 0 <= i < ct.len() && ct[i] == t[k][e];
                assert(concat_all(ss)[i] == ct[i]);
            } else {
                assert(concat_all(ss)[ct.len() + e] == l[e]);
            }
        }
    } else {
        assert(concat_all(ss).len() == 0);
    }
}

/// A vertex lies in the component found by `comp_index`, at the position
/// found by `pos_in`.
pub proof fn lemma_comp_index_valid(g: PenaltyGraph, comps: Seq<Seq<usize>>, v: usize)
    requires
        g.is_vertex_partition(comps),
        v < g.vertices@.len(),
    ensures
        0 <= comp_index(comps, v) < comps.len(),
        comps[comp_index(comps, v)].contains(v),
        0 <= pos_in(comps[comp_index(comps, v)], v) < comps[comp_index(comps, v)].len(),
        comps[comp_index(comps, v)][pos_in(comps[comp_index(comps, v)], v)] == v,
{
    assert(in_some_list(comps, v));
    let c = comp_index(comps, v);
    assert(comps[c].contains(v));
    let k = choose|k: int| 0 <= k < comps[c].len() && comps[c][k] == v;
    assert(comps[c][k] == v);
}

/// `cg` condenses `g` by the components `comps`, which split the vertices of
/// `g` so that its arcs never go from a later component to an earlier one;
/// `g` lists its arcs at both ends and has none from a vertex to itself.
#[verifier::opaque]
pub open spec fn condenses(g: PenaltyGraph, cg: PenaltyGraph, comps: Seq<Seq<usize>>) -> bool {
    &&& g.arcs_in_range()
    &&& g.mirrored()
    &&& has_no_self_arcs(g)
    &&& g.is_vertex_partition(comps)
    &&& g.arcs_go_forward(comps)
    &&& g.is_condensation(cg, comps)
    &&& cg.vertices@.len() <= usize::MAX
}

/// The skipped component of component `c`: itself when it was condensed.
spec fn skip_of(comps: Seq<Seq<usize>>, c: int) -> int {
    if comps[c].len() == 1 {
        -1
    } else {
        c
    }
}

proof fn fact_lists(g: PenaltyGraph, cg: PenaltyGraph, comps: Seq<Seq<usize>>, c: int)
    requires
        condenses(g, cg, comps),
        0 <= c < comps.len(),
    ensures
        cg.vertices@.len() == comps.len(),
        cg.vertices@[c].InNeighbours@ == dedup_arcs(concat_all(g.member_in_arcs(comps[c])), comps, skip_of(comps, c)),
        cg.vertices@[c].OutNeighbours@ == dedup_arcs(
            concat_all(g.member_out_arcs(comps[c])),
            comps,
            skip_of(comps, c),
        ),
        comps[c].len() > 0,
        forall|k: int| 0 <= k < comps[c].len() ==> #[trigger] comps[c][k] < g.vertices@.len(),
{
    reveal(condenses);
    assert(comps[c].len() > 0);
}

proof fn fact_partition(g: PenaltyGraph, cg: PenaltyGraph, comps: Seq<Seq<usize>>)
    requires
        condenses(g, cg, comps),
    ensures
        g.is_vertex_partition(comps),
        cg.vertices@.len() == comps.len(),
        cg.vertices@.len() <= usize::MAX,
{
    reveal(condenses);
}

proof fn fact_forward(g: PenaltyGraph, cg: PenaltyGraph, comps: Seq<Seq<usize>>, c: int, k: int, e: int, t: int)
    requires
        condenses(g, cg, comps),
        0 <= c < comps.len(),
        0 <= k < comps[c].len(),
        0 <= e < g.vertices@[comps[c][k] as int].InNeighbours@.len(),
        0 <= t < comps.len(),
        comps[t].contains(g.vertices@[comps[c][k] as int].InNeighbours@[e].0),
    ensures
        t <= c,
{
    reveal(condenses);
}

proof fn fact_in_arc(g: PenaltyGraph, cg: PenaltyGraph, comps: Seq<Seq<usize>>, u: int, e: int)
    requires
        condenses(g, cg, comps),
        0 <= u < g.vertices@.len(),
        0 <= e < g.vertices@[u].InNeighbours@.len(),
    ensures
        g.vertices@[u].InNeighbours@[e].0 < g.vertices@.len(),
        g.vertices@[u].InNeighbours@[e].0 != u,
        exists|f: int|
            0 <= f < g.vertices@[g.vertices@[u].InNeighbours@[e].0 as int].OutNeighbours@.len()
                && g.vertices@[g.vertices@[u].InNeighbours@[e].0 as int].OutNeighbours@[f].0 == u,
{
    reveal(condenses);
    let s = g.vertices@[u].InNeighbours@[e].0;
    let f = choose|f: int|
        0 <= f < g.vertices@[s as int].OutNeighbours@.len() && #[trigger] g.vertices@[s as int].OutNeighbours@[f].0 == u;
}

proof fn fact_out_arc(g: PenaltyGraph, cg: PenaltyGraph, comps: Seq<Seq<usize>>, s: int, f: int)
    requires
        condenses(g, cg, comps),
        0 <= s < g.vertices@.len(),
        0 <= f < g.vertices@[s].OutNeighbours@.len(),
    ensures
        g.vertices@[s].OutNeighbours@[f].0 < g.vertices@.len(),
        g.vertices@[s].OutNeighbours@[f].0 != s,
        exists|e: int|
            0 <= e < g.vertices@[g.vertices@[s].OutNeighbours@[f].0 as int].InNeighbours@.len()
                && g.vertices@[g.vertices@[s].OutNeighbours@[f].0 as int].InNeighbours@[e].0 == s,
{
    reveal(condenses);
    let u = g.vertices@[s].OutNeighbours@[f].0;
    let e = choose|e: int|
        0 <= e < g.vertices@[u as int].InNeighbours@.len() && #[trigger] g.vertices@[u as int].InNeighbours@[e].0 == s;
    assert(g.vertices@[u as int].InNeighbours@[e].0 != u);
}

/// An arc entering component `c` of the condensed graph comes from a
/// smaller component, which lists `c` among its targets.
proof fn lemma_cond_in_arc(g: PenaltyGraph, cg: PenaltyGraph, comps: Seq<Seq<usize>>, c: int, j: int)
    requires
        condenses(g, cg, comps),
        0 <= c < comps.len(),
        0 <= j < cg.vertices@[c].InNeighbours@.len(),
    ensures
        0 <= cg.vertices@[c].InNeighbours@[j].0 < c,
        exists|f: int|
            0 <= f < cg.vertices@[cg.vertices@[c].InNeighbours@[j].0 as int].OutNeighbours@.len()
                && cg.vertices@[cg.vertices@[c].InNeighbours@[j].0 as int].OutNeighbours@[f].0 == c as usize,
{
    let comp = comps[c];
    let ins = concat_all(g.member_in_arcs(comp));
    let skip = skip_of(comps, c);
    fact_lists(g, cg, comps, c);
    fact_partition(g, cg, comps);
    lemma_dedup_arcs(ins, comps, skip);
    let d = dedup_arcs(ins, comps, skip);
    assert(kept_from(ins, comps, skip, d[j].0));
    let i = choose|i: int|
        0 <= i < ins.len() && comp_index(comps, ins[i].0) != skip && d[j].0 == comp_index(comps, ins[i].0) as usize;
    lemma_concat_all_member(g.member_in_arcs(comp));
    assert(in_some_entry(g.member_in_arcs(comp), ins[i]));
    let (k, e) = choose|k: int, e: int|
        0 <= k < g.member_in_arcs(comp).len() && 0 <= e < g.member_in_arcs(comp)[k].len()
            && g.member_in_arcs(comp)[k][e] == ins[i];
    let u = comp[k];
    assert(u < g.vertices@.len());
    assert(g.member_in_arcs(comp)[k] == g.vertices@[u as int].InNeighbours@);
    let s = ins[i].0;
    assert(s == g.vertices@[u as int].InNeighbours@[e].0);
    fact_in_arc(g, cg, comps, u as int, e);
    lemma_comp_index_valid(g, comps, s);
    let t = comp_index(comps, s);
    fact_forward(g, cg, comps, c, k, e, t);
    if t == c {
        assert(comps[c].len() == 1);
        let k2 = choose|k2: int| 0 <= k2 < comps[c].len() && comps[c][k2] == s;
        assert(k2 == 0 && k == 0);
    }
    assert(d[j].0 == t as usize);
    // the matching arc out of the component of `s`
    let f0 = choose|f: int|
        0 <= f < g.vertices@[s as int].OutNeighbours@.len() && g.vertices@[s as int].OutNeighbours@[f].0 == u;
    let kp = pos_in(comps[t], s);
    let outs = concat_all(g.member_out_arcs(comps[t]));
    lemma_concat_all_member(g.member_out_arcs(comps[t]));
    assert(g.member_out_arcs(comps[t])[kp] == g.vertices@[s as int].OutNeighbours@);
    assert(outs.contains(g.member_out_arcs(comps[t])[kp][f0]));
    let i2 = choose|i2: int| 0 <= i2 < outs.len() && outs[i2] == g.member_out_arcs(comps[t])[kp][f0];
    crate::pengraph::lemma_partition_index(&g, comps, c, k);
    assert(comp_index(comps, outs[i2].0) == c);
    let skip_t = skip_of(comps, t);
    fact_lists(g, cg, comps, t);
    lemma_dedup_arcs(outs, comps, skip_t);
    assert(comp_index(comps, (outs[i2]).0) != skip_t);
    let j2 = choose|j2: int|
        0 <= j2 < dedup_arcs(outs, comps, skip_t).len() && (#[trigger] dedup_arcs(outs, comps, skip_t)[j2]).0
            == comp_index(comps, outs[i2].0) as usize;
    assert(cg.vertices@[t].OutNeighbours@[j2].0 == c as usize);
}

/// An arc leaving component `t` of the condensed graph enters a component
/// that lists `t` among its sources.
proof fn lemma_cond_out_arc(g: PenaltyGraph, cg: PenaltyGraph, comps: Seq<Seq<usize>>, t: int, f: int)
    requires
        condenses(g, cg, comps),
        0 <= t < comps.len(),
        0 <= f < cg.vertices@[t].OutNeighbours@.len(),
    ensures
        0 <= cg.vertices@[t].OutNeighbours@[f].0 < comps.len(),
        exists|e: int|
            0 <= e < cg.vertices@[cg.vertices@[t].OutNeighbours@[f].0 as int].InNeighbours@.len()
                && cg.vertices@[cg.vertices@[t].OutNeighbours@[f].0 as int].InNeighbours@[e].0 == t as usize,
{
    let comp = comps[t];
    let outs = concat_all(g.member_out_arcs(comp));
    let skip = skip_of(comps, t);
    fact_lists(g, cg, comps, t);
    fact_partition(g, cg, comps);
    lemma_dedup_arcs(outs, comps, skip);
    let d = dedup_arcs(outs, comps, skip);
    assert(kept_from(outs, comps, skip, d[f].0));
    let i = choose|i: int|
        0 <= i < outs.len() && comp_index(comps, outs[i].0) != skip && d[f].0 == comp_index(comps, outs[i].0) as usize;
    lemma_concat_all_member(g.member_out_arcs(comp));
    assert(in_some_entry(g.member_out_arcs(comp), outs[i]));
    let (k, e) = choose|k: int, e: int|
        0 <= k < g.member_out_arcs(comp).len() && 0 <= e < g.member_out_arcs(comp)[k].len()
            && g.member_out_arcs(comp)[k][e] == outs[i];
    let s = comp[k];
    assert(s < g.vertices@.len());
    assert(g.member_out_arcs(comp)[k] == g.vertices@[s as int].OutNeighbours@);
    let u = outs[i].0;
    assert(u == g.vertices@[s as int].OutNeighbours@[e].0);
    fact_out_arc(g, cg, comps, s as int, e);
    lemma_comp_index_valid(g, comps, u);
    let c = comp_index(comps, u);
    assert(d[f].0 == c as usize);
    crate::pengraph::lemma_partition_index(&g, comps, t, k);
    // the arc is listed among the incoming arcs of `u`
    let e0 = choose|e0: int|
        0 <= e0 < g.vertices@[u as int].InNeighbours@.len() && g.vertices@[u as int].InNeighbours@[e0].0 == s;
    if c == t {
        if comps[t].len() == 1 {
            let k2 = choose|k2: int| 0 <= k2 < comps[t].len() && comps[t][k2] == u;
            assert(k2 == 0 && k == 0);
        }
    }
    assert(c != t);
    let kp = pos_in(comps[c], u);
    let ins = concat_all(g.member_in_arcs(comps[c]));
    lemma_concat_all_member(g.member_in_arcs(comps[c]));
    assert(g.member_in_arcs(comps[c])[kp] == g.vertices@[u as int].InNeighbours@);
    assert(ins.contains(g.member_in_arcs(comps[c])[kp][e0]));
    let i2 = choose|i2: int| 0 <= i2 < ins.len() && ins[i2] == g.member_in_arcs(comps[c])[kp][e0];
    assert(comp_index(comps, ins[i2].0) == t);
    let skip_c = skip_of(comps, c);
    fact_lists(g, cg, comps, c);
    lemma_dedup_arcs(ins, comps, skip_c);
    let j2 = choose|j2: int|
        0 <= j2 < dedup_arcs(ins, comps, skip_c).len() && (#[trigger] dedup_arcs(ins, comps, skip_c)[j2]).0
            == comp_index(comps, ins[i2].0) as usize;
    assert(cg.vertices@[c].InNeighbours@[j2].0 == t as usize);
}

/// The condensed penalty graph has its arcs in range and listed at both
/// ends, leads each vertex to distinct targets, and every arc goes from a
/// smaller to a larger component number: it is acyclic.
pub proof fn lemma_condensation_shape(g: PenaltyGraph, cg: PenaltyGraph, comps: Seq<Seq<usize>>)
    requires
        condenses(g, cg, comps),
    ensures
        cg.arcs_in_range(),
        cg.mirrored(),
        cg.out_targets_distinct(),
        cg.numbered_topologically(),
{
    fact_partition(g, cg, comps);
    let n = cg.vertices@.len();
    assert forall|v: int, k: int| 0 <= v < n && 0 <= k < cg.vertices@[v].InNeighbours@.len() implies #[trigger] cg.vertices@[v].InNeighbours@[k].0
        < v by {
        lemma_cond_in_arc(g, cg, comps, v, k);
    }
    assert forall|v: int, k: int| 0 <= v < n && 0 <= k < cg.vertices@[v].OutNeighbours@.len() implies #[trigger] cg.vertices@[v].OutNeighbours@[k].0
        < n by {
        lemma_cond_out_arc(g, cg, comps, v, k);
    }
    assert forall|v: int, e: int| 0 <= v < n && 0 <= e < cg.vertices@[v].InNeighbours@.len() implies {
        let u = #[trigger] cg.vertices@[v].InNeighbours@[e].0;
        exists|f: int|
            0 <= f < cg.vertices@[u as int].OutNeighbours@.len() && #[trigger] cg.vertices@[u as int].OutNeighbours@[f].0
                == v
    } by {
        lemma_cond_in_arc(g, cg, comps, v, e);
    }
    assert forall|u: int, f: int| 0 <= u < n && 0 <= f < cg.vertices@[u].OutNeighbours@.len() implies {
        let v = #[trigger] cg.vertices@[u].OutNeighbours@[f].0;
        exists|e: int|
            0 <= e < cg.vertices@[v as int].InNeighbours@.len() && #[trigger] cg.vertices@[v as int].InNeighbours@[e].0
                == u
    } by {
        lemma_cond_out_arc(g, cg, comps, u, f);
    }
    assert forall|u: int, f1: int, f2: int|
        0 <= u < n && 0 <= f1 < f2 < cg.vertices@[u].OutNeighbours@.len() implies #[trigger] cg.vertices@[u].OutNeighbours@[f1].0
        != #[trigger] cg.vertices@[u].OutNeighbours@[f2].0 by {
        let outs = concat_all(g.member_out_arcs(comps[u]));
        fact_lists(g, cg, comps, u);
        lemma_dedup_arcs(outs, comps, skip_of(comps, u));
    }
}

/// A vertex kept by a filter of the vertex numbers is a vertex number that
/// passes the filter.
proof fn lemma_index_filter_member(n: int, p: spec_fn(usize) -> bool, k: int)
    requires
        0 <= n <= usize::MAX,
        0 <= k < vertex_indices(n).filter(p).len(),
    ensures
        vertex_indices(n).filter(p)[k] < n,
        p(vertex_indices(n).filter(p)[k]),
{
    broadcast use vstd::seq_lib::group_filter_ensures;

    let x = vertex_indices(n).filter(p)[k];
    assert(vertex_indices(n).filter(p).contains(x));
    vertex_indices(n).lemma_filter_contains_rev(p, x);
}

/// A vertex number that passes a filter is kept by it.
proof fn lemma_index_filter_keeps(n: int, p: spec_fn(usize) -> bool, v: int)
    requires
        0 <= v < n <= usize::MAX,
        p(v as usize),
    ensures
        vertex_indices(n).filter(p).contains(v as usize),
{
    broadcast use vstd::seq_lib::group_filter_ensures;

    assert(vertex_indices(n)[v] == v as usize);
    vertex_indices(n).lemma_filter_contains(p, v);
}

/// The Eades order lists every vertex exactly once.
pub proof fn lemma_eades_order_lists_all(g: PenaltyGraph, heur: VertexArcBaseHeuristic, order: Seq<usize>)
    requires
        g.is_eades_order(heur, order),
        g.vertices@.len() <= usize::MAX,
    ensures
        forall|i: int| 0 <= i < order.len() ==> #[trigger] order[i] < g.vertices@.len(),
        forall|i: int, j: int| 0 <= i < j < order.len() ==> order[i] != order[j],
        forall|v: int| 0 <= v < g.vertices@.len() ==> #[trigger] order.contains(v as usize),
        order.to_multiset() == vertex_indices(g.vertices@.len() as int).to_multiset(),
{
    let n = g.vertices@.len() as int;
    let idx = vertex_indices(n);
    let ph = |i: usize| g.vertices@[i as int].InNeighbours@.len() == 0;
    let pt = |i: usize| g.vertices@[i as int].InNeighbours@.len() > 0 && g.vertices@[i as int].OutNeighbours@.len() == 0;
    let pm = |i: usize| g.vertices@[i as int].InNeighbours@.len() > 0 && g.vertices@[i as int].OutNeighbours@.len() > 0;
    let h = g.head_vertices();
    let m = g.middle_vertices();
    let t = g.tail_vertices();
    assert(h == idx.filter(ph));
    assert(m == idx.filter(pm));
    assert(t == idx.filter(pt));
    let hl = h.len() as int;
    let ml = m.len() as int;
    let mid = order.subrange(hl, hl + ml);
    assert forall|a: int, b: int| 0 <= a < b < idx.len() implies idx[a] < idx[b] by {}
    lemma_filter_indices_distinct(idx, ph);
    lemma_filter_indices_distinct(idx, pt);
    assert forall|k: int| 0 <= k < hl implies order[k] == h[k] && #[trigger] order[k] < n && ph(order[k]) by {
        assert(order.subrange(0, hl)[k] == order[k]);
        lemma_index_filter_member(n, ph, k);
    }
    assert forall|k: int| hl + ml <= k < order.len() implies order[k] == t[k - hl - ml] && #[trigger] order[k] < n
        && pt(order[k]) by {
        assert(order.subrange(hl + ml, order.len() as int)[k - hl - ml] == order[k]);
        lemma_index_filter_member(n, pt, k - hl - ml);
    }
    assert forall|k: int| hl <= k < hl + ml implies #[trigger] order[k] < n && pm(order[k]) by {
        assert(mid[k - hl] == order[k]);
        assert(mid.contains(order[k]));
        assert(m.contains(order[k]));
        let q = choose|q: int| 0 <= q < m.len() && m[q] == order[k];
        lemma_index_filter_member(n, pm, q);
    }
    assert forall|i: int| 0 <= i < order.len() implies #[trigger] order[i] < n by {
        if i < hl {
        } else if i < hl + ml {
        } else {
        }
    }
    assert forall|i: int, j: int| 0 <= i < j < order.len() implies order[i] != order[j] by {
        if i < hl && j < hl {
            assert(h[i] < h[j]);
        } else if hl + ml <= i && hl + ml <= j {
            assert(t[i - hl - ml] < t[j - hl - ml]);
        } else if hl <= i < hl + ml && hl <= j < hl + ml {
            assert(mid[i - hl] == order[i]);
            assert(mid[j - hl] == order[j]);
        } else if i < hl {
            assert(ph(order[i]));
            if j < hl + ml {
                assert(pm(order[j]));
            } else {
                assert(pt(order[j]));
            }
        } else {
            assert(pm(order[i]));
            assert(pt(order[j]));
        }
    }
    assert forall|v: int| 0 <= v < n implies #[trigger] order.contains(v as usize) by {
        let x = v as usize;
        if ph(x) {
            lemma_index_filter_keeps(n, ph, v);
            let k = choose|k: int| 0 <= k < h.len() && h[k] == x;
            assert(order[k] == h[k]);
        } else if pt(x) {
            lemma_index_filter_keeps(n, pt, v);
            let k = choose|k: int| 0 <= k < t.len() && t[k] == x;
            assert(order[hl + ml + k] == t[k]);
        } else {
            assert(pm(x));
            lemma_index_filter_keeps(n, pm, v);
            assert(m.contains(x));
            assert(mid.contains(x));
            let k = choose|k: int| 0 <= k < mid.len() && mid[k] == x;
            assert(order[hl + k] == mid[k]);
        }
    }
    lemma_covering_indices(order, n);
}

/// When drawing loose position `v` left of `u` costs fewer crossings, the
/// penalty graph has an arc from `v` into `u`.
pub proof fn lemma_penalty_arc(g: PenaltyGraph, m: COOInterconnectionMatrix, u: int, v: int)
    requires
        is_penalty_graph_of(g, m),
        m.loose@.len() <= usize::MAX,
        0 <= u < m.loose@.len(),
        0 <= v < m.loose@.len(),
        beats(m, u, v),
    ensures
        exists|e: int|
            0 <= e < g.vertices@[u].InNeighbours@.len() && g.vertices@[u].InNeighbours@[e].0 == v as usize,
{
    let n = m.loose@.len() as int;
    lemma_penalty_in_upto(m, u, n);
    assert(g.vertices@[u].InNeighbours@ == penalty_in_upto(m, u, n));
    let e = choose|e: int|
        0 <= e < penalty_in_upto(m, u, n).len() && (#[trigger] penalty_in_upto(m, u, n)[e]).0 == v as usize;
    assert(g.vertices@[u].InNeighbours@[e].0 == v as usize);
}

/// An arc of the condensed graph leads into the component of `u` from the
/// component of every source of an arc into `u` that lies in another
/// component.
pub proof fn lemma_cond_has_arc(g: PenaltyGraph, cg: PenaltyGraph, comps: Seq<Seq<usize>>, u: usize, e: int)
    requires
        condenses(g, cg, comps),
        u < g.vertices@.len(),
        0 <= e < g.vertices@[u as int].InNeighbours@.len(),
        comp_index(comps, g.vertices@[u as int].InNeighbours@[e].0) != comp_index(comps, u),
    ensures
        exists|j: int|
            0 <= j < cg.vertices@[comp_index(comps, u)].InNeighbours@.len()
                && cg.vertices@[comp_index(comps, u)].InNeighbours@[j].0 == comp_index(
                comps,
                g.vertices@[u as int].InNeighbours@[e].0,
            ) as usize,
{
    fact_partition(g, cg, comps);
    lemma_comp_index_valid(g, comps, u);
    let t = comp_index(comps, u);
    let k = pos_in(comps[t], u);
    fact_lists(g, cg, comps, t);
    let ins = concat_all(g.member_in_arcs(comps[t]));
    lemma_concat_all_member(g.member_in_arcs(comps[t]));
    assert(g.member_in_arcs(comps[t])[k] == g.vertices@[u as int].InNeighbours@);
    assert(ins.contains(g.member_in_arcs(comps[t])[k][e]));
    let i = choose|i: int| 0 <= i < ins.len() && ins[i] == g.member_in_arcs(comps[t])[k][e];
    let skip = skip_of(comps, t);
    fact_in_arc(g, cg, comps, u as int, e);
    lemma_comp_index_valid(g, comps, g.vertices@[u as int].InNeighbours@[e].0);
    lemma_dedup_arcs(ins, comps, skip);
    assert(comp_index(comps, ins[i].0) != skip);
    let j = choose|j: int|
        0 <= j < dedup_arcs(ins, comps, skip).len() && (#[trigger] dedup_arcs(ins, comps, skip)[j]).0
            == comp_index(comps, ins[i].0) as usize;
    assert(cg.vertices@[t].InNeighbours@[j].0 == comp_index(comps, g.vertices@[u as int].InNeighbours@[e].0) as usize);
}

/// Along a path the components never go back.
proof fn lemma_path_forward(g: PenaltyGraph, comps: Seq<Seq<usize>>, path: Seq<usize>)
    requires
        g.is_vertex_partition(comps),
        g.arcs_go_forward(comps),
        is_arc_path(g, path),
    ensures
        comp_index(comps, path[0]) <= comp_index(comps, path[path.len() - 1]),
    decreases path.len(),
{
    if path.len() > 1 {
        let p = path.drop_last();
        assert forall|k: int| 0 <= k < p.len() - 1 implies has_arc(g, #[trigger] p[k], p[k + 1]) by {
            assert(p[k] == path[k]);
            assert(p[k + 1] == path[k + 1]);
        }
        assert forall|k: int| 0 <= k < p.len() implies #[trigger] p[k] < g.vertices@.len() by {
            assert(p[k] == path[k]);
        }
        lemma_path_forward(g, comps, p);
        let l = path.len() - 1;
        let a = path[l - 1];
        let b = path[l];
        assert(a < g.vertices@.len());
        assert(has_arc(g, path[l - 1], path[l - 1 + 1]));
        let e = choose|e: int|
            0 <= e < g.vertices@[b as int].InNeighbours@.len() && #[trigger] g.vertices@[b as int].InNeighbours@[e].0 == a;
        lemma_comp_index_valid(g, comps, a);
        lemma_comp_index_valid(g, comps, b);
        let cb = comp_index(comps, b);
        let kb = pos_in(comps[cb], b);
        assert(comps[comp_index(comps, a)].contains(g.vertices@[comps[cb][kb] as int].InNeighbours@[e].0));
    }
}

/// Vertices that can reach each other along arcs lie in the same component
/// of a split into components that arcs never leave backwards (such as the
/// strongly connected components found by the search).
pub proof fn lemma_mutually_reachable_same_component(
    g: PenaltyGraph,
    comps: Seq<Seq<usize>>,
    there: Seq<usize>,
    back: Seq<usize>,
)
    requires
        g.is_vertex_partition(comps),
        g.arcs_go_forward(comps),
        is_arc_path(g, there),
        is_arc_path(g, back),
        there[there.len() - 1] == back[0],
        back[back.len() - 1] == there[0],
    ensures
        comp_index(comps, there[0]) == comp_index(comps, there[there.len() - 1]),
{
    lemma_path_forward(g, comps, there);
    lemma_path_forward(g, comps, back);
}

/// With components that split the vertices, that arcs never leave
/// backwards, and whose vertices reach each other (as the search finds
/// them), two vertices share a component exactly when they reach each other.
pub proof fn lemma_components_are_reachability_classes(g: PenaltyGraph, comps: Seq<Seq<usize>>, x: usize, y: usize)
    requires
        g.is_vertex_partition(comps),
        g.arcs_go_forward(comps),
        g.strongly_connected_parts(comps),
        x < g.vertices@.len(),
        y < g.vertices@.len(),
    ensures
        comp_index(comps, x) == comp_index(comps, y) <==> (reaches(g, x, y) && reaches(g, y, x)),
{
    lemma_comp_index_valid(g, comps, x);
    lemma_comp_index_valid(g, comps, y);
    let cx = comp_index(comps, x);
    let cy = comp_index(comps, y);
    if cx == cy {
        let kx = pos_in(comps[cx], x);
        let ky = pos_in(comps[cx], y);
        assert(reaches(g, comps[cx][kx], comps[cx][ky]));
        assert(reaches(g, comps[cx][ky], comps[cx][kx]));
    }
    if reaches(g, x, y) && reaches(g, y, x) {
        let there = choose|p: Seq<usize>| is_arc_path(g, p) && p[0] == x && p[p.len() - 1] == y;
        let back = choose|p: Seq<usize>| is_arc_path(g, p) && p[0] == y && p[p.len() - 1] == x;
        lemma_mutually_reachable_same_component(g, comps, there, back);
    }
}

} // verus!
