//! The penalty graph of the loose vertices (Sugiyama et al.): an arc `v -> u`
//! of weight `c(u, v) - c(v, u)` whenever drawing `u` left of `v` costs more
//! crossings than the other way round.
#![allow(non_snake_case)]
use vstd::prelude::*;
use crate::single_float::{baharev_key, baharev_key_spec};
use std::sync::atomic::AtomicBool;
use crate::crossing::crossings;
use crate::interconnection::COOInterconnectionMatrix;
use crate::interrupt::should_terminate;
use crate::permutation::vertex_indices;

verus! {

pub struct PenaltyGraph {
    pub vertices: Vec<PenaltyGraphVertex>,
}

/// Vertex orderings for the feedback arc set heuristics.
#[allow(non_camel_case_types)]
pub enum VertexArcBaseHeuristic {
    Eades,
    EadesForward,
    EadesForward_Weighted,
    EadesBackward,
    EadesBackward_Weighted,
    Baharev,
}

pub struct PenaltyGraphVertex {
    pub Name: i32,
    /// Position of the vertex in the loose order it was built from.
    pub InterconRef: usize,
    /// Arcs leaving the vertex: (target, weight).
    pub OutNeighbours: Vec<(usize, u32)>,
    /// Arcs entering the vertex: (source, weight).
    pub InNeighbours: Vec<(usize, u32)>,
    pub isCondensed: bool,
    /// For a condensed vertex, the strongly connected component it stands for.
    pub CondensedVertices: Option<PenaltyGraph>,
}

/// Sum of the weights of a list of arcs.
pub open spec fn weight_sum(arcs: Seq<(usize, u32)>) -> int
    decreases arcs.len(),
{
    if arcs.len() == 0 {
        0
    } else {
        weight_sum(arcs.drop_last()) + arcs.last().1
    }
}

proof fn lemma_weight_sum_prefix(arcs: Seq<(usize, u32)>, i: int)
    requires
        0 <= i <= arcs.len(),
    ensures
        weight_sum(arcs.take(i)) <= weight_sum(arcs),
        weight_sum(arcs.take(i)) >= 0,
    decreases arcs.len(),
{
    if i == arcs.len() {
        assert(arcs.take(i) =~= arcs);
        if arcs.len() > 0 {
            lemma_weight_sum_prefix(arcs.drop_last(), i - 1);
            assert(arcs.drop_last().take(i - 1) =~= arcs.drop_last());
        }
    } else {
        lemma_weight_sum_prefix(arcs.drop_last(), i);
        assert(arcs.drop_last().take(i) =~= arcs.take(i));
    }
}

fn sum_weights(arcs: &Vec<(usize, u32)>) -> (res: u32)
    requires
        weight_sum(arcs@) <= u32::MAX,
    ensures
        res == weight_sum(arcs@),
{
    let mut count: u32 = 0;
    let mut i: usize = 0;
    while i < arcs.len()
        invariant
            i <= arcs@.len(),
            weight_sum(arcs@) <= u32::MAX,
            count == weight_sum(arcs@.take(i as int)),
        decreases arcs@.len() - i,
    {
        proof {
            assert(arcs@.take(i + 1).drop_last() =~= arcs@.take(i as int));
            lemma_weight_sum_prefix(arcs@, i + 1);
        }
        count += arcs[i].1;
        i += 1;
    }
    proof {
        assert(arcs@.take(i as int) =~= arcs@);
    }
    count
}

impl PenaltyGraphVertex {
    /// Total weight of the arcs leaving the vertex.
    pub fn GetOutWeightSum(&self) -> (res: u32)
        requires
            weight_sum(self.OutNeighbours@) <= u32::MAX,
        ensures
            res == weight_sum(self.OutNeighbours@),
    {
        sum_weights(&self.OutNeighbours)
    }

    /// Total weight of the arcs entering the vertex.
    pub fn GetInWeightSum(&self) -> (res: u32)
        requires
            weight_sum(self.InNeighbours@) <= u32::MAX,
        ensures
            res == weight_sum(self.InNeighbours@),
    {
        sum_weights(&self.InNeighbours)
    }
}

/// Arcs entering loose position `x` from positions `y < p`: one from `y`
/// of weight `c(x, y) - c(y, x)` whenever `x` left of `y` costs more.
pub open spec fn penalty_in_upto(m: COOInterconnectionMatrix, x: int, p: int) -> Seq<(usize, u32)>
    decreases p,
{
    if p <= 0 {
        Seq::empty()
    } else {
        let rest = penalty_in_upto(m, x, p - 1);
        let y = p - 1;
        let cxy = m.cross(m.loose@[x].1, m.loose@[y].1);
        let cyx = m.cross(m.loose@[y].1, m.loose@[x].1);
        if cxy > cyx {
            rest.push((y as usize, (cxy - cyx) as u32))
        } else {
            rest
        }
    }
}

/// Arcs leaving loose position `x` towards positions `y < p`: one to `y`
/// of weight `c(y, x) - c(x, y)` whenever `y` left of `x` costs more.
pub open spec fn penalty_out_upto(m: COOInterconnectionMatrix, x: int, p: int) -> Seq<(usize, u32)>
    decreases p,
{
    if p <= 0 {
        Seq::empty()
    } else {
        let rest = penalty_out_upto(m, x, p - 1);
        let y = p - 1;
        let cxy = m.cross(m.loose@[x].1, m.loose@[y].1);
        let cyx = m.cross(m.loose@[y].1, m.loose@[x].1);
        if cyx > cxy {
            rest.push((y as usize, (cyx - cxy) as u32))
        } else {
            rest
        }
    }
}

/// `g` is the penalty graph of the loose order of `m`.
pub open spec fn is_penalty_graph_of(g: PenaltyGraph, m: COOInterconnectionMatrix) -> bool {
    let n = m.loose@.len() as int;
    &&& g.vertices@.len() == n
    &&& forall|x: int|
        0 <= x < n ==> {
            let v = #[trigger] g.vertices@[x];
            &&& v.Name == m.loose@[x].0
            &&& v.InterconRef == x
            &&& !v.isCondensed
            &&& v.CondensedVertices is None
            &&& v.InNeighbours@ == penalty_in_upto(m, x, n)
            &&& v.OutNeighbours@ == penalty_out_upto(m, x, n)
        }
}

/// Number of partner positions of `x` whose pair has been looked at when the
/// scan over pairs `(i, j)`, `i <= j`, has reached `(i, j)`.
spec fn pairs_done(x: int, i: int, j: int, n: int) -> int {
    if x < i {
        n
    } else if x == i {
        j
    } else if j > x {
        i + 1
    } else {
        i
    }
}

impl PenaltyGraph {
    /// Builds the penalty graph of the current loose order.  Stops with
    /// `None` as soon as termination is requested; the flag is read after
    /// each pair of positions, so an order of one vertex always gets its graph.
    pub fn parse(input: &COOInterconnectionMatrix, termination_signal: &AtomicBool) -> (res: Option<
        PenaltyGraph,
    >)
        requires
            input.wf(),
            input.loose@.len() >= 1,
            input.pairs_fit(input.loose@),
        ensures
            res matches Some(g) ==> is_penalty_graph_of(g, *input),
            input.loose@.len() == 1 ==> res is Some,
    {
        let ghost m = *input;
        let looslen = input.loose.len();
        let ghost n = looslen as int;
        let mut vert: Vec<PenaltyGraphVertex> = Vec::new();
        let mut index: usize = 0;
        while index < looslen
            invariant
                looslen == input.loose@.len(),
                index <= looslen,
                vert@.len() == index,
                forall|x: int|
                    0 <= x < index ==> {
                        let v = #[trigger] vert@[x];
                        &&& v.Name == input.loose@[x].0
                        &&& v.InterconRef == x
                        &&& !v.isCondensed
                        &&& v.CondensedVertices is None
                        &&& v.InNeighbours@.len() == 0
                        &&& v.OutNeighbours@.len() == 0
                    },
            decreases looslen - index,
        {
            let vertex = PenaltyGraphVertex {
                Name: input.loose[index].0,
                OutNeighbours: Vec::new(),
                InNeighbours: Vec::new(),
                isCondensed: false,
                CondensedVertices: None,
                InterconRef: index,
            };
            vert.push(vertex);
            index += 1;
        }
        proof {
            assert forall|x: int| 0 <= x < n implies #[trigger] vert@[x].InNeighbours@
                == penalty_in_upto(m, x, pairs_done(x, 0, 0, n)) && vert@[x].OutNeighbours@
                == penalty_out_upto(m, x, pairs_done(x, 0, 0, n)) by {
                assert(vert@[x].InNeighbours@ =~= Seq::<(usize, u32)>::empty());
                assert(vert@[x].OutNeighbours@ =~= Seq::<(usize, u32)>::empty());
            }
        }
        let mut i: usize = 0;
        while i < looslen - 1
            invariant
                m == *input,
                n == looslen,
                looslen == input.loose@.len(),
                looslen >= 1,
                input.wf(),
                input.pairs_fit(input.loose@),
                i <= looslen - 1,
                vert@.len() == looslen,
                forall|x: int|
                    0 <= x < n ==> {
                        let v = #[trigger] vert@[x];
                        &&& v.Name == input.loose@[x].0
                        &&& v.InterconRef == x
                        &&& !v.isCondensed
                        &&& v.CondensedVertices is None
                        &&& v.InNeighbours@ == penalty_in_upto(m, x, pairs_done(x, i as int, i as int, n))
                        &&& v.OutNeighbours@ == penalty_out_upto(m, x, pairs_done(x, i as int, i as int, n))
                    },
            decreases looslen - i,
        {
            let mut j: usize = i;
            while j < looslen
                invariant
                    m == *input,
                    n == looslen,
                    looslen == input.loose@.len(),
                    input.wf(),
                    input.pairs_fit(input.loose@),
                    i < looslen - 1,
                    i <= j <= looslen,
                    vert@.len() == looslen,
                    forall|x: int|
                        0 <= x < n ==> {
                            let v = #[trigger] vert@[x];
                            &&& v.Name == input.loose@[x].0
                            &&& v.InterconRef == x
                            &&& !v.isCondensed
                            &&& v.CondensedVertices is None
                            &&& v.InNeighbours@ == penalty_in_upto(m, x, pairs_done(x, i as int, j as int, n))
                            &&& v.OutNeighbours@ == penalty_out_upto(m, x, pairs_done(x, i as int, j as int, n))
                        },
                decreases looslen - j,
            {
                let crossings = input.calc_local_cross_count_touple_between_positions(i, j);
                let ghost before = vert@;
                if crossings.0 > crossings.1 {
                    vert[i].InNeighbours.push((j, crossings.0 - crossings.1));
                    vert[j].OutNeighbours.push((i, crossings.0 - crossings.1));
                } else if crossings.0 < crossings.1 {
                    vert[j].InNeighbours.push((i, crossings.1 - crossings.0));
                    vert[i].OutNeighbours.push((j, crossings.1 - crossings.0));
                }
                proof {
                    assert forall|x: int| 0 <= x < n implies {
                        let v = #[trigger] vert@[x];
                        &&& v.Name == input.loose@[x].0
                        &&& v.InterconRef == x
                        &&& !v.isCondensed
                        &&& v.CondensedVertices is None
                        &&& v.InNeighbours@ == penalty_in_upto(m, x, pairs_done(x, i as int, j + 1, n))
                        &&& v.OutNeighbours@ == penalty_out_upto(m, x, pairs_done(x, i as int, j + 1, n))
                    } by {
                        let v0 = before[x];
                        if x == i as int {
                            assert(pairs_done(x, i as int, j + 1, n) == j + 1);
                        } else if x == j as int {
                            assert(pairs_done(x, i as int, j as int, n) == i);
                            assert(pairs_done(x, i as int, j + 1, n) == i + 1);
                        } else {
                            assert(pairs_done(x, i as int, j + 1, n) == pairs_done(x, i as int, j as int, n));
                        }
                    }
                }
                if should_terminate(termination_signal) {
                    return None;
                }
                j += 1;
            }
            proof {
                assert forall|x: int| 0 <= x < n implies pairs_done(x, i as int, n, n) == pairs_done(
                    x,
                    i + 1,
                    i + 1,
                    n,
                ) by {}
            }
            i += 1;
        }
        proof {
            assert forall|x: int| 0 <= x < n implies {
                &&& #[trigger] vert@[x].InNeighbours@ == penalty_in_upto(m, x, n)
                &&& vert@[x].OutNeighbours@ == penalty_out_upto(m, x, n)
            } by {
                if x == n - 1 {
                    assert(pairs_done(x, i as int, i as int, n) == n - 1);
                }
            }
        }
        Some(PenaltyGraph { vertices: vert })
    }
}

/// `v` stands in one of the lists.
pub open spec fn in_some_list(comps: Seq<Seq<usize>>, v: usize) -> bool {
    exists|c: int| 0 <= c < comps.len() && #[trigger] comps[c].contains(v)
}

/// Number of `false` entries.
pub open spec fn count_false(s: Seq<bool>) -> nat
    decreases s.len(),
{
    if s.len() == 0 {
        0
    } else {
        count_false(s.drop_last()) + (if s.last() { 0nat } else { 1nat })
    }
}

/// Number of unset entries.
pub open spec fn count_none(s: Seq<Option<usize>>) -> nat
    decreases s.len(),
{
    if s.len() == 0 {
        0
    } else {
        count_none(s.drop_last()) + (if s.last() is Some { 0nat } else { 1nat })
    }
}

/// Setting entries never raises the number of unset ones; setting one lowers it.
pub proof fn lemma_count_false_mono(s1: Seq<bool>, s2: Seq<bool>, i: int)
    requires
        s1.len() == s2.len(),
        forall|k: int| 0 <= k < s1.len() && s1[k] ==> s2[k],
    ensures
        count_false(s2) <= count_false(s1),
        0 <= i < s1.len() && !s1[i] && s2[i] ==> count_false(s2) < count_false(s1),
    decreases s1.len(),
{
    if s1.len() > 0 {
        lemma_count_false_mono(s1.drop_last(), s2.drop_last(), i);
    }
}

pub proof fn lemma_count_none_mono(s1: Seq<Option<usize>>, s2: Seq<Option<usize>>, i: int)
    requires
        s1.len() == s2.len(),
        forall|k: int| 0 <= k < s1.len() && s1[k] is Some ==> s2[k] is Some,
    ensures
        count_none(s2) <= count_none(s1),
        0 <= i < s1.len() && s1[i] is None && s2[i] is Some ==> count_none(s2) < count_none(s1),
    decreases s1.len(),
{
    if s1.len() > 0 {
        lemma_count_none_mono(s1.drop_last(), s2.drop_last(), i);
    }
}

impl PenaltyGraph {
    /// Every arc points to a vertex of the graph.
    pub open spec fn arcs_in_range(&self) -> bool {
        let n = self.vertices@.len();
        &&& forall|v: int, k: int|
            0 <= v < n && 0 <= k < self.vertices@[v].InNeighbours@.len()
                ==> #[trigger] self.vertices@[v].InNeighbours@[k].0 < n
        &&& forall|v: int, k: int|
            0 <= v < n && 0 <= k < self.vertices@[v].OutNeighbours@.len()
                ==> #[trigger] self.vertices@[v].OutNeighbours@[k].0 < n
    }

    /// `comps` splits the vertices into non-empty lists: every vertex stands in
    /// exactly one list, once.
    pub open spec fn is_vertex_partition(&self, comps: Seq<Seq<usize>>) -> bool {
        let n = self.vertices@.len();
        &&& forall|c: int| 0 <= c < comps.len() ==> (#[trigger] comps[c]).len() > 0
        &&& forall|c: int, k: int|
            0 <= c < comps.len() && 0 <= k < comps[c].len() ==> #[trigger] comps[c][k] < n
        &&& forall|v: usize| v < n ==> #[trigger] in_some_list(comps, v)
        &&& forall|c1: int, k1: int, c2: int, k2: int|
            0 <= c1 < comps.len() && 0 <= k1 < comps[c1].len() && 0 <= c2 < comps.len() && 0 <= k2
                < comps[c2].len() && #[trigger] comps[c1][k1] == #[trigger] comps[c2][k2] ==> c1
                == c2 && k1 == k2
    }

    /// Arcs never lead from a later list of `comps` to an earlier one.
    pub open spec fn arcs_go_forward(&self, comps: Seq<Seq<usize>>) -> bool {
        forall|c1: int, k1: int, e: int, c2: int|
            0 <= c1 < comps.len() && 0 <= k1 < comps[c1].len() && 0 <= e
                < self.vertices@[comps[c1][k1] as int].InNeighbours@.len() && 0 <= c2
                < comps.len() && #[trigger] comps[c2].contains(
                #[trigger] self.vertices@[comps[c1][k1] as int].InNeighbours@[e].0,
            ) ==> c2 <= c1
    }

}


/// Index of the list of `comps` that holds `v`.
pub open spec fn comp_index(comps: Seq<Seq<usize>>, v: usize) -> int {
    choose|c: int| 0 <= c < comps.len() && #[trigger] comps[c].contains(v)
}

/// Position of `v` in the list `comp`.
pub open spec fn pos_in(comp: Seq<usize>, v: usize) -> int {
    choose|k: int| 0 <= k < comp.len() && #[trigger] comp[k] == v
}

/// Arcs redirected to the components of their other ends, keeping the first
/// arc to each component and leaving out the component `skip`.
pub open spec fn dedup_arcs(arcs: Seq<(usize, u32)>, comps: Seq<Seq<usize>>, skip: int) -> Seq<(usize, u32)>
    decreases arcs.len(),
{
    if arcs.len() == 0 {
        Seq::empty()
    } else {
        let r = dedup_arcs(arcs.drop_last(), comps, skip);
        let t = comp_index(comps, arcs.last().0);
        if t == skip || r.map_values(|a: (usize, u32)| a.0).contains(t as usize) {
            r
        } else {
            r.push((t as usize, arcs.last().1))
        }
    }
}

/// Arcs that stay inside component `c`, renumbered by position in it.
pub open spec fn internal_arcs(arcs: Seq<(usize, u32)>, comps: Seq<Seq<usize>>, c: int) -> Seq<(usize, u32)> {
    arcs.filter(|a: (usize, u32)| comp_index(comps, a.0) == c).map_values(
        |a: (usize, u32)| (pos_in(comps[c], a.0) as usize, a.1),
    )
}

impl PenaltyGraph {
    /// Incoming arc lists of the members of a component, in member order.
    pub open spec fn member_in_arcs(&self, comp: Seq<usize>) -> Seq<Seq<(usize, u32)>> {
        Seq::new(comp.len(), |k: int| self.vertices@[comp[k] as int].InNeighbours@)
    }

    /// Outgoing arc lists of the members of a component, in member order.
    pub open spec fn member_out_arcs(&self, comp: Seq<usize>) -> Seq<Seq<(usize, u32)>> {
        Seq::new(comp.len(), |k: int| self.vertices@[comp[k] as int].OutNeighbours@)
    }

    /// `sub` is the graph induced by component `c`, its vertices numbered by
    /// their position in the component.
    pub open spec fn is_component_graph(&self, sub: PenaltyGraph, comps: Seq<Seq<usize>>, c: int) -> bool {
        let comp = comps[c];
        &&& sub.vertices@.len() == comp.len()
        &&& forall|k: int|
            0 <= k < comp.len() ==> {
                let v = #[trigger] sub.vertices@[k];
                let orig = self.vertices@[comp[k] as int];
                &&& v.Name == orig.Name
                &&& v.InterconRef == orig.InterconRef
                &&& !v.isCondensed
                &&& v.CondensedVertices is None
                &&& v.InNeighbours@ == internal_arcs(orig.InNeighbours@, comps, c)
                &&& v.OutNeighbours@ == internal_arcs(orig.OutNeighbours@, comps, c)
            }
    }

    /// `g` is the condensation of this graph by the components `comps`: one
    /// vertex per component, named after its first member; a component of
    /// several vertices is condensed and keeps its induced graph; arcs between
    /// components are kept once per pair, with the weight of the first one.
    pub open spec fn is_condensation(&self, g: PenaltyGraph, comps: Seq<Seq<usize>>) -> bool {
        &&& g.vertices@.len() == comps.len()
        &&& forall|c: int|
            0 <= c < comps.len() ==> {
                let v = #[trigger] g.vertices@[c];
                let comp = comps[c];
                let first = self.vertices@[comp[0] as int];
                let skip = if comp.len() == 1 {
                    -1
                } else {
                    c
                };
                &&& v.Name == first.Name
                &&& v.InterconRef == first.InterconRef
                &&& v.isCondensed == (comp.len() > 1)
                &&& (comp.len() == 1 ==> v.CondensedVertices is None)
                &&& (comp.len() > 1 ==> (v.CondensedVertices matches Some(sub)
                    && self.is_component_graph(sub, comps, c)))
                &&& v.InNeighbours@ == dedup_arcs(
                    crate::interconnection::concat_all(self.member_in_arcs(comp)),
                    comps,
                    skip,
                )
                &&& v.OutNeighbours@ == dedup_arcs(
                    crate::interconnection::concat_all(self.member_out_arcs(comp)),
                    comps,
                    skip,
                )
            }
    }
}

/// Within a partition, the list holding a member is the one found by
/// `comp_index`, at the position found by `pos_in`.
pub proof fn lemma_partition_index(g: &PenaltyGraph, comps: Seq<Seq<usize>>, c: int, k: int)
    requires
        g.is_vertex_partition(comps),
        0 <= c < comps.len(),
        0 <= k < comps[c].len(),
    ensures
        comp_index(comps, comps[c][k]) == c,
        pos_in(comps[c], comps[c][k]) == k,
{
    let v = comps[c][k];
    assert(comps[c].contains(v));
    let c2 = comp_index(comps, v);
    let k2 = choose|k2: int| 0 <= k2 < comps[c2].len() && comps[c2][k2] == v;
    assert(comps[c2][k2] == comps[c][k]);
    let k3 = pos_in(comps[c], v);
    assert(comps[c][k3] == comps[c][k]);
}

proof fn lemma_concat_take_succ(l: Seq<Seq<(usize, u32)>>, k: int)
    requires
        0 <= k < l.len(),
    ensures
        crate::interconnection::concat_all(l.take(k + 1)) == crate::interconnection::concat_all(l.take(k)) + l[k],
{
    assert(l.take(k + 1).drop_last() =~= l.take(k));
}

impl PenaltyGraph {
    /// Arcs of `arcs` that stay inside component `c`, renumbered.
    fn internal_list(
        arcs: &Vec<(usize, u32)>,
        c: usize,
        position_map: &Vec<usize>,
        position_in: &Vec<usize>,
        Ghost(comps): Ghost<Seq<Seq<usize>>>,
        Ghost(n): Ghost<int>,
    ) -> (res: Vec<(usize, u32)>)
        requires
            position_map@.len() == n,
            position_in@.len() == n,
            forall|k: int| 0 <= k < arcs@.len() ==> #[trigger] arcs@[k].0 < n,
            forall|v: int|
                0 <= v < n ==> #[trigger] position_map@[v] == comp_index(comps, v as usize)
                    && position_in@[v] == pos_in(comps[position_map@[v] as int], v as usize),
        ensures
            res@ == internal_arcs(arcs@, comps, c as int),
    {
        let ghost pred = |a: (usize, u32)| comp_index(comps, a.0) == c as int;
        let ghost f = |a: (usize, u32)| (pos_in(comps[c as int], a.0) as usize, a.1);
        let mut res: Vec<(usize, u32)> = Vec::new();
        let mut e: usize = 0;
        while e < arcs.len()
            invariant
                position_map@.len() == n,
                position_in@.len() == n,
                forall|k: int| 0 <= k < arcs@.len() ==> #[trigger] arcs@[k].0 < n,
                forall|v: int|
                    0 <= v < n ==> #[trigger] position_map@[v] == comp_index(comps, v as usize)
                        && position_in@[v] == pos_in(comps[position_map@[v] as int], v as usize),
                e <= arcs@.len(),
                pred == (|a: (usize, u32)| comp_index(comps, a.0) == c as int),
                f == (|a: (usize, u32)| (pos_in(comps[c as int], a.0) as usize, a.1)),
                res@ == arcs@.take(e as int).filter(pred).map_values(f),
            decreases arcs@.len() - e,
        {
            let a = arcs[e];
            proof {
                assert(arcs@.take(e + 1).drop_last() =~= arcs@.take(e as int));
                reveal_with_fuel(Seq::filter, 1);
                assert(arcs@[e as int].0 < n);
            }
            if position_map[a.0] == c {
                res.push((position_in[a.0], a.1));
                proof {
                    assert(arcs@.take(e as int).filter(pred).push(a).map_values(f) =~= arcs@.take(
                        e as int,
                    ).filter(pred).map_values(f).push(f(a)));
                }
            }
            e += 1;
        }
        proof {
            assert(arcs@.take(e as int) =~= arcs@);
        }
        res
    }

    /// The graph induced by component `c`.
    fn component_graph(
        &self,
        component: &Vec<usize>,
        c: usize,
        position_map: &Vec<usize>,
        position_in: &Vec<usize>,
        Ghost(comps): Ghost<Seq<Seq<usize>>>,
    ) -> (res: PenaltyGraph)
        requires
            self.arcs_in_range(),
            0 <= c < comps.len(),
            component@ == comps[c as int],
            forall|k: int| 0 <= k < component@.len() ==> #[trigger] component@[k] < self.vertices@.len(),
            position_map@.len() == self.vertices@.len(),
            position_in@.len() == self.vertices@.len(),
            forall|v: int|
                0 <= v < self.vertices@.len() ==> #[trigger] position_map@[v] == comp_index(comps, v as usize)
                    && position_in@[v] == pos_in(comps[position_map@[v] as int], v as usize),
        ensures
            self.is_component_graph(res, comps, c as int),
    {
        let ghost n = self.vertices@.len() as int;
        let mut temp_vec: Vec<PenaltyGraphVertex> = Vec::new();
        let mut k: usize = 0;
        while k < component.len()
            invariant
                self.arcs_in_range(),
                n == self.vertices@.len(),
                0 <= c < comps.len(),
                component@ == comps[c as int],
                forall|j: int| 0 <= j < component@.len() ==> #[trigger] component@[j] < n,
                position_map@.len() == n,
                position_in@.len() == n,
                forall|v: int|
                    0 <= v < n ==> #[trigger] position_map@[v] == comp_index(comps, v as usize)
                        && position_in@[v] == pos_in(comps[position_map@[v] as int], v as usize),
                k <= component@.len(),
                temp_vec@.len() == k,
                forall|j: int|
                    0 <= j < k ==> {
                        let v = #[trigger] temp_vec@[j];
                        let orig = self.vertices@[comps[c as int][j] as int];
                        &&& v.Name == orig.Name
                        &&& v.InterconRef == orig.InterconRef
                        &&& !v.isCondensed
                        &&& v.CondensedVertices is None
                        &&& v.InNeighbours@ == internal_arcs(orig.InNeighbours@, comps, c as int)
                        &&& v.OutNeighbours@ == internal_arcs(orig.OutNeighbours@, comps, c as int)
                    },
            decreases component@.len() - k,
        {
            let orig = &self.vertices[component[k]];
            proof {
                assert(component@[k as int] < n);
                assert forall|j: int| 0 <= j < orig.InNeighbours@.len() implies #[trigger] orig.InNeighbours@[j].0 < n by {
                    assert(self.vertices@[component@[k as int] as int].InNeighbours@[j].0 < n);
                }
                assert forall|j: int| 0 <= j < orig.OutNeighbours@.len() implies #[trigger] orig.OutNeighbours@[j].0 < n by {
                    assert(self.vertices@[component@[k as int] as int].OutNeighbours@[j].0 < n);
                }
            }
            let ins = Self::internal_list(&orig.InNeighbours, c, position_map, position_in, Ghost(comps), Ghost(n));
            let outs = Self::internal_list(&orig.OutNeighbours, c, position_map, position_in, Ghost(comps), Ghost(n));
            temp_vec.push(
                PenaltyGraphVertex {
                    Name: orig.Name,
                    InterconRef: orig.InterconRef,
                    OutNeighbours: outs,
                    InNeighbours: ins,
                    isCondensed: false,
                    CondensedVertices: None,
                },
            );
            k += 1;
        }
        PenaltyGraph { vertices: temp_vec }
    }

    /// Arcs of the members of component `c` redirected to components, first
    /// arc per component, without `c` itself when `skip_own`.  A component
    /// `d` counts as taken when `marks[d] == c + 1`.
    fn external_list(
        &self,
        component: &Vec<usize>,
        c: usize,
        skip_own: bool,
        incoming: bool,
        position_map: &Vec<usize>,
        marks: &mut Vec<usize>,
        Ghost(comps): Ghost<Seq<Seq<usize>>>,
    ) -> (res: Vec<(usize, u32)>)
        requires
            self.arcs_in_range(),
            0 <= c < comps.len(),
            component@ == comps[c as int],
            forall|k: int| 0 <= k < component@.len() ==> #[trigger] component@[k] < self.vertices@.len(),
            position_map@.len() == self.vertices@.len(),
            forall|v: int|
                0 <= v < self.vertices@.len() ==> #[trigger] position_map@[v] == comp_index(comps, v as usize)
                    && position_map@[v] < comps.len(),
            old(marks)@.len() == comps.len(),
            comps.len() <= usize::MAX,
            forall|d: int| 0 <= d < comps.len() ==> #[trigger] old(marks)@[d] <= c,
        ensures
            final(marks)@.len() == comps.len(),
            forall|d: int| 0 <= d < comps.len() ==> #[trigger] final(marks)@[d] <= c + 1,
            res@ == dedup_arcs(
                crate::interconnection::concat_all(
                    if incoming {
                        self.member_in_arcs(comps[c as int])
                    } else {
                        self.member_out_arcs(comps[c as int])
                    },
                ),
                comps,
                if skip_own {
                    c as int
                } else {
                    -1
                },
            ),
    {
        let ghost n = self.vertices@.len() as int;
        let ghost lists = if incoming {
            self.member_in_arcs(comps[c as int])
        } else {
            self.member_out_arcs(comps[c as int])
        };
        let ghost skip = if skip_own {
            c as int
        } else {
            -1
        };
        let mut res: Vec<(usize, u32)> = Vec::new();
        let mut k: usize = 0;
        proof {
            assert(lists.take(0) =~= Seq::<Seq<(usize, u32)>>::empty());
        }
        while k < component.len()
            invariant
                self.arcs_in_range(),
                n == self.vertices@.len(),
                0 <= c < comps.len(),
                component@ == comps[c as int],
                forall|j: int| 0 <= j < component@.len() ==> #[trigger] component@[j] < n,
                position_map@.len() == n,
                forall|v: int|
                    0 <= v < n ==> #[trigger] position_map@[v] == comp_index(comps, v as usize)
                        && position_map@[v] < comps.len(),
                lists == (if incoming {
                    self.member_in_arcs(comps[c as int])
                } else {
                    self.member_out_arcs(comps[c as int])
                }),
                skip == (if skip_own {
                    c as int
                } else {
                    -1
                }),
                k <= component@.len(),
                comps.len() <= usize::MAX,
                marks@.len() == comps.len(),
                forall|d: int| 0 <= d < comps.len() ==> #[trigger] marks@[d] <= c + 1,
                res@ == dedup_arcs(crate::interconnection::concat_all(lists.take(k as int)), comps, skip),
                forall|d: int|
                    0 <= d < comps.len() ==> (#[trigger] marks@[d] == c + 1 <==> res@.map_values(
                        |a: (usize, u32)| a.0,
                    ).contains(d as usize)),
            decreases component@.len() - k,
        {
            let orig = &self.vertices[component[k]];
            let arcs = if incoming {
                &orig.InNeighbours
            } else {
                &orig.OutNeighbours
            };
            proof {
                assert(component@[k as int] < n);
                assert(arcs@ == lists[k as int]);
                assert forall|j: int| 0 <= j < arcs@.len() implies #[trigger] arcs@[j].0 < n by {
                    assert(self.vertices@[component@[k as int] as int].InNeighbours@.len() > 0 ==> true);
                    if incoming {
                        assert(self.vertices@[component@[k as int] as int].InNeighbours@[j].0 < n);
                    } else {
                        assert(self.vertices@[component@[k as int] as int].OutNeighbours@[j].0 < n);
                    }
                }
            }
            let ghost base = crate::interconnection::concat_all(lists.take(k as int));
            let mut e: usize = 0;
            proof {
                assert(lists[k as int].take(0) =~= Seq::<(usize, u32)>::empty());
                assert(base + lists[k as int].take(0) =~= base);
            }
            while e < arcs.len()
                invariant
                    forall|j: int| 0 <= j < arcs@.len() ==> #[trigger] arcs@[j].0 < n,
                    arcs@ == lists[k as int],
                    position_map@.len() == n,
                    forall|v: int|
                        0 <= v < n ==> #[trigger] position_map@[v] == comp_index(comps, v as usize)
                            && position_map@[v] < comps.len(),
                    e <= arcs@.len(),
                    0 <= c < comps.len(),
                    comps.len() <= usize::MAX,
                    marks@.len() == comps.len(),
                    forall|d: int| 0 <= d < comps.len() ==> #[trigger] marks@[d] <= c + 1,
                    res@ == dedup_arcs(base + lists[k as int].take(e as int), comps, skip),
                    forall|d: int|
                        0 <= d < comps.len() ==> (#[trigger] marks@[d] == c + 1 <==> res@.map_values(
                            |a: (usize, u32)| a.0,
                        ).contains(d as usize)),
                    skip == (if skip_own {
                        c as int
                    } else {
                        -1
                    }),
                decreases arcs@.len() - e,
            {
                let a = arcs[e];
                proof {
                    assert(arcs@[e as int].0 < n);
                    let p = base + lists[k as int].take(e as int);
                    assert((base + lists[k as int].take(e + 1)).drop_last() =~= p);
                    assert((base + lists[k as int].take(e + 1)).last() == a);
                }
                let mapped = position_map[a.0];
                let ghost before = res@;
                if !(skip_own && mapped == c) && marks[mapped] != c + 1 {
                    res.push((mapped, a.1));
                    marks.set(mapped, c + 1);
                    proof {
                        assert forall|d: int|
                            0 <= d < comps.len() implies (#[trigger] marks@[d] == c + 1 <==> res@.map_values(
                                |x: (usize, u32)| x.0,
                            ).contains(d as usize)) by {
                            let m0 = before.map_values(|x: (usize, u32)| x.0);
                            assert(res@.map_values(|x: (usize, u32)| x.0) =~= m0.push(mapped));
                            if d == mapped as int {
                                assert(m0.push(mapped)[m0.len() as int] == mapped);
                            } else if m0.push(mapped).contains(d as usize) {
                                let j = choose|j: int| 0 <= j < m0.len() + 1 && #[trigger] m0.push(mapped)[j] == d as usize;
                                assert(j < m0.len());
                                assert(m0[j] == d as usize);
                            } else if m0.contains(d as usize) {
                                let j = choose|j: int| 0 <= j < m0.len() && #[trigger] m0[j] == d as usize;
                                assert(m0.push(mapped)[j] == d as usize);
                            }
                        }
                    }
                }
                e += 1;
            }
            proof {
                assert(lists[k as int].take(arcs@.len() as int) =~= lists[k as int]);
                lemma_concat_take_succ(lists, k as int);
            }
            k += 1;
        }
        proof {
            assert(lists.take(k as int) =~= lists);
        }
        res
    }

    /// Condenses the graph along the given components (see
    /// `is_condensation`).  The component of each vertex is looked up in a
    /// vector indexed by vertex number.
    fn condense_with_components(&self, scc: &Vec<Vec<usize>>) -> (res: PenaltyGraph)
        requires
            self.arcs_in_range(),
            self.is_vertex_partition(scc@.map_values(|c: Vec<usize>| c@)),
        ensures
            self.is_condensation(res, scc@.map_values(|c: Vec<usize>| c@)),
    {
        let ghost comps = scc@.map_values(|c: Vec<usize>| c@);
        let n = self.vertices.len();
        let nc = scc.len();
        let mut position_map: Vec<usize> = Vec::new();
        let mut position_in: Vec<usize> = Vec::new();
        let mut k: usize = 0;
        while k < n
            invariant
                k <= n,
                position_map@.len() == k,
                position_in@.len() == k,
            decreases n - k,
        {
            position_map.push(0);
            position_in.push(0);
            k += 1;
        }
        let mut c: usize = 0;
        while c < nc
            invariant
                n == self.vertices@.len(),
                nc == comps.len(),
                comps == scc@.map_values(|c: Vec<usize>| c@),
                self.is_vertex_partition(comps),
                c <= nc,
                position_map@.len() == n,
                position_in@.len() == n,
                forall|c2: int, k2: int|
                    0 <= c2 < c && 0 <= k2 < comps[c2].len() ==> position_map@[#[trigger] comps[c2][k2] as int]
                        == c2 && position_in@[comps[c2][k2] as int] == k2,
            decreases nc - c,
        {
            let component = &scc[c];
            proof {
                assert(component@ == comps[c as int]);
            }
            let mut k: usize = 0;
            while k < component.len()
                invariant
                    n == self.vertices@.len(),
                    nc == comps.len(),
                    self.is_vertex_partition(comps),
                    0 <= c < nc,
                    component@ == comps[c as int],
                    k <= component@.len(),
                    position_map@.len() == n,
                    position_in@.len() == n,
                    forall|c2: int, k2: int|
                        0 <= c2 < c && 0 <= k2 < comps[c2].len() ==> position_map@[#[trigger] comps[c2][k2] as int]
                            == c2 && position_in@[comps[c2][k2] as int] == k2,
                    forall|k2: int|
                        0 <= k2 < k ==> position_map@[#[trigger] comps[c as int][k2] as int] == c
                            && position_in@[comps[c as int][k2] as int] == k2,
                decreases component@.len() - k,
            {
                let v = component[k];
                proof {
                    assert(comps[c as int][k as int] == v);
                    assert(v < n);
                }
                position_map.set(v, c);
                position_in.set(v, k);
                proof {
                    assert forall|c2: int, k2: int|
                        0 <= c2 < c && 0 <= k2 < comps[c2].len() implies position_map@[#[trigger] comps[c2][k2] as int]
                            == c2 && position_in@[comps[c2][k2] as int] == k2 by {
                        if comps[c2][k2] == v {
                            assert(comps[c2][k2] == comps[c as int][k as int]);
                        }
                    }
                    assert forall|k2: int|
                        0 <= k2 < k + 1 implies position_map@[#[trigger] comps[c as int][k2] as int] == c
                            && position_in@[comps[c as int][k2] as int] == k2 by {
                        if k2 < k && comps[c as int][k2] == v {
                            assert(comps[c as int][k2] == comps[c as int][k as int]);
                        }
                    }
                }
                k += 1;
            }
            c += 1;
        }
        proof {
            assert forall|v: int| 0 <= v < n implies #[trigger] position_map@[v] == comp_index(comps, v as usize)
                && position_in@[v] == pos_in(comps[position_map@[v] as int], v as usize)
                && position_map@[v] < comps.len() by {
                assert(in_some_list(comps, v as usize));
                let c2 = choose|c2: int| 0 <= c2 < comps.len() && #[trigger] comps[c2].contains(v as usize);
                let k2 = choose|k2: int| 0 <= k2 < comps[c2].len() && #[trigger] comps[c2][k2] == v as usize;
                lemma_partition_index(self, comps, c2, k2);
            }
        }
        let mut marks_in: Vec<usize> = Vec::new();
        let mut marks_out: Vec<usize> = Vec::new();
        let mut k: usize = 0;
        while k < nc
            invariant
                k <= nc,
                marks_in@.len() == k,
                marks_out@.len() == k,
                forall|d: int| 0 <= d < k ==> #[trigger] marks_in@[d] == 0,
                forall|d: int| 0 <= d < k ==> #[trigger] marks_out@[d] == 0,
            decreases nc - k,
        {
            marks_in.push(0);
            marks_out.push(0);
            k += 1;
        }
        let mut new_vertices: Vec<PenaltyGraphVertex> = Vec::new();
        let mut c: usize = 0;
        while c < nc
            invariant
                self.arcs_in_range(),
                n == self.vertices@.len(),
                nc == comps.len(),
                comps == scc@.map_values(|c: Vec<usize>| c@),
                self.is_vertex_partition(comps),
                c <= nc,
                position_map@.len() == n,
                position_in@.len() == n,
                forall|v: int|
                    0 <= v < n ==> #[trigger] position_map@[v] == comp_index(comps, v as usize)
                        && position_in@[v] == pos_in(comps[position_map@[v] as int], v as usize)
                        && position_map@[v] < comps.len(),
                marks_in@.len() == nc,
                marks_out@.len() == nc,
                forall|d: int| 0 <= d < nc ==> #[trigger] marks_in@[d] <= c,
                forall|d: int| 0 <= d < nc ==> #[trigger] marks_out@[d] <= c,
                new_vertices@.len() == c,
                forall|c2: int|
                    0 <= c2 < c ==> {
                        let v = #[trigger] new_vertices@[c2];
                        let comp = comps[c2];
                        let first = self.vertices@[comp[0] as int];
                        let skip = if comp.len() == 1 {
                            -1
                        } else {
                            c2
                        };
                        &&& v.Name == first.Name
                        &&& v.InterconRef == first.InterconRef
                        &&& v.isCondensed == (comp.len() > 1)
                        &&& (comp.len() == 1 ==> v.CondensedVertices is None)
                        &&& (comp.len() > 1 ==> (v.CondensedVertices matches Some(sub)
                            && self.is_component_graph(sub, comps, c2)))
                        &&& v.InNeighbours@ == dedup_arcs(
                            crate::interconnection::concat_all(self.member_in_arcs(comp)),
                            comps,
                            skip,
                        )
                        &&& v.OutNeighbours@ == dedup_arcs(
                            crate::interconnection::concat_all(self.member_out_arcs(comp)),
                            comps,
                            skip,
                        )
                    },
            decreases nc - c,
        {
            let component = &scc[c];
            proof {
                assert(component@ == comps[c as int]);
                assert(component@.len() > 0);
                assert forall|j: int| 0 <= j < component@.len() implies #[trigger] component@[j] < self.vertices@.len() by {
                    assert(comps[c as int][j] < n);
                }
            }
            let single = component.len() == 1;
            let first = &self.vertices[component[0]];
            let condensed = if single {
                None
            } else {
                Some(self.component_graph(component, c, &position_map, &position_in, Ghost(comps)))
            };
            let ins = self.external_list(component, c, !single, true, &position_map, &mut marks_in, Ghost(comps));
            let outs = self.external_list(component, c, !single, false, &position_map, &mut marks_out, Ghost(comps));
            new_vertices.push(
                PenaltyGraphVertex {
                    Name: first.Name,
                    InterconRef: first.InterconRef,
                    OutNeighbours: outs,
                    InNeighbours: ins,
                    isCondensed: !single,
                    CondensedVertices: condensed,
                },
            );
            c += 1;
        }
        PenaltyGraph { vertices: new_vertices }
    }

    /// Condenses every strongly connected component into one vertex.
    pub fn CondenseGraph(&self) -> (res: PenaltyGraph)
        requires
            self.arcs_in_range(),
            self.mirrored(),
        ensures
            exists|comps: Seq<Seq<usize>>|
                self.is_vertex_partition(comps) && self.arcs_go_forward(comps) && self.strongly_connected_parts(comps)
                    && self.is_condensation(res, comps),
    {
        let scc = self.generateStronglyConnectedComponents();
        let res = self.condense_with_components(&scc);
        proof {
            let comps = scc@.map_values(|c: Vec<usize>| c@);
            assert(self.is_vertex_partition(comps) && self.arcs_go_forward(comps) && self.strongly_connected_parts(comps)
                && self.is_condensation(res, comps));
        }
        res
    }
}

impl PenaltyGraph {
    /// Every arc is listed at both of its ends.
    pub open spec fn mirrored(&self) -> bool {
        let n = self.vertices@.len();
        &&& forall|v: int, e: int|
            0 <= v < n && 0 <= e < self.vertices@[v].InNeighbours@.len() ==> {
                let u = #[trigger] self.vertices@[v].InNeighbours@[e].0;
                exists|f: int|
                    0 <= f < self.vertices@[u as int].OutNeighbours@.len()
                        && #[trigger] self.vertices@[u as int].OutNeighbours@[f].0 == v
            }
        &&& forall|u: int, f: int|
            0 <= u < n && 0 <= f < self.vertices@[u].OutNeighbours@.len() ==> {
                let v = #[trigger] self.vertices@[u].OutNeighbours@[f].0;
                exists|e: int|
                    0 <= e < self.vertices@[v as int].InNeighbours@.len()
                        && #[trigger] self.vertices@[v as int].InNeighbours@[e].0 == u
            }
    }

    /// No vertex lists the same target twice among its outgoing arcs.
    pub open spec fn out_targets_distinct(&self) -> bool {
        forall|u: int, f1: int, f2: int|
            0 <= u < self.vertices@.len() && 0 <= f1 < f2 < self.vertices@[u].OutNeighbours@.len()
                ==> #[trigger] self.vertices@[u].OutNeighbours@[f1].0
                != #[trigger] self.vertices@[u].OutNeighbours@[f2].0
    }

    /// Every arc enters a vertex with a larger number than the one it leaves.
    pub open spec fn numbered_topologically(&self) -> bool {
        forall|v: int, e: int|
            0 <= v < self.vertices@.len() && 0 <= e < self.vertices@[v].InNeighbours@.len()
                ==> #[trigger] self.vertices@[v].InNeighbours@[e].0 < v
    }

    /// All sources of arcs entering `m` are among `done`.
    pub open spec fn sources_done(&self, m: int, done: Seq<usize>) -> bool {
        forall|e: int|
            0 <= e < self.vertices@[m].InNeighbours@.len() ==> done.contains(
                #[trigger] self.vertices@[m].InNeighbours@[e].0,
            )
    }

    /// Whether every source of an arc entering `m` has been removed.
    fn all_in_marked(&self, m: usize, removed: &Vec<bool>) -> (res: bool)
        requires
            self.arcs_in_range(),
            m < self.vertices@.len(),
            removed@.len() == self.vertices@.len(),
        ensures
            res == forall|e: int|
                0 <= e < self.vertices@[m as int].InNeighbours@.len() ==> removed@[#[trigger] self.vertices@[m as int].InNeighbours@[e].0 as int],
    {
        let ins = &self.vertices[m].InNeighbours;
        let mut e: usize = 0;
        while e < ins.len()
            invariant
                self.arcs_in_range(),
                m < self.vertices@.len(),
                removed@.len() == self.vertices@.len(),
                ins@ == self.vertices@[m as int].InNeighbours@,
                e <= ins@.len(),
                forall|j: int| 0 <= j < e ==> removed@[#[trigger] ins@[j].0 as int],
            decreases ins@.len() - e,
        {
            proof {
                assert(ins@[e as int].0 < self.vertices@.len());
            }
            if !removed[ins[e].0] {
                return false;
            }
            e += 1;
        }
        true
    }

    /// Bookkeeping of the topological sort: `removed` marks the taken
    /// vertices, `pushed` those ever put on the stack; the taken ones and the
    /// stack hold distinct vertices, each taken vertex came after all its
    /// sources, each stacked vertex has all its sources taken.
    #[verifier::opaque]
    pub open spec fn kahn_state(&self, result: Seq<usize>, stack: Seq<usize>, removed: Seq<bool>, pushed: Seq<bool>) -> bool {
        let n = self.vertices@.len();
        &&& n <= usize::MAX
        &&& removed.len() == n
        &&& pushed.len() == n
        &&& forall|x: int| 0 <= x < n ==> (#[trigger] removed[x] <==> result.contains(x as usize))
        &&& forall|x: int| 0 <= x < n ==> (#[trigger] pushed[x] <==> (result.contains(x as usize) || stack.contains(x as usize)))
        &&& forall|j: int| 0 <= j < stack.len() ==> #[trigger] stack[j] < n
        &&& forall|j: int| 0 <= j < result.len() ==> #[trigger] result[j] < n
        &&& forall|j1: int, j2: int| 0 <= j1 < j2 < stack.len() ==> stack[j1] != stack[j2]
        &&& forall|j1: int, j2: int| 0 <= j1 < j2 < result.len() ==> result[j1] != result[j2]
        &&& forall|j1: int, j2: int| 0 <= j1 < result.len() && 0 <= j2 < stack.len() ==> result[j1] != stack[j2]
        &&& forall|j: int| 0 <= j < stack.len() ==> self.sources_done(#[trigger] stack[j] as int, result)
        &&& forall|j: int| 0 <= j < result.len() ==> self.sources_done(#[trigger] result[j] as int, result.take(j))
    }

    /// The vertices without incoming arcs among the first `i`, in order: the
    /// stack the topological sort starts with.
    pub open spec fn kahn_start(&self, i: int) -> Seq<usize>
        decreases i,
    {
        if i <= 0 {
            Seq::empty()
        } else if self.vertices@[i - 1].InNeighbours@.len() == 0 {
            self.kahn_start(i - 1).push((i - 1) as usize)
        } else {
            self.kahn_start(i - 1)
        }
    }

    /// The stack after the arcs `outs` of the vertex just taken: every target
    /// whose sources are all in `taken` is put on top, in the order of the
    /// arcs.
    pub open spec fn kahn_push(&self, stack: Seq<usize>, taken: Seq<usize>, outs: Seq<(usize, u32)>) -> Seq<
        usize,
    >
        decreases outs.len(),
    {
        if outs.len() == 0 {
            stack
        } else if self.sources_done(outs.last().0 as int, taken) {
            self.kahn_push(stack, taken, outs.drop_last()).push(outs.last().0)
        } else {
            self.kahn_push(stack, taken, outs.drop_last())
        }
    }

    /// At most `fuel` steps of the topological sort from the taken vertices
    /// `taken` and the stack `stack`: each step takes the top of the stack
    /// and puts on the stack the targets of its arcs that it enabled.
    pub open spec fn kahn_steps(&self, taken: Seq<usize>, stack: Seq<usize>, fuel: nat) -> Seq<usize>
        decreases fuel,
    {
        if fuel == 0 || stack.len() == 0 {
            taken
        } else {
            let v = stack.last();
            let t = taken.push(v);
            self.kahn_steps(
                t,
                self.kahn_push(stack.drop_last(), t, self.vertices@[v as int].OutNeighbours@),
                (fuel - 1) as nat,
            )
        }
    }

    /// The vertices in the order in which the topological sort takes them
    /// (it ends within twice as many steps as there are vertices).
    pub open spec fn kahn_order(&self) -> Seq<usize> {
        let n = self.vertices@.len() as int;
        self.kahn_steps(Seq::empty(), self.kahn_start(n), (2 * n) as nat)
    }

    /// `o` lists every vertex once, each after the sources of its incoming
    /// arcs.
    pub open spec fn is_topological_order(&self, o: Seq<usize>) -> bool {
        &&& forall|i: int| 0 <= i < o.len() ==> #[trigger] o[i] < self.vertices@.len()
        &&& forall|i: int, j: int| 0 <= i < j < o.len() ==> o[i] != o[j]
        &&& forall|i: int| 0 <= i < o.len() ==> self.sources_done(#[trigger] o[i] as int, o.take(i))
        &&& forall|m: int| 0 <= m < self.vertices@.len() ==> #[trigger] o.contains(m as usize)
    }

    /// The graph has a topological order, that is, no cycle.
    pub open spec fn has_topological_order(&self) -> bool {
        exists|o: Seq<usize>| self.is_topological_order(o)
    }

    /// Topological sort (Kahn): repeatedly takes a vertex all of whose
    /// predecessors have been taken, the most recently enabled first (the
    /// taken vertices are marked in a vector indexed by vertex number).  When
    /// vertices are left over, the graph has a cycle and the result is `None`.
    #[verifier::rlimit(100)]
    pub fn SortWithKahnsAlgorithm(&self) -> (res: Option<Vec<usize>>)
        requires
            self.arcs_in_range(),
            self.mirrored(),
            self.out_targets_distinct(),
        ensures
            res is Some <==> self.has_topological_order(),
            res matches Some(r) ==> self.is_topological_order(r@),
            res matches Some(r) ==> r@ == self.kahn_order(),
            self.numbered_topologically() ==> res is Some,
    {
        let n = self.vertices.len();
        let mut result: Vec<usize> = Vec::new();
        let mut removed: Vec<bool> = Vec::new();
        let ghost mut pushed: Seq<bool> = Seq::empty();
        let mut k: usize = 0;
        while k < n
            invariant
                k <= n,
                removed@.len() == k,
                pushed.len() == k,
                forall|x: int| 0 <= x < k ==> !(#[trigger] removed@[x]),
                forall|x: int| 0 <= x < k ==> !(#[trigger] pushed[x]),
            decreases n - k,
        {
            removed.push(false);
            proof {
                pushed = pushed.push(false);
            }
            k += 1;
        }
        let mut start_nodes: Vec<usize> = Vec::new();
        let mut i: usize = 0;
        proof {
            reveal(PenaltyGraph::kahn_state);
        }
        while i < n
            invariant
                n == self.vertices@.len(),
                i <= n,
                result@.len() == 0,
                pushed.len() == n,
                removed@.len() == n,
                forall|x: int| 0 <= x < n ==> !(#[trigger] removed@[x]),
                self.kahn_state(result@, start_nodes@, removed@, pushed),
                forall|x: int| 0 <= x < n ==> (#[trigger] pushed[x] <==> (x < i && self.vertices@[x].InNeighbours@.len() == 0)),
                start_nodes@ == self.kahn_start(i as int),
                start_nodes@.len() <= i,
            decreases n - i,
        {
            if self.vertices[i].InNeighbours.len() == 0 {
                let ghost before = start_nodes@;
                let ghost pushed0 = pushed;
                start_nodes.push(i);
                proof {
                    assert(result@ =~= Seq::<usize>::empty());
                    pushed = pushed.update(i as int, true);
                    lemma_kahn_start(self, before, removed@, pushed0, i as int);
                }
            }
            i += 1;
        }
        let ghost mut fuel: nat = (2 * n) as nat;
        proof {
            reveal(PenaltyGraph::kahn_state);
            assert forall|m: int| 0 <= m < n && self.sources_done(m, result@) implies #[trigger] pushed[m] by {
                if self.vertices@[m].InNeighbours@.len() > 0 {
                    assert(result@.contains(self.vertices@[m].InNeighbours@[0].0));
                }
            }
            lemma_count_false_len(pushed);
            assert(result@ =~= Seq::<usize>::empty());
        }
        while start_nodes.len() > 0
            invariant
                n == self.vertices@.len(),
                self.arcs_in_range(),
                self.mirrored(),
                self.out_targets_distinct(),
                removed@.len() == n,
                pushed.len() == n,
                self.kahn_state(result@, start_nodes@, removed@, pushed),
                forall|m: int| 0 <= m < n && self.sources_done(m, result@) ==> #[trigger] pushed[m],
                self.kahn_steps(result@, start_nodes@, fuel) == self.kahn_order(),
                count_false(pushed) + start_nodes@.len() <= fuel,
            decreases count_false(pushed) + start_nodes@.len(),
        {
            let ghost stack0 = start_nodes@;
            let ghost result0 = result@;
            let ghost removed0 = removed@;
            let ghost measure0 = count_false(pushed) + start_nodes@.len();
            let ghost fuel0 = fuel;
            let temp_node = start_nodes.pop().unwrap();
            proof {
                assert(start_nodes@.push(temp_node) =~= stack0);
                lemma_kahn_stack_elem(self, result0, stack0, removed0, pushed, stack0.len() - 1);
            }
            result.push(temp_node);
            removed.set(temp_node, true);
            proof {
                lemma_kahn_take(self, result0, stack0, removed0, pushed);
                lemma_kahn_removed(self, result@, start_nodes@, removed@, pushed);
                assert(self.vertices@[temp_node as int].OutNeighbours@.take(0) =~= Seq::<(usize, u32)>::empty());
                assert(start_nodes@ =~= stack0.drop_last());
            }
            let outs = &self.vertices[temp_node].OutNeighbours;
            let mut k: usize = 0;
            while k < outs.len()
                invariant
                    n == self.vertices@.len(),
                    self.arcs_in_range(),
                    self.mirrored(),
                    self.out_targets_distinct(),
                    temp_node < n,
                    outs@ == self.vertices@[temp_node as int].OutNeighbours@,
                    k <= outs@.len(),
                    removed@.len() == n,
                    pushed.len() == n,
                    result@ == result0.push(temp_node),
                    stack0.len() > 0,
                    stack0.last() == temp_node,
                    !result0.contains(temp_node),
                    forall|j: int| 0 <= j < stack0.len() ==> self.sources_done(#[trigger] stack0[j] as int, result0),
                    start_nodes@.len() >= stack0.len() - 1,
                    start_nodes@.take(stack0.len() - 1) == stack0.drop_last(),
                    pushed_from_outs(start_nodes@, stack0.len() - 1, outs@, k as int),
                    count_false(pushed) + start_nodes@.len() + 1 == measure0,
                    self.kahn_state(result@, start_nodes@, removed@, pushed),
                    forall|m: int| 0 <= m < n && self.sources_done(m, result@) ==> #[trigger] pushed[m]
                        || exists|f: int| k <= f < outs@.len() && #[trigger] outs@[f].0 == m,
                forall|x: int| 0 <= x < n ==> (#[trigger] removed@[x] <==> result@.contains(x as usize)),
                start_nodes@ == self.kahn_push(stack0.drop_last(), result@, outs@.take(k as int)),
                fuel0 >= measure0,
                measure0 >= 1,
                self.kahn_steps(result0, stack0, fuel0) == self.kahn_order(),
            decreases outs@.len() - k,
            {
                let m = outs[k].0;
                proof {
                    assert(outs@[k as int].0 < n);
                }
                let all_in_edges_marked = self.all_in_marked(m, &removed);
                proof {
                    lemma_marked_is_done(self, m as int, result@, removed@);
                    assert(outs@.take(k + 1).drop_last() =~= outs@.take(k as int));
                    assert(outs@.take(k + 1).last() == outs@[k as int]);
                }
                if all_in_edges_marked {
                    let ghost before = start_nodes@;
                    let ghost pushed0 = pushed;
                    proof {
                        lemma_kahn_fresh(self, result0, temp_node, stack0, before, removed@, pushed0, outs@, k as int);
                    }
                    start_nodes.push(m);
                    proof {
                        pushed = pushed.update(m as int, true);
                        lemma_count_false_update(pushed0, m as int);
                        lemma_kahn_push(self, result@, before, removed@, pushed0, m as int);
                        assert(start_nodes@.take(stack0.len() - 1) =~= before.take(stack0.len() - 1));
                        assert forall|j: int|
                            #![trigger start_nodes@[j]]
                            stack0.len() - 1 <= j < start_nodes@.len() implies exists|f: int|
                                0 <= f < k + 1 && #[trigger] outs@[f].0 == start_nodes@[j] by {
                            if j == before.len() {
                                assert(outs@[k as int].0 == start_nodes@[j]);
                            } else {
                                assert(start_nodes@[j] == before[j]);
                            }
                        }
                        assert(pushed_from_outs(start_nodes@, stack0.len() - 1, outs@, k + 1));
                    }
                }
                proof {
                    lemma_kahn_advance(self, result@, start_nodes@, removed@, pushed, outs@, k as int, all_in_edges_marked);
                }
                k += 1;
            }
            proof {
                assert(outs@.take(k as int) =~= outs@);
                assert(stack0.last() == temp_node);
                assert(self.kahn_steps(result0, stack0, fuel0) == self.kahn_steps(
                    result@,
                    self.kahn_push(stack0.drop_last(), result@, outs@),
                    (fuel0 - 1) as nat,
                ));
                fuel = (fuel0 - 1) as nat;
            }
        }
        proof {
            assert(result@ == self.kahn_order());
            reveal(PenaltyGraph::kahn_state);
            assert forall|m: int| 0 <= m < n && self.sources_done(m, result@) implies #[trigger] result@.contains(m as usize) by {
                assert(pushed[m]);
            }
            if self.numbered_topologically() {
                lemma_topological_complete(self, result@, n as int);
            }
        }
        let mut v: usize = 0;
        while v < n
            invariant
                n == self.vertices@.len(),
                removed@.len() == n,
                v <= n,
                forall|x: int| 0 <= x < n ==> (#[trigger] removed@[x] <==> result@.contains(x as usize)),
                forall|x: int| 0 <= x < v ==> #[trigger] result@.contains(x as usize),
                self.numbered_topologically() ==> forall|m: int| 0 <= m < n ==> #[trigger] result@.contains(m as usize),
                forall|m: int| 0 <= m < n && self.sources_done(m, result@) ==> #[trigger] result@.contains(m as usize),
            decreases n - v,
        {
            if !removed[v] {
                proof {
                    if self.has_topological_order() {
                        let o = choose|o: Seq<usize>| self.is_topological_order(o);
                        lemma_order_taken(self, result@, o, o.len() as int);
                        assert(o.contains((v as int) as usize));
                        let j = choose|j: int| 0 <= j < o.len() && #[trigger] o[j] == v;
                        assert(result@.contains(o[j]));
                        assert(removed@[v as int]);
                    }
                }
                return None;
            }
            v += 1;
        }
        proof {
            assert(self.is_topological_order(result@));
        }
        Some(result)
    }
}

/// At most all entries of a flag list are unset.
proof fn lemma_count_false_len(s: Seq<bool>)
    ensures
        count_false(s) <= s.len(),
    decreases s.len(),
{
    if s.len() > 0 {
        lemma_count_false_len(s.drop_last());
    }
}

/// In the bookkeeping of the topological sort, the removed vertices are the
/// taken ones.
proof fn lemma_kahn_removed(g: &PenaltyGraph, result: Seq<usize>, stack: Seq<usize>, removed: Seq<bool>, pushed: Seq<bool>)
    requires
        g.kahn_state(result, stack, removed, pushed),
    ensures
        forall|x: int| 0 <= x < g.vertices@.len() ==> (#[trigger] removed[x] <==> result.contains(x as usize)),
{
    reveal(PenaltyGraph::kahn_state);
}

/// All sources of arcs entering `m` are marked exactly when they have all
/// been taken.
proof fn lemma_marked_is_done(g: &PenaltyGraph, m: int, result: Seq<usize>, removed: Seq<bool>)
    requires
        g.arcs_in_range(),
        0 <= m < g.vertices@.len(),
        removed.len() == g.vertices@.len(),
        forall|x: int| 0 <= x < g.vertices@.len() ==> (#[trigger] removed[x] <==> result.contains(x as usize)),
    ensures
        (forall|e: int|
            0 <= e < g.vertices@[m].InNeighbours@.len() ==> removed[#[trigger] g.vertices@[m].InNeighbours@[e].0 as int])
            <==> g.sources_done(m, result),
{
    assert forall|e: int| 0 <= e < g.vertices@[m].InNeighbours@.len() implies (removed[
        #[trigger] g.vertices@[m].InNeighbours@[e].0 as int] <==> result.contains(
        g.vertices@[m].InNeighbours@[e].0,
    )) by {
        let s = g.vertices@[m].InNeighbours@[e].0;
        assert(s < g.vertices@.len());
        assert((s as int) as usize == s);
    }
}

/// A vertex list that takes every vertex whose sources it has taken takes
/// the first `k` vertices of every topological order.
proof fn lemma_order_taken(g: &PenaltyGraph, res: Seq<usize>, o: Seq<usize>, k: int)
    requires
        g.is_topological_order(o),
        forall|m: int| 0 <= m < g.vertices@.len() && g.sources_done(m, res) ==> #[trigger] res.contains(m as usize),
        0 <= k <= o.len(),
    ensures
        forall|j: int| 0 <= j < k ==> res.contains(#[trigger] o[j]),
    decreases k,
{
    if k > 0 {
        lemma_order_taken(g, res, o, k - 1);
        let v = o[k - 1];
        assert(g.sources_done(v as int, o.take(k - 1)));
        assert forall|e: int| 0 <= e < g.vertices@[v as int].InNeighbours@.len() implies res.contains(
            #[trigger] g.vertices@[v as int].InNeighbours@[e].0,
        ) by {
            let s = g.vertices@[v as int].InNeighbours@[e].0;
            let pre = o.take(k - 1);
            assert(pre.contains(s));
            let j = choose|j: int| 0 <= j < pre.len() && #[trigger] pre[j] == s;
            assert(o[j] == s);
        }
        assert(v < g.vertices@.len());
        assert(g.sources_done(v as int, res));
        assert(res.contains((v as int) as usize));
        assert forall|j: int| 0 <= j < k implies res.contains(#[trigger] o[j]) by {
            if j < k - 1 {
            }
        }
    }
}

/// Putting a vertex without incoming arcs on the initial stack.
/// The stack entries from `lo` on are targets of the first `k` arcs in `outs`.
pub open spec fn pushed_from_outs(stack: Seq<usize>, lo: int, outs: Seq<(usize, u32)>, k: int) -> bool {
    forall|j: int|
        #![trigger stack[j]]
        lo <= j < stack.len() ==> exists|f: int| 0 <= f < k && #[trigger] outs[f].0 == stack[j]
}

proof fn lemma_kahn_start(g: &PenaltyGraph, before: Seq<usize>, removed: Seq<bool>, pushed0: Seq<bool>, i: int)
    requires
        g.kahn_state(Seq::empty(), before, removed, pushed0),
        0 <= i < g.vertices@.len(),
        !pushed0[i],
        g.vertices@[i].InNeighbours@.len() == 0,
    ensures
        g.kahn_state(Seq::empty(), before.push(i as usize), removed, pushed0.update(i, true)),
{
    reveal(PenaltyGraph::kahn_state);
    let after = before.push(i as usize);
    let pushed = pushed0.update(i, true);
    let n = g.vertices@.len();
    assert forall|x: int| 0 <= x < n implies (#[trigger] pushed[x] <==> (Seq::<usize>::empty().contains(x as usize) || after.contains(x as usize))) by {
        if x == i {
            assert(after[before.len() as int] == i);
        } else if after.contains(x as usize) {
            let j = choose|j: int| 0 <= j < after.len() && #[trigger] after[j] == x as usize;
            assert(before[j] == x);
        } else if before.contains(x as usize) {
            let j = choose|j: int| 0 <= j < before.len() && #[trigger] before[j] == x as usize;
            assert(after[j] == x);
        }
    }
    assert forall|j1: int, j2: int| 0 <= j1 < j2 < after.len() implies after[j1] != after[j2] by {
        if j2 == before.len() {
            assert(before.contains(before[j1]));
        }
    }
    assert forall|j: int| 0 <= j < after.len() implies g.sources_done(#[trigger] after[j] as int, Seq::empty()) by {
        if j < before.len() {
            assert(after[j] == before[j]);
        }
    }
}

/// A stacked vertex has all its sources taken and is not taken itself.
proof fn lemma_kahn_stack_elem(g: &PenaltyGraph, result: Seq<usize>, stack: Seq<usize>, removed: Seq<bool>, pushed: Seq<bool>, j: int)
    requires
        g.kahn_state(result, stack, removed, pushed),
        0 <= j < stack.len(),
    ensures
        g.sources_done(stack[j] as int, result),
        !result.contains(stack[j]),
        stack[j] < g.vertices@.len(),
        forall|i: int| 0 <= i < stack.len() ==> g.sources_done(#[trigger] stack[i] as int, result),
{
    reveal(PenaltyGraph::kahn_state);
    if result.contains(stack[j]) {
        let i = choose|i: int| 0 <= i < result.len() && #[trigger] result[i] == stack[j];
        assert(result[i] != stack[j]);
    }
}

/// Taking the top of the stack.
proof fn lemma_kahn_take(g: &PenaltyGraph, result0: Seq<usize>, stack0: Seq<usize>, removed0: Seq<bool>, pushed: Seq<bool>)
    requires
        g.kahn_state(result0, stack0, removed0, pushed),
        stack0.len() > 0,
        g.mirrored(),
        g.arcs_in_range(),
        forall|m: int| 0 <= m < g.vertices@.len() && g.sources_done(m, result0) ==> #[trigger] pushed[m],
    ensures
        ({
            let t = stack0.last();
            let result = result0.push(t);
            let stack = stack0.drop_last();
            &&& g.kahn_state(result, stack, removed0.update(t as int, true), pushed)
            &&& stack.take(stack0.len() - 1) == stack0.drop_last()
            &&& forall|m: int| 0 <= m < g.vertices@.len() && g.sources_done(m, result) ==> #[trigger] pushed[m]
                || exists|f: int| 0 <= f < g.vertices@[t as int].OutNeighbours@.len() && #[trigger] g.vertices@[t as int].OutNeighbours@[f].0 == m
        }),
{
    reveal(PenaltyGraph::kahn_state);
    let t = stack0.last();
    let result = result0.push(t);
    let stack = stack0.drop_last();
    let removed = removed0.update(t as int, true);
    let n = g.vertices@.len();
    lemma_kahn_stack_elem(g, result0, stack0, removed0, pushed, stack0.len() - 1);
    assert(stack.take(stack0.len() - 1) =~= stack);
    assert forall|x: int| 0 <= x < n implies (#[trigger] removed[x] <==> result.contains(x as usize)) by {
        if x == t {
            assert(result[result0.len() as int] == t);
        } else if result.contains(x as usize) {
            let j = choose|j: int| 0 <= j < result.len() && #[trigger] result[j] == x as usize;
            assert(result0[j] == x);
        } else if result0.contains(x as usize) {
            let j = choose|j: int| 0 <= j < result0.len() && #[trigger] result0[j] == x as usize;
            assert(result[j] == x);
        }
    }
    assert forall|x: int| 0 <= x < n implies (#[trigger] pushed[x] <==> (result.contains(x as usize) || stack.contains(x as usize))) by {
        if x == t {
            assert(result[result0.len() as int] == t);
        }
        if result.contains(x as usize) && x != t {
            let j = choose|j: int| 0 <= j < result.len() && #[trigger] result[j] == x as usize;
            assert(result0[j] == x);
        }
        if stack.contains(x as usize) {
            let j = choose|j: int| 0 <= j < stack.len() && #[trigger] stack[j] == x as usize;
            assert(stack0[j] == x);
        }
        if result0.contains(x as usize) {
            let j = choose|j: int| 0 <= j < result0.len() && #[trigger] result0[j] == x as usize;
            assert(result[j] == x);
        }
        if stack0.contains(x as usize) && x != t {
            let j = choose|j: int| 0 <= j < stack0.len() && #[trigger] stack0[j] == x as usize;
            assert(stack[j] == x);
        }
    }
    assert forall|j: int| 0 <= j < result.len() implies g.sources_done(#[trigger] result[j] as int, result.take(j)) by {
        if j < result0.len() {
            assert(result.take(j) =~= result0.take(j));
        } else {
            assert(result.take(j) =~= result0);
        }
    }
    assert forall|j: int| 0 <= j < stack.len() implies g.sources_done(#[trigger] stack[j] as int, result) by {
        assert(stack0[j] == stack[j]);
        assert(g.sources_done(stack0[j] as int, result0));
        assert forall|e: int| 0 <= e < g.vertices@[stack[j] as int].InNeighbours@.len() implies result.contains(
            #[trigger] g.vertices@[stack[j] as int].InNeighbours@[e].0,
        ) by {
            let x = g.vertices@[stack[j] as int].InNeighbours@[e].0;
            let i = choose|i: int| 0 <= i < result0.len() && #[trigger] result0[i] == x;
            assert(result[i] == x);
        }
    }
    assert forall|j1: int, j2: int| 0 <= j1 < j2 < result.len() implies result[j1] != result[j2] by {
        if j2 == result0.len() {
            assert(result0.contains(result0[j1]));
        }
    }
    assert forall|j1: int, j2: int| 0 <= j1 < result.len() && 0 <= j2 < stack.len() implies result[j1] != stack[j2] by {
        assert(stack[j2] == stack0[j2]);
        if j1 == result0.len() {
            assert(stack0[j2] != stack0[stack0.len() - 1]);
        }
    }
    assert forall|m: int| 0 <= m < n && g.sources_done(m, result) implies #[trigger] pushed[m]
        || exists|f: int| 0 <= f < g.vertices@[t as int].OutNeighbours@.len() && #[trigger] g.vertices@[t as int].OutNeighbours@[f].0 == m by {
        if exists|e: int| 0 <= e < g.vertices@[m].InNeighbours@.len()
            && #[trigger] g.vertices@[m].InNeighbours@[e].0 == t {
            let e = choose|e: int| 0 <= e < g.vertices@[m].InNeighbours@.len()
                && #[trigger] g.vertices@[m].InNeighbours@[e].0 == t;
            assert(g.vertices@[m].InNeighbours@[e].0 == t);
        } else {
            assert forall|e: int| 0 <= e < g.vertices@[m].InNeighbours@.len() implies result0.contains(
                #[trigger] g.vertices@[m].InNeighbours@[e].0,
            ) by {
                let x = g.vertices@[m].InNeighbours@[e].0;
                assert(result.contains(x));
                let j = choose|j: int| 0 <= j < result.len() && #[trigger] result[j] == x;
                assert(j < result0.len());
                assert(result0[j] == x);
            }
        }
    }
}

/// The target of the `k`-th outgoing arc of the taken vertex `t` has not been
/// pushed yet.
#[verifier::rlimit(60)]
proof fn lemma_kahn_fresh(
    g: &PenaltyGraph,
    result0: Seq<usize>,
    t: usize,
    stack0: Seq<usize>,
    stack: Seq<usize>,
    removed: Seq<bool>,
    pushed: Seq<bool>,
    outs: Seq<(usize, u32)>,
    k: int,
)
    requires
        outs == g.vertices@[t as int].OutNeighbours@,
        g.kahn_state(result0.push(t), stack, removed, pushed),
        g.mirrored(),
        g.out_targets_distinct(),
        g.arcs_in_range(),
        t < g.vertices@.len(),
        0 <= k < outs.len(),
        !result0.contains(t),
        stack0.len() > 0,
        stack0.last() == t,
        forall|j: int| 0 <= j < stack0.len() ==> g.sources_done(#[trigger] stack0[j] as int, result0),
        stack.len() >= stack0.len() - 1,
        stack.take(stack0.len() - 1) == stack0.drop_last(),
        pushed_from_outs(stack, stack0.len() - 1, outs, k),
    ensures
        !pushed[outs[k].0 as int],
{
    reveal(PenaltyGraph::kahn_state);
    let result = result0.push(t);
    let m = outs[k].0;
    let e = choose|e: int| 0 <= e < g.vertices@[m as int].InNeighbours@.len()
        && #[trigger] g.vertices@[m as int].InNeighbours@[e].0 == t;
    assert(g.vertices@[m as int].InNeighbours@[e].0 == t);
    if result.contains(m) {
        let j = choose|j: int| 0 <= j < result.len() && #[trigger] result[j] == m;
        if j < result0.len() {
            assert(result0[j] == m);
            assert(g.sources_done(result[j] as int, result.take(j)));
            assert(result.take(j).contains(t));
            let j2 = choose|j2: int| 0 <= j2 < j && #[trigger] result.take(j)[j2] == t;
            assert(result0[j2] == t);
        } else {
            assert(m == t);
            assert(g.sources_done(stack0[stack0.len() - 1] as int, result0));
            assert(result0.contains(t));
        }
        assert(false);
    }
    if stack.contains(m) {
        let j = choose|j: int| 0 <= j < stack.len() && #[trigger] stack[j] == m;
        if j < stack0.len() - 1 {
            assert(stack.take(stack0.len() - 1)[j] == m);
            assert(stack0[j] == m);
            assert(g.sources_done(stack0[j] as int, result0));
            assert(result0.contains(t));
        } else {
            let f = choose|f: int| 0 <= f < k && #[trigger] outs[f].0 == stack[j];
            assert(outs[f].0 == outs[k].0);
        }
        assert(false);
    }
}

/// Pushing a vertex whose sources are all taken.
proof fn lemma_kahn_push(g: &PenaltyGraph, result: Seq<usize>, before: Seq<usize>, removed: Seq<bool>, pushed0: Seq<bool>, m: int)
    requires
        g.kahn_state(result, before, removed, pushed0),
        0 <= m < g.vertices@.len(),
        !pushed0[m],
        g.arcs_in_range(),
        forall|e: int|
            0 <= e < g.vertices@[m].InNeighbours@.len() ==> removed[#[trigger] g.vertices@[m].InNeighbours@[e].0 as int],
    ensures
        g.kahn_state(result, before.push(m as usize), removed, pushed0.update(m, true)),
        g.sources_done(m, result),
{
    reveal(PenaltyGraph::kahn_state);
    let after = before.push(m as usize);
    let pushed = pushed0.update(m, true);
    let n = g.vertices@.len();
    assert forall|e: int| 0 <= e < g.vertices@[m].InNeighbours@.len() implies result.contains(
        #[trigger] g.vertices@[m].InNeighbours@[e].0,
    ) by {
        assert(removed[g.vertices@[m].InNeighbours@[e].0 as int]);
        assert(g.vertices@[m].InNeighbours@[e].0 < n);
    }
    assert forall|x: int| 0 <= x < n implies (#[trigger] pushed[x] <==> (result.contains(x as usize) || after.contains(x as usize))) by {
        if x == m {
            assert(after[before.len() as int] == m);
        } else {
            if after.contains(x as usize) {
                let j = choose|j: int| 0 <= j < after.len() && #[trigger] after[j] == x as usize;
                assert(before[j] == x);
            }
            if before.contains(x as usize) {
                let j = choose|j: int| 0 <= j < before.len() && #[trigger] before[j] == x as usize;
                assert(after[j] == x);
            }
        }
    }
    assert forall|j1: int, j2: int| 0 <= j1 < j2 < after.len() implies after[j1] != after[j2] by {
        if j2 == before.len() {
            assert(before.contains(before[j1]));
        }
    }
    assert forall|j1: int, j2: int| 0 <= j1 < result.len() && 0 <= j2 < after.len() implies result[j1] != after[j2] by {
        if j2 == before.len() {
            assert(result.contains(result[j1]));
        } else {
            assert(after[j2] == before[j2]);
        }
    }
    assert forall|j: int| 0 <= j < after.len() implies g.sources_done(#[trigger] after[j] as int, result) by {
        if j < before.len() {
            assert(after[j] == before[j]);
        }
    }
}

/// After looking at the `k`-th outgoing arc of the taken vertex.
proof fn lemma_kahn_advance(g: &PenaltyGraph, result: Seq<usize>, stack: Seq<usize>, removed: Seq<bool>, pushed: Seq<bool>, outs: Seq<(usize, u32)>, k: int, marked: bool)
    requires
        0 <= k < outs.len(),
        outs[k].0 < g.vertices@.len(),
        g.kahn_state(result, stack, removed, pushed),
        g.arcs_in_range(),
        marked == forall|e: int|
            0 <= e < g.vertices@[outs[k].0 as int].InNeighbours@.len() ==> removed[#[trigger] g.vertices@[outs[k].0 as int].InNeighbours@[e].0 as int],
        marked ==> pushed[outs[k].0 as int],
        forall|m: int| 0 <= m < g.vertices@.len() && g.sources_done(m, result) ==> #[trigger] pushed[m]
            || exists|f: int| k <= f < outs.len() && #[trigger] outs[f].0 == m,
    ensures
        forall|m: int| 0 <= m < g.vertices@.len() && g.sources_done(m, result) ==> #[trigger] pushed[m]
            || exists|f: int| k + 1 <= f < outs.len() && #[trigger] outs[f].0 == m,
{
    reveal(PenaltyGraph::kahn_state);
    assert forall|m: int| 0 <= m < g.vertices@.len() && g.sources_done(m, result) implies #[trigger] pushed[m]
        || exists|f: int| k + 1 <= f < outs.len() && #[trigger] outs[f].0 == m by {
        if !pushed[m] && !(exists|f: int| k + 1 <= f < outs.len() && #[trigger] outs[f].0 == m) {
            let f = choose|f: int| k <= f < outs.len() && #[trigger] outs[f].0 == m;
            assert(f == k);
            assert forall|e: int| 0 <= e < g.vertices@[m].InNeighbours@.len() implies removed[
                #[trigger] g.vertices@[m].InNeighbours@[e].0 as int] by {
                assert(result.contains(g.vertices@[m].InNeighbours@[e].0));
                assert(g.vertices@[m].InNeighbours@[e].0 < g.vertices@.len());
            }
        }
    }
}

proof fn lemma_count_false_update(s: Seq<bool>, i: int)
    requires
        0 <= i < s.len(),
        !s[i],
    ensures
        count_false(s.update(i, true)) + 1 == count_false(s),
    decreases s.len(),
{
    if i < s.len() - 1 {
        lemma_count_false_update(s.drop_last(), i);
        assert(s.update(i, true).drop_last() =~= s.drop_last().update(i, true));
    } else {
        assert(s.update(i, true).drop_last() =~= s.drop_last());
    }
}

/// When every arc goes to a larger number and every vertex whose sources are
/// all taken is taken, every vertex below `v` is taken.
proof fn lemma_topological_complete(g: &PenaltyGraph, res: Seq<usize>, v: int)
    requires
        g.numbered_topologically(),
        0 <= v <= g.vertices@.len(),
        forall|m: int| 0 <= m < g.vertices@.len() && g.sources_done(m, res) ==> #[trigger] res.contains(m as usize),
    ensures
        forall|m: int| 0 <= m < v ==> #[trigger] res.contains(m as usize),
    decreases v,
{
    if v > 0 {
        lemma_topological_complete(g, res, v - 1);
        assert forall|e: int| 0 <= e < g.vertices@[v - 1].InNeighbours@.len() implies res.contains(
            #[trigger] g.vertices@[v - 1].InNeighbours@[e].0,
        ) by {
            let x = g.vertices@[v - 1].InNeighbours@[e].0;
            assert(x < v - 1);
            assert(res.contains(x as int as usize));
        }
        assert(res.contains((v - 1) as usize));
    }
}

/// `(key, vertex)` pairs ordered by key, then by vertex.
pub open spec fn pair_le(a: (i64, usize), b: (i64, usize)) -> bool {
    a.0 < b.0 || (a.0 == b.0 && a.1 <= b.1)
}

/// Sorts `(key, vertex)` pairs in ascending order (`slice::sort`, which
/// orders tuples lexicographically); the entries stay the same.
#[verifier::external_body]
fn sort_pairs(v: &mut Vec<(i64, usize)>)
    ensures
        final(v)@.to_multiset() == old(v)@.to_multiset(),
        forall|i: int, j: int| 0 <= i < j < final(v)@.len() ==> pair_le(final(v)@[i], final(v)@[j]),
{
    v.sort();
}


/// An `u32` read as an `i32` (two's complement).
pub open spec fn wrap_i32(x: u32) -> int {
    if x <= i32::MAX {
        x as int
    } else {
        x - 4294967296
    }
}

/// Under the heuristic, vertex `a` may stand before vertex `b` among the
/// vertices with incoming and outgoing arcs: `a` has at least the surplus of
/// outgoing over incoming arcs (Eades), at least as many outgoing arcs, or
/// at least their weight (forward), at most as many incoming arcs, or at
/// most their weight where it fits in an `i32` (backward), or Baharev's key
/// at least that of `b`.
pub open spec fn comes_no_later(heur: VertexArcBaseHeuristic, a: PenaltyGraphVertex, b: PenaltyGraphVertex) -> bool {
    let oa = a.OutNeighbours@.len() as int;
    let ia = a.InNeighbours@.len() as int;
    let ob = b.OutNeighbours@.len() as int;
    let ib = b.InNeighbours@.len() as int;
    match heur {
        VertexArcBaseHeuristic::Eades => oa - ia >= ob - ib,
        VertexArcBaseHeuristic::EadesForward => oa >= ob,
        VertexArcBaseHeuristic::EadesForward_Weighted => weight_sum(a.OutNeighbours@) >= weight_sum(b.OutNeighbours@),
        VertexArcBaseHeuristic::EadesBackward => ia <= ib,
        VertexArcBaseHeuristic::EadesBackward_Weighted => weight_sum(a.InNeighbours@) <= i32::MAX && weight_sum(
            b.InNeighbours@,
        ) <= i32::MAX ==> weight_sum(a.InNeighbours@) <= weight_sum(b.InNeighbours@),
        VertexArcBaseHeuristic::Baharev => baharev_key_spec(oa as nat, ia as nat) >= baharev_key_spec(
            ob as nat,
            ib as nat,
        ),
    }
}

/// In an Eades order, the vertices with incoming and outgoing arcs come as
/// `comes_no_later` asks.
proof fn lemma_middle_comes_no_later(
    g: &PenaltyGraph,
    heur: VertexArcBaseHeuristic,
    order: Seq<usize>,
    res: Seq<&PenaltyGraphVertex>,
)
    requires
        g.lists_in_eades_order(heur, order, res),
    ensures
        forall|i: int, j: int|
            g.head_vertices().len() <= i < j < g.head_vertices().len() + g.middle_vertices().len()
                ==> comes_no_later(heur, *#[trigger] res[i], *#[trigger] res[j]),
{
    let h = g.head_vertices().len() as int;
    let ml = g.middle_vertices().len() as int;
    let mid = order.subrange(h, h + ml);
    assert forall|i: int, j: int| h <= i < j < h + ml implies comes_no_later(heur, *#[trigger] res[i], *#[trigger] res[j]) by {
        assert(mid[i - h] == order[i]);
        assert(mid[j - h] == order[j]);
        let a = g.vertices@[order[i] as int];
        let b = g.vertices@[order[j] as int];
        assert(*res[i] == a);
        assert(*res[j] == b);
        assert(eades_key(a, heur) >= eades_key(b, heur));
        if heur is EadesBackward_Weighted {
            if weight_sum(a.InNeighbours@) <= i32::MAX && weight_sum(b.InNeighbours@) <= i32::MAX {
                lemma_weight_sum_prefix(a.InNeighbours@, a.InNeighbours@.len() as int);
                lemma_weight_sum_prefix(b.InNeighbours@, b.InNeighbours@.len() as int);
                assert(wrap_i32(weight_sum(a.InNeighbours@) as u32) == weight_sum(a.InNeighbours@));
                assert(wrap_i32(weight_sum(b.InNeighbours@) as u32) == weight_sum(b.InNeighbours@));
            }
        }
    }
}

/// Sort key of a vertex under a heuristic; vertices are ordered by decreasing
/// key.
pub open spec fn eades_key(v: PenaltyGraphVertex, heur: VertexArcBaseHeuristic) -> int {
    let outs = v.OutNeighbours@.len() as int;
    let ins = v.InNeighbours@.len() as int;
    match heur {
        VertexArcBaseHeuristic::Eades => outs - ins,
        VertexArcBaseHeuristic::EadesForward => outs,
        VertexArcBaseHeuristic::EadesForward_Weighted => weight_sum(v.OutNeighbours@),
        VertexArcBaseHeuristic::EadesBackward => -ins,
        VertexArcBaseHeuristic::EadesBackward_Weighted => -wrap_i32(weight_sum(v.InNeighbours@) as u32),
        VertexArcBaseHeuristic::Baharev => baharev_key_spec(outs as nat, ins as nat),
    }
}

/// The key of the vertex can be computed: arc counts fit in an `i32`, the
/// weights summed fit in a `u32`, and the negated weight fits in an `i32`.
pub open spec fn eades_key_defined(v: PenaltyGraphVertex, heur: VertexArcBaseHeuristic) -> bool {
    &&& v.OutNeighbours@.len() <= i32::MAX
    &&& v.InNeighbours@.len() <= i32::MAX
    &&& (heur is EadesForward_Weighted ==> weight_sum(v.OutNeighbours@) <= u32::MAX)
    &&& (heur is EadesBackward_Weighted ==> weight_sum(v.InNeighbours@) <= u32::MAX && weight_sum(
        v.InNeighbours@,
    ) != 2147483648)
}

impl PenaltyGraph {
    /// Vertices without incoming arcs, in order.
    pub open spec fn head_vertices(&self) -> Seq<usize> {
        vertex_indices(self.vertices@.len() as int).filter(
            |i: usize| self.vertices@[i as int].InNeighbours@.len() == 0,
        )
    }

    /// Vertices with incoming but without outgoing arcs, in order.
    pub open spec fn tail_vertices(&self) -> Seq<usize> {
        vertex_indices(self.vertices@.len() as int).filter(
            |i: usize|
                self.vertices@[i as int].InNeighbours@.len() > 0
                    && self.vertices@[i as int].OutNeighbours@.len() == 0,
        )
    }

    /// Vertices with incoming and outgoing arcs, in order.
    pub open spec fn middle_vertices(&self) -> Seq<usize> {
        vertex_indices(self.vertices@.len() as int).filter(
            |i: usize|
                self.vertices@[i as int].InNeighbours@.len() > 0
                    && self.vertices@[i as int].OutNeighbours@.len() > 0,
        )
    }

    /// `order` lists the vertices without incoming arcs first, in order, then
    /// the others that have outgoing arcs by decreasing key (ties: larger
    /// number first), then the rest in order.
    pub open spec fn is_eades_order(&self, heur: VertexArcBaseHeuristic, order: Seq<usize>) -> bool {
        let h = self.head_vertices();
        let m = self.middle_vertices();
        let t = self.tail_vertices();
        let mid = order.subrange(h.len() as int, (h.len() + m.len()) as int);
        &&& order.len() == h.len() + m.len() + t.len()
        &&& order.subrange(0, h.len() as int) == h
        &&& order.subrange((h.len() + m.len()) as int, order.len() as int) == t
        &&& forall|x: usize| #[trigger] mid.contains(x) <==> m.contains(x)
        &&& forall|i: int, j: int|
            0 <= i < j < mid.len() ==> eades_key(self.vertices@[mid[i] as int], heur) > eades_key(
                self.vertices@[mid[j] as int],
                heur,
            ) || (eades_key(self.vertices@[mid[i] as int], heur) == eades_key(
                self.vertices@[mid[j] as int],
                heur,
            ) && mid[i] > mid[j])
    }

    /// Every vertex with incoming and outgoing arcs has a computable key.
    pub open spec fn eades_keys_defined(&self, heur: VertexArcBaseHeuristic) -> bool {
        forall|i: int|
            0 <= i < self.vertices@.len() && self.vertices@[i].InNeighbours@.len() > 0
                && self.vertices@[i].OutNeighbours@.len() > 0 ==> eades_key_defined(
                #[trigger] self.vertices@[i],
                heur,
            )
    }

    fn eades_key_of(&self, i: usize, heur: &VertexArcBaseHeuristic) -> (res: i64)
        requires
            i < self.vertices@.len(),
            self.vertices@[i as int].InNeighbours@.len() > 0,
            eades_key_defined(self.vertices@[i as int], *heur),
        ensures
            res == eades_key(self.vertices@[i as int], *heur),
    {
        let v = &self.vertices[i];
        let outs = v.OutNeighbours.len() as i64;
        let ins = v.InNeighbours.len() as i64;
        match heur {
            VertexArcBaseHeuristic::Eades => outs - ins,
            VertexArcBaseHeuristic::EadesForward => outs,
            VertexArcBaseHeuristic::EadesForward_Weighted => v.GetOutWeightSum() as i64,
            VertexArcBaseHeuristic::EadesBackward => -ins,
            VertexArcBaseHeuristic::EadesBackward_Weighted => {
                let sum = v.GetInWeightSum();
                let wrapped: i64 = if sum <= 2147483647 {
                    sum as i64
                } else {
                    sum as i64 - 4294967296
                };
                -wrapped
            },
            VertexArcBaseHeuristic::Baharev => baharev_key(v.OutNeighbours.len(), v.InNeighbours.len()),
        }
    }

    /// Vertex order of the feedback arc set heuristic of Eades et al.: see
    /// `is_eades_order`.
    fn eades_order(&self, heur: &VertexArcBaseHeuristic) -> (res: Vec<usize>)
        requires
            self.eades_keys_defined(*heur),
        ensures
            self.is_eades_order(*heur, res@),
            forall|k: int| 0 <= k < res@.len() ==> #[trigger] res@[k] < self.vertices@.len(),
    {
        let n = self.vertices.len();
        let ghost idx = vertex_indices(n as int);
        let ghost ph = |i: usize| self.vertices@[i as int].InNeighbours@.len() == 0;
        let ghost pt = |i: usize|
            self.vertices@[i as int].InNeighbours@.len() > 0
                && self.vertices@[i as int].OutNeighbours@.len() == 0;
        let ghost pm = |i: usize|
            self.vertices@[i as int].InNeighbours@.len() > 0
                && self.vertices@[i as int].OutNeighbours@.len() > 0;
        let mut head: Vec<usize> = Vec::new();
        let mut tail: Vec<usize> = Vec::new();
        let mut middle: Vec<(i64, usize)> = Vec::new();
        let mut i: usize = 0;
        while i < n
            invariant
                n == self.vertices@.len(),
                idx == vertex_indices(n as int),
                self.eades_keys_defined(*heur),
                ph == (|i: usize| self.vertices@[i as int].InNeighbours@.len() == 0),
                pt == (|i: usize|
                    self.vertices@[i as int].InNeighbours@.len() > 0
                        && self.vertices@[i as int].OutNeighbours@.len() == 0),
                pm == (|i: usize|
                    self.vertices@[i as int].InNeighbours@.len() > 0
                        && self.vertices@[i as int].OutNeighbours@.len() > 0),
                i <= n,
                head@ == idx.take(i as int).filter(ph),
                tail@ == idx.take(i as int).filter(pt),
                middle@.map_values(|p: (i64, usize)| p.1) == idx.take(i as int).filter(pm),
                forall|k: int|
                    0 <= k < middle@.len() ==> #[trigger] middle@[k].0 == eades_key(
                        self.vertices@[middle@[k].1 as int],
                        *heur,
                    ),
            decreases n - i,
        {
            proof {
                reveal_with_fuel(Seq::filter, 1);
                assert(idx.take(i + 1).drop_last() =~= idx.take(i as int));
                assert(idx.take(i + 1).last() == i);
            }
            let v = &self.vertices[i];
            if v.InNeighbours.len() == 0 {
                head.push(i);
            } else if v.OutNeighbours.len() == 0 {
                tail.push(i);
            } else {
                let key = self.eades_key_of(i, heur);
                let ghost before = middle@;
                middle.push((key, i));
                proof {
                    assert(middle@.map_values(|p: (i64, usize)| p.1) =~= before.map_values(
                        |p: (i64, usize)| p.1,
                    ).push(i));
                }
            }
            i += 1;
        }
        proof {
            assert(idx.take(n as int) =~= idx);
        }
        let ghost unsorted = middle@;
        sort_pairs(&mut middle);
        let mut res: Vec<usize> = Vec::new();
        let mut k: usize = 0;
        while k < head.len()
            invariant
                k <= head@.len(),
                res@ == head@.take(k as int),
            decreases head@.len() - k,
        {
            res.push(head[k]);
            k += 1;
            proof {
                assert(res@ =~= head@.take(k as int));
            }
        }
        let hl = head.len();
        let ml = middle.len();
        let mut k: usize = 0;
        while k < ml
            invariant
                ml == middle@.len(),
                hl == head@.len(),
                k <= ml,
                res@.len() == hl + k,
                res@.take(hl as int) == head@.take(hl as int),
                forall|j: int| 0 <= j < k ==> #[trigger] res@[hl + j] == middle@[ml - 1 - j].1,
            decreases ml - k,
        {
            res.push(middle[ml - 1 - k].1);
            k += 1;
            proof {
                assert(res@.take(hl as int) =~= res@.drop_last().take(hl as int));
            }
        }
        let mut k: usize = 0;
        while k < tail.len()
            invariant
                ml == middle@.len(),
                hl == head@.len(),
                k <= tail@.len(),
                res@.len() == hl + ml + k,
                res@.take(hl as int) == head@.take(hl as int),
                forall|j: int| 0 <= j < ml ==> #[trigger] res@[hl + j] == middle@[ml - 1 - j].1,
                res@.subrange((hl + ml) as int, res@.len() as int) == tail@.take(k as int),
            decreases tail@.len() - k,
        {
            let ghost before = res@;
            res.push(tail[k]);
            k += 1;
            proof {
                assert(res@.take(hl as int) =~= before.take(hl as int));
                assert(res@.subrange((hl + ml) as int, res@.len() as int) =~= tail@.take(k as int));
            }
        }
        proof {
            broadcast use vstd::seq_lib::group_to_multiset_ensures;

            let h = self.head_vertices();
            let m = self.middle_vertices();
            let t = self.tail_vertices();
            assert((|i: usize| self.vertices@[i as int].InNeighbours@.len() == 0) == ph);
            assert(head@ == h);
            assert(tail@ == t);
            let um = unsorted.map_values(|p: (i64, usize)| p.1);
            assert(um == m);
            assert(ml == m.len()) by {
                assert(unsorted.to_multiset().len() == middle@.to_multiset().len());
            }
            assert(res@.subrange(0, h.len() as int) =~= h) by {
                assert(head@.take(hl as int) =~= head@);
            }
            assert(tail@.take(tail@.len() as int) =~= tail@);
            let mid = res@.subrange(h.len() as int, (h.len() + m.len()) as int);
            // the middle entries are the middle vertices
            assert forall|x: usize| #[trigger] mid.contains(x) <==> m.contains(x) by {
                if mid.contains(x) {
                    let j = choose|j: int| 0 <= j < mid.len() && #[trigger] mid[j] == x;
                    let p = middle@[ml - 1 - j];
                    assert(res@[hl + j] == p.1);
                    assert(middle@.contains(p));
                    assert(middle@.to_multiset().count(p) > 0);
                    assert(unsorted.to_multiset().count(p) > 0);
                    assert(unsorted.contains(p));
                    let q = choose|q: int| 0 <= q < unsorted.len() && #[trigger] unsorted[q] == p;
                    assert(um[q] == x);
                }
                if m.contains(x) {
                    let q = choose|q: int| 0 <= q < um.len() && #[trigger] um[q] == x;
                    let p = unsorted[q];
                    assert(unsorted.contains(p));
                    assert(unsorted.to_multiset().count(p) > 0);
                    assert(middle@.to_multiset().count(p) > 0);
                    assert(middle@.contains(p));
                    let r = choose|r: int| 0 <= r < middle@.len() && #[trigger] middle@[r] == p;
                    assert(um[q] == unsorted[q].1);
                    assert(res@[hl + (ml - 1 - r)] == middle@[ml - 1 - (ml - 1 - r)].1);
                    assert(mid[ml - 1 - r] == x);
                }
            }
            // distinct vertices in the middle: sorting keeps them distinct
            lemma_filter_indices_distinct(idx, pm);
            assert forall|a: int, b: int| 0 <= a < b < unsorted.len() implies unsorted[a] != unsorted[b] by {
                assert(um[a] < um[b]);
            }
            assert forall|a: int, b: int| 0 <= a < b < middle@.len() implies middle@[a].1 != middle@[b].1 by {
                assert(middle@.contains(middle@[a]));
                assert(middle@.contains(middle@[b]));
                lemma_perm_contains(middle@, unsorted, middle@[a]);
                lemma_perm_contains(middle@, unsorted, middle@[b]);
                let qa = choose|q: int| 0 <= q < unsorted.len() && #[trigger] unsorted[q] == middle@[a];
                let qb = choose|q: int| 0 <= q < unsorted.len() && #[trigger] unsorted[q] == middle@[b];
                assert(um[qa] == middle@[a].1);
                assert(um[qb] == middle@[b].1);
                if middle@[a].1 == middle@[b].1 {
                    if qa < qb {
                        assert(um[qa] < um[qb]);
                    } else if qb < qa {
                        assert(um[qb] < um[qa]);
                    }
                    assert(middle@[a] == middle@[b]);
                    lemma_sorted_pairs_distinct(middle@, unsorted, a, b);
                }
            }
            assert forall|i: int, j: int| 0 <= i < j < mid.len() implies eades_key(self.vertices@[mid[i] as int], *heur) > eades_key(
                self.vertices@[mid[j] as int],
                *heur,
            ) || (eades_key(self.vertices@[mid[i] as int], *heur) == eades_key(
                self.vertices@[mid[j] as int],
                *heur,
            ) && mid[i] > mid[j]) by {
                let a = ml - 1 - j;
                let b = ml - 1 - i;
                assert(pair_le(middle@[a], middle@[b]));
                assert(res@[hl + i] == middle@[b].1);
                assert(res@[hl + j] == middle@[a].1);
                assert(middle@.contains(middle@[a]));
                lemma_perm_contains(middle@, unsorted, middle@[a]);
                assert(middle@.contains(middle@[b]));
                lemma_perm_contains(middle@, unsorted, middle@[b]);
                let qa = choose|q: int| 0 <= q < unsorted.len() && #[trigger] unsorted[q] == middle@[a];
                let qb = choose|q: int| 0 <= q < unsorted.len() && #[trigger] unsorted[q] == middle@[b];
                assert(middle@[a].0 == eades_key(self.vertices@[middle@[a].1 as int], *heur));
                assert(middle@[b].0 == eades_key(self.vertices@[middle@[b].1 as int], *heur));
            }
            assert forall|k: int| 0 <= k < res@.len() implies #[trigger] res@[k] < self.vertices@.len() by {
                assert forall|j: int| 0 <= j < idx.len() implies #[trigger] idx[j] < idx.len() by {}
                if k < hl {
                    assert(res@.take(hl as int)[k] == head@[k]);
                    lemma_filter_indices_bound(idx, ph, k);
                } else if k < hl + ml {
                    let p = middle@[ml - 1 - (k - hl)];
                    assert(middle@.contains(p));
                    lemma_perm_contains(middle@, unsorted, p);
                    assert(res@[hl + (k - hl)] == p.1);
                    let q = choose|q: int| 0 <= q < unsorted.len() && #[trigger] unsorted[q] == p;
                    assert(um[q] == p.1);
                    lemma_filter_indices_bound(idx, pm, q);
                } else {
                    assert(res@.subrange((hl + ml) as int, res@.len() as int)[k - hl - ml] == tail@[k - hl - ml]);
                    lemma_filter_indices_bound(idx, pt, k - hl - ml);
                }
            }
        }
        res
    }

    /// Orders the vertices by the feedback arc set heuristic of Eades et
    /// al. (see `is_eades_order`).  Among the vertices with incoming and
    /// outgoing arcs, which stand after those without incoming arcs, a vertex
    /// never follows one it should precede (`comes_no_later`).
    pub fn sort_eads_heuristic(&self, heur: VertexArcBaseHeuristic) -> (res: Vec<&PenaltyGraphVertex>)
        requires
            self.eades_keys_defined(heur),
        ensures
            exists|order: Seq<usize>| self.lists_in_eades_order(heur, order, res@),
            forall|i: int, j: int|
                self.head_vertices().len() <= i < j < self.head_vertices().len() + self.middle_vertices().len()
                    ==> comes_no_later(heur, *#[trigger] res@[i], *#[trigger] res@[j]),
    {
        let order = self.eades_order(&heur);
        let mut res: Vec<&PenaltyGraphVertex> = Vec::new();
        let mut k: usize = 0;
        while k < order.len()
            invariant
                k <= order@.len(),
                forall|j: int| 0 <= j < order@.len() ==> #[trigger] order@[j] < self.vertices@.len(),
                res@.len() == k,
                forall|j: int| 0 <= j < k ==> *#[trigger] res@[j] == self.vertices@[order@[j] as int],
            decreases order@.len() - k,
        {
            res.push(&self.vertices[order[k]]);
            k += 1;
        }
        proof {
            assert(self.lists_in_eades_order(heur, order@, res@));
            lemma_middle_comes_no_later(self, heur, order@, res@);
        }
        res
    }

    /// `res` lists the vertices in the order `order`, an Eades order.
    pub open spec fn lists_in_eades_order(
        &self,
        heur: VertexArcBaseHeuristic,
        order: Seq<usize>,
        res: Seq<&PenaltyGraphVertex>,
    ) -> bool {
        &&& self.is_eades_order(heur, order)
        &&& order.len() == res.len()
        &&& forall|k: int|
            0 <= k < order.len() ==> order[k] < self.vertices@.len() && *#[trigger] res[k]
                == self.vertices@[order[k] as int]
    }
}

/// Entries kept from the vertex numbers are vertex numbers.
proof fn lemma_filter_indices_bound(idx: Seq<usize>, p: spec_fn(usize) -> bool, k: int)
    requires
        forall|j: int| 0 <= j < idx.len() ==> #[trigger] idx[j] < idx.len(),
        0 <= k < idx.filter(p).len(),
    ensures
        idx.filter(p)[k] < idx.len(),
{
    broadcast use vstd::seq_lib::group_filter_ensures;

    let x = idx.filter(p)[k];
    assert(idx.filter(p).contains(x));
    idx.lemma_filter_contains_rev(p, x);
}

/// Filtering keeps a list increasing.
pub proof fn lemma_filter_indices_distinct(idx: Seq<usize>, p: spec_fn(usize) -> bool)
    requires
        forall|a: int, b: int| 0 <= a < b < idx.len() ==> idx[a] < idx[b],
    ensures
        forall|a: int, b: int| 0 <= a < b < idx.filter(p).len() ==> idx.filter(p)[a] < idx.filter(p)[b],
    decreases idx.len(),
{
    reveal_with_fuel(Seq::filter, 1);
    if idx.len() > 0 {
        lemma_filter_indices_distinct(idx.drop_last(), p);
        let f = idx.drop_last().filter(p);
        if p(idx.last()) {
            assert forall|a: int| 0 <= a < f.len() implies f[a] < idx.last() by {
                broadcast use vstd::seq_lib::group_filter_ensures;

                assert(f.contains(f[a]));
                idx.drop_last().lemma_filter_contains_rev(p, f[a]);
                let j = choose|j: int| 0 <= j < idx.drop_last().len() && idx.drop_last()[j] == f[a];
                assert(idx[j] < idx[idx.len() - 1]);
            }
        }
    }
}

/// Rearranging keeps the entries.
proof fn lemma_perm_contains(a: Seq<(i64, usize)>, b: Seq<(i64, usize)>, x: (i64, usize))
    requires
        a.to_multiset() == b.to_multiset(),
        a.contains(x),
    ensures
        b.contains(x),
{
    broadcast use vstd::seq_lib::group_to_multiset_ensures;

    assert(a.to_multiset().count(x) > 0);
}

/// Two equal entries of a sorted permutation of a duplicate-free list are the
/// same entry.
proof fn lemma_sorted_pairs_distinct(sorted: Seq<(i64, usize)>, orig: Seq<(i64, usize)>, a: int, b: int)
    requires
        sorted.to_multiset() == orig.to_multiset(),
        forall|i: int, j: int| 0 <= i < j < orig.len() ==> orig[i] != orig[j],
        0 <= a < b < sorted.len(),
    ensures
        sorted[a] != sorted[b],
{
    broadcast use vstd::seq_lib::group_to_multiset_ensures;

    orig.lemma_multiset_has_no_duplicates();
    sorted.lemma_multiset_has_no_duplicates_conv();
}

} // verus!
