//! The interconnection matrix between the fixed and the loose layer, stored
//! sparsely as one sorted list of fixed positions per loose vertex.
use vstd::prelude::*;
use crate::problem::GraphInput;
use crate::permutation::{
    buckets_by, lemma_buckets_multiset, lemma_concat_all_multiset, lemma_empty_multiset, multiset_sum,
};
use crate::crossing::{
    count_above, count_below, crossings, lemma_count_above_none, lemma_count_below_all,
    lemma_count_below_none, lemma_crossings_push_right, lemma_crossings_take_mono, strictly_sorted,
    order_cost, cost_to, lemma_order_cost_cons, lemma_order_cost_single, lemma_cost_to_concat,
    swapped,
};

verus! {

/// Tie-breaker for the statistical heuristics: how vertices that the heuristic
/// puts at the same position are ordered.
pub enum TieBreaker {
    /// Keep the order in which they were given.
    Native,
    /// Order them by the median heuristic.
    Median,
}

/// Matrix coordinates of an edge between fixed vertex `fixed` and loose vertex
/// `loose` when the fixed vertices are named `1..=fixed_size` and the loose
/// ones follow: (fixed position, loose position).
#[allow(non_snake_case)]
pub fn default_edgelabel_to_interconnection_coordinates(fixed: i32, loose: i32, fixedSize: i32) -> (res: (
    usize,
    usize,
))
    requires
        fixed > i32::MIN,
        i32::MIN < loose - fixedSize <= i32::MAX,
    ensures
        res.0 == (fixed - 1) as usize,
        res.1 == (loose - fixedSize - 1) as usize,
{
    let fixedPos = fixed - 1;
    let loosePos = (loose - fixedSize) - 1;
    (fixedPos as usize, loosePos as usize)
}

/// Adjacency list of loose position `k` built from the edges: the fixed
/// positions of its edges, in edge order.
pub open spec fn edge_adjacency(edges: Seq<(i32, i32)>, fixed_size: i32, k: int) -> Seq<usize> {
    edges.filter(|e: (i32, i32)| e.1 - fixed_size - 1 == k).map_values(
        |e: (i32, i32)| (e.0 - 1) as usize,
    )
}

/// Every edge has matrix coordinates: no overflow, and its loose end is one
/// of the loose vertices.
pub open spec fn edges_in_range(graph: GraphInput) -> bool {
    forall|i: int|
        0 <= i < graph.edge_set@.len() ==> {
            let e = #[trigger] graph.edge_set@[i];
            &&& e.0 > i32::MIN
            &&& i32::MIN < e.1 - graph.number_of_fixed <= i32::MAX
            &&& 0 <= e.1 - graph.number_of_fixed - 1 < graph.loose_vertices@.len()
        }
}

/// Whether every edge has matrix coordinates (see `edges_in_range`).
pub fn check_edges_in_range(graph: &GraphInput) -> (res: bool)
    ensures
        res == edges_in_range(*graph),
{
    let mut i: usize = 0;
    while i < graph.edge_set.len()
        invariant
            i <= graph.edge_set@.len(),
            forall|k: int|
                0 <= k < i ==> {
                    let e = #[trigger] graph.edge_set@[k];
                    &&& e.0 > i32::MIN
                    &&& i32::MIN < e.1 - graph.number_of_fixed <= i32::MAX
                    &&& 0 <= e.1 - graph.number_of_fixed - 1 < graph.loose_vertices@.len()
                },
        decreases graph.edge_set@.len() - i,
    {
        let (a, b) = graph.edge_set[i];
        if a == i32::MIN {
            return false;
        }
        let shifted = (b as i64) - (graph.number_of_fixed as i64);
        if shifted <= i32::MIN as i64 || shifted > i32::MAX as i64 {
            return false;
        }
        let pos = shifted - 1;
        if pos < 0 || pos as u64 >= graph.loose_vertices.len() as u64 {
            return false;
        }
        i += 1;
    }
    true
}

/// Interconnection matrix in coordinate format.
pub struct COOInterconnectionMatrix {
    pub fixed: Vec<i32>,
    /// Loose vertices in their current order: (name, index into `adjacency_list`).
    pub loose: Vec<(i32, usize)>,
    /// For each loose vertex, the positions of its fixed neighbours.
    pub adjacency_list: Vec<Vec<usize>>,
}

impl COOInterconnectionMatrix {
    /// Neighbour list of the loose vertex with adjacency index `r`.
    pub open spec fn nbrs(&self, r: usize) -> Seq<usize> {
        self.adjacency_list@[r as int]@
    }

    /// Crossings caused by adjacency indices `u` left of `v`.
    pub open spec fn cross(&self, u: usize, v: usize) -> nat {
        crossings(self.nbrs(u), self.nbrs(v))
    }

    /// Every neighbour list is strictly increasing and points into the fixed
    /// layer, and every loose vertex refers to a neighbour list.
    pub open spec fn wf(&self) -> bool {
        &&& forall|r: int|
            0 <= r < self.adjacency_list@.len() ==> strictly_sorted(
                #[trigger] self.adjacency_list@[r]@,
            )
        &&& forall|r: int, k: int|
            0 <= r < self.adjacency_list@.len() && 0 <= k < self.adjacency_list@[r]@.len()
                ==> #[trigger] self.adjacency_list@[r]@[k] < self.fixed@.len()
        &&& forall|i: int|
            0 <= i < self.loose@.len() ==> #[trigger] self.loose@[i].1
                < self.adjacency_list@.len()
        &&& forall|r: int|
            0 <= r < self.adjacency_list@.len() ==> seq_sum(#[trigger] self.adjacency_list@[r]@)
                <= usize::MAX
        &&& self.fixed@.len() < usize::MAX
    }

    /// Crossing cost of drawing one loose vertex left of another, by adjacency index.
    /// The neighbour list `r` exists, is strictly increasing, holds fixed
    /// positions, and its sum fits in a `usize`: what `wf` asks of each list.
    pub open spec fn list_ok(&self, r: usize) -> bool {
        &&& r < self.adjacency_list@.len()
        &&& strictly_sorted(self.nbrs(r))
        &&& forall|k: int| 0 <= k < self.nbrs(r).len() ==> #[trigger] self.nbrs(r)[k] < self.fixed@.len()
        &&& seq_sum(self.nbrs(r)) <= usize::MAX
    }

    pub open spec fn cost(&self) -> spec_fn(usize, usize) -> nat {
        |x: usize, y: usize| crossings(self.nbrs(x), self.nbrs(y))
    }

    /// Every entry of `s` refers to a neighbour list.
    pub open spec fn valid_refs(&self, s: Seq<(i32, usize)>) -> bool {
        forall|k: int| 0 <= k < s.len() ==> #[trigger] s[k].1 < self.adjacency_list@.len()
    }

    /// The crossing number of every ordered pair of entries of `s` fits in a `u32`.
    pub open spec fn pairs_fit(&self, s: Seq<(i32, usize)>) -> bool {
        forall|k: int, l: int|
            0 <= k < s.len() && 0 <= l < s.len() ==> #[trigger] self.cross(s[k].1, s[l].1)
                <= u32::MAX
    }

    /// Position of the median neighbour (the lower one for even degree).
    pub open spec fn median_of(&self, r: usize) -> usize {
        self.nbrs(r)[(self.nbrs(r).len() - 1) / 2]
    }

    /// Integer mean of the neighbour positions.
    pub open spec fn mean_of(&self, r: usize) -> int {
        seq_sum(self.nbrs(r)) / (self.nbrs(r).len() as int)
    }

    /// Bucket of a loose vertex under the median heuristic; isolated vertices
    /// go to the extra bucket after all fixed positions.
    pub open spec fn median_bucket(&self, x: (i32, usize)) -> int {
        if self.nbrs(x.1).len() > 0 {
            self.median_of(x.1) as int
        } else {
            self.fixed@.len() as int
        }
    }

    /// Bucket of a loose vertex under the mean heuristic.
    pub open spec fn mean_bucket(&self, x: (i32, usize)) -> int {
        if self.nbrs(x.1).len() > 0 {
            self.mean_of(x.1)
        } else {
            self.fixed@.len() as int
        }
    }

    /// Buckets of the median heuristic: bucket `p` holds the entries of `s`
    /// whose bucket is `p`, in the order of `s`.
    pub open spec fn median_buckets(&self, s: Seq<(i32, usize)>) -> Seq<Seq<(i32, usize)>> {
        Seq::new(
            (self.fixed@.len() + 1) as nat,
            |p: int| s.filter(|x: (i32, usize)| self.median_bucket(x) == p),
        )
    }

    /// Buckets of the mean heuristic.
    pub open spec fn mean_buckets(&self, s: Seq<(i32, usize)>) -> Seq<Seq<(i32, usize)>> {
        Seq::new(
            (self.fixed@.len() + 1) as nat,
            |p: int| s.filter(|x: (i32, usize)| self.mean_bucket(x) == p),
        )
    }

    /// One bucket laid out under a tie-breaker.
    pub open spec fn collapse_bucket(&self, b: Seq<(i32, usize)>, tie_breaker: TieBreaker) -> Seq<
        (i32, usize),
    > {
        match tie_breaker {
            TieBreaker::Native => b,
            TieBreaker::Median => if b.len() <= 1 {
                b
            } else {
                concat_all(self.median_buckets(b))
            },
        }
    }

    /// The buckets laid out one after the other, each under the tie-breaker.
    pub open spec fn collapsed(
        &self,
        buckets: Seq<Seq<(i32, usize)>>,
        tie_breaker: TieBreaker,
    ) -> Seq<(i32, usize)>
        decreases buckets.len(),
    {
        if buckets.len() == 0 {
            Seq::empty()
        } else {
            self.collapsed(buckets.drop_last(), tie_breaker) + self.collapse_bucket(
                buckets.last(),
                tie_breaker,
            )
        }
    }

    /// Counts, in one merge-like pass over both neighbour lists, the crossings
    /// of the loose vertices `u` and `v` in the order `uv` and in the order `vu`.
    pub fn calc_local_cross_count_touple_between_edgelists(
        &self,
        adj_ref_u: usize,
        adj_ref_v: usize,
    ) -> (res: (u32, u32))
        requires
            adj_ref_u < self.adjacency_list@.len(),
            adj_ref_v < self.adjacency_list@.len(),
            strictly_sorted(self.nbrs(adj_ref_u)),
            strictly_sorted(self.nbrs(adj_ref_v)),
            self.cross(adj_ref_u, adj_ref_v) <= u32::MAX,
            self.cross(adj_ref_v, adj_ref_u) <= u32::MAX,
        ensures
            res.0 == self.cross(adj_ref_u, adj_ref_v),
            res.1 == self.cross(adj_ref_v, adj_ref_u),
    {
        let vu = &self.adjacency_list[adj_ref_u];
        let vv = &self.adjacency_list[adj_ref_v];
        let ghost su = vu@;
        let ghost sv = vv@;
        assert(strictly_sorted(su));
        assert(strictly_sorted(sv));
        if vv.len() == 0 || vu.len() == 0 {
            proof {
                if su.len() == 0 {
                    assert(crossings(su, sv) == 0);
                    crossings_empty_right(sv, su);
                } else {
                    crossings_empty_right(su, sv);
                    assert(crossings(sv, su) == 0);
                }
            }
            return (0, 0);
        }
        let mut p_v: usize = 0;
        let mut p_u: usize = 0;
        let mut c_u: u32 = 0;
        let mut c_v: u32 = 0;
        proof {
            reveal_with_fuel(crossings, 2);
            reveal_with_fuel(count_below, 2);
            assert(su.take(1) =~= seq![su[0]]);
            assert(sv.take(1) =~= seq![sv[0]]);
            assert(seq![su[0]].drop_last() =~= Seq::<usize>::empty());
            assert(seq![sv[0]].drop_last() =~= Seq::<usize>::empty());
        }
        if vu[p_u] > vv[p_v] {
            c_u = 1;
            while vv.len() > p_v + 1 && vu[p_u] > vv[p_v + 1]
                invariant
                    vv@ == sv,
                    vu@ == su,
                    strictly_sorted(sv),
                    p_u == 0,
                    su.len() > 0,
                    p_v < sv.len(),
                    c_u == p_v + 1,
                    forall|k: int| 0 <= k <= p_v ==> sv[k] < su[0],
                    crossings(su, sv) <= u32::MAX,
                decreases sv.len() - p_v,
            {
                proof {
                    lemma_count_below_all(sv.take(p_v + 2), su[0]);
                    crossings_single_left(su[0], sv.take(p_v + 2));
                    assert(su.take(1) =~= seq![su[0]]);
                    lemma_crossings_take_mono(su, sv, 1, p_v + 2);
                }
                c_u += 1;
                p_v += 1;
            }
            proof {
                lemma_count_below_all(sv.take(p_v + 1), su[0]);
                crossings_single_left(su[0], sv.take(p_v + 1));
                lemma_crossings_single_right_none(sv.take(p_v + 1), su[0]);
            }
        } else if vu[p_u] < vv[p_v] {
            c_v = 1;
            while vu.len() > p_u + 1 && vu[p_u + 1] < vv[p_v]
                invariant
                    vv@ == sv,
                    vu@ == su,
                    strictly_sorted(su),
                    p_v == 0,
                    sv.len() > 0,
                    p_u < su.len(),
                    c_v == p_u + 1,
                    forall|k: int| 0 <= k <= p_u ==> su[k] < sv[0],
                    crossings(sv, su) <= u32::MAX,
                decreases su.len() - p_u,
            {
                proof {
                    lemma_count_below_all(su.take(p_u + 2), sv[0]);
                    crossings_single_left(sv[0], su.take(p_u + 2));
                    assert(sv.take(1) =~= seq![sv[0]]);
                    lemma_crossings_take_mono(sv, su, 1, p_u + 2);
                }
                c_v += 1;
                p_u += 1;
            }
            proof {
                lemma_count_below_all(su.take(p_u + 1), sv[0]);
                crossings_single_left(sv[0], su.take(p_u + 1));
                lemma_crossings_single_right_none(su.take(p_u + 1), sv[0]);
            }
        } else {
            proof {
                reveal_with_fuel(count_below, 2);
                crossings_single_left(su[0], seq![sv[0]]);
                crossings_single_left(sv[0], seq![su[0]]);
            }
        }
        loop
            invariant
                su == self.nbrs(adj_ref_u),
                sv == self.nbrs(adj_ref_v),
                vv@ == sv,
                vu@ == su,
                strictly_sorted(su),
                strictly_sorted(sv),
                p_u < su.len(),
                p_v < sv.len(),
                crossings(su, sv) <= u32::MAX,
                crossings(sv, su) <= u32::MAX,
                c_u == crossings(su.take(p_u + 1), sv.take(p_v + 1)),
                c_v == crossings(sv.take(p_v + 1), su.take(p_u + 1)),
                p_u + 1 < su.len() ==> (sv[p_v as int] < su[p_u + 1] || (p_v == 0 && sv[0]
                    == su[p_u + 1])),
                p_v + 1 < sv.len() ==> (su[p_u as int] < sv[p_v + 1] || (p_u == 0 && su[0]
                    == sv[p_v + 1])),
            ensures
                c_u == crossings(su, sv),
                c_v == crossings(sv, su),
            decreases (su.len() - p_u) + (sv.len() - p_v),
        {
            if vu.len() <= p_u + 1 && vv.len() <= p_v + 1 {
                proof {
                    assert(su.take(p_u + 1) =~= su);
                    assert(sv.take(p_v + 1) =~= sv);
                }
                return (c_u, c_v);
            } else if vu.len() <= p_u + 1 {
                // only v advances
                proof {
                    step_right(su, sv, p_u as int, p_v as int);
                }
                p_v += 1;
                if vu[p_u] != vv[p_v] {
                    c_v += (p_u + 1) as u32;
                }
            } else if vv.len() <= p_v + 1 {
                // only u advances
                proof {
                    step_right(sv, su, p_v as int, p_u as int);
                }
                p_u += 1;
                if vu[p_u] != vv[p_v] {
                    c_u += (p_v + 1) as u32;
                }
            } else if vu[p_u + 1] < vv[p_v + 1] {
                proof {
                    step_right(sv, su, p_v as int, p_u as int);
                }
                p_u += 1;
                if vu[p_u] != vv[p_v] {
                    c_u += (p_v + 1) as u32;
                }
            } else if vu[p_u + 1] > vv[p_v + 1] {
                proof {
                    step_right(su, sv, p_u as int, p_v as int);
                }
                p_v += 1;
                if vu[p_u] != vv[p_v] {
                    c_v += (p_u + 1) as u32;
                }
            } else {
                proof {
                    step_both(su, sv, p_u as int, p_v as int);
                }
                c_u += (p_v + 1) as u32;
                c_v += (p_u + 1) as u32;
                p_v += 1;
                p_u += 1;
            }
        }
    }
}

impl COOInterconnectionMatrix {
    /// Builds the matrix of an instance: the loose vertices in their given
    /// order, each with the fixed positions of its edges in edge order.
    pub fn parse(graph: &GraphInput) -> (res: Self)
        requires
            edges_in_range(*graph),
        ensures
            res.fixed@ == graph.fixed_vertices@,
            res.loose@.len() == graph.loose_vertices@.len(),
            res.adjacency_list@.len() == graph.loose_vertices@.len(),
            forall|k: int|
                0 <= k < res.loose@.len() ==> #[trigger] res.loose@[k] == (
                    graph.loose_vertices@[k],
                    k as usize,
                ),
            forall|k: int|
                0 <= k < res.adjacency_list@.len() ==> #[trigger] res.adjacency_list@[k]@
                    == edge_adjacency(graph.edge_set@, graph.number_of_fixed, k),
    {
        let fixedset = graph.fixed_vertices.clone();
        let mut loose_temp: Vec<(i32, usize)> = Vec::new();
        let mut adj_list: Vec<Vec<usize>> = Vec::new();
        let mut index: usize = 0;
        while index < graph.loose_vertices.len()
            invariant
                index <= graph.loose_vertices@.len(),
                loose_temp@.len() == index,
                adj_list@.len() == index,
                forall|k: int|
                    0 <= k < index ==> #[trigger] loose_temp@[k] == (
                        graph.loose_vertices@[k],
                        k as usize,
                    ),
                forall|k: int| 0 <= k < index ==> (#[trigger] adj_list@[k])@.len() == 0,
            decreases graph.loose_vertices@.len() - index,
        {
            adj_list.push(Vec::new());
            loose_temp.push((graph.loose_vertices[index], index));
            index = index + 1;
        }
        let ghost edges = graph.edge_set@;
        let ghost nf = graph.number_of_fixed;
        let mut i: usize = 0;
        proof {
            assert(edges.take(0) =~= Seq::<(i32, i32)>::empty());
            assert forall|k: int| 0 <= k < adj_list@.len() implies #[trigger] adj_list@[k]@
                == edge_adjacency(edges.take(0), nf, k) by {
                reveal_with_fuel(Seq::filter, 1);
                assert(adj_list@[k]@ =~= edge_adjacency(edges.take(0), nf, k));
            }
        }
        while i < graph.edge_set.len()
            invariant
                edges == graph.edge_set@,
                nf == graph.number_of_fixed,
                edges_in_range(*graph),
                i <= edges.len(),
                adj_list@.len() == graph.loose_vertices@.len(),
                forall|k: int|
                    0 <= k < adj_list@.len() ==> #[trigger] adj_list@[k]@ == edge_adjacency(
                        edges.take(i as int),
                        nf,
                        k,
                    ),
            decreases edges.len() - i,
        {
            let edge = graph.edge_set[i];
            proof {
                assert(edges[i as int] == edge);
            }
            let (fixed_index, loose_index) = default_edgelabel_to_interconnection_coordinates(
                edge.0,
                edge.1,
                graph.number_of_fixed,
            );
            let ghost before = adj_list@;
            adj_list[loose_index].push(fixed_index);
            proof {
                assert(edges.take(i + 1).drop_last() =~= edges.take(i as int));
                assert forall|k: int| 0 <= k < adj_list@.len() implies #[trigger] adj_list@[k]@
                    == edge_adjacency(edges.take(i + 1), nf, k) by {
                    reveal_with_fuel(Seq::filter, 1);
                    let p = |e: (i32, i32)| e.1 - nf - 1 == k;
                    let f = |e: (i32, i32)| (e.0 - 1) as usize;
                    assert(edges.take(i + 1).filter(p) == if p(edge) {
                        edges.take(i as int).filter(p).push(edge)
                    } else {
                        edges.take(i as int).filter(p)
                    });
                    assert(before[k]@ == edges.take(i as int).filter(p).map_values(f));
                    if p(edge) {
                        assert(edges.take(i as int).filter(p).push(edge).map_values(f)
                            =~= edges.take(i as int).filter(p).map_values(f).push(f(edge)));
                    }
                }
            }
            i += 1;
        }
        proof {
            assert(edges.take(i as int) =~= edges);
        }
        COOInterconnectionMatrix { fixed: fixedset, loose: loose_temp, adjacency_list: adj_list }
    }

    /// Removes the loose vertices of degree zero from the loose order and
    /// returns them, in their order.  They cause no crossings wherever they
    /// are placed.
    pub fn extract_orphan_nodes(&mut self) -> (res: Vec<(i32, usize)>)
        requires
            old(self).wf(),
        ensures
            final(self).loose@ == old(self).loose@.filter(
                |x: (i32, usize)| old(self).nbrs(x.1).len() > 0,
            ),
            res@ == old(self).loose@.filter(|x: (i32, usize)| old(self).nbrs(x.1).len() == 0),
            final(self).fixed@ == old(self).fixed@,
            final(self).adjacency_list@ == old(self).adjacency_list@,
            final(self).wf(),
    {
        let ghost keep = |x: (i32, usize)| self.nbrs(x.1).len() > 0;
        let ghost drop = |x: (i32, usize)| self.nbrs(x.1).len() == 0;
        let mut new_nodes: Vec<(i32, usize)> = Vec::new();
        let mut extracted_orphan_nodes: Vec<(i32, usize)> = Vec::new();
        let mut i: usize = 0;
        while i < self.loose.len()
            invariant
                self.wf(),
                i <= self.loose@.len(),
                new_nodes@ == self.loose@.take(i as int).filter(keep),
                extracted_orphan_nodes@ == self.loose@.take(i as int).filter(drop),
                keep == (|x: (i32, usize)| self.nbrs(x.1).len() > 0),
                drop == (|x: (i32, usize)| self.nbrs(x.1).len() == 0),
            decreases self.loose@.len() - i,
        {
            let node = self.loose[i];
            proof {
                assert(self.loose@.take(i + 1).drop_last() =~= self.loose@.take(i as int));
                reveal_with_fuel(Seq::filter, 1);
            }
            if self.adjacency_list[node.1].len() > 0 {
                new_nodes.push(node);
            } else {
                extracted_orphan_nodes.push(node);
            }
            i += 1;
        }
        proof {
            assert(self.loose@.take(i as int) =~= self.loose@);
        }
        self.loose = new_nodes;
        proof {
            assert forall|k: int| 0 <= k < self.loose@.len() implies #[trigger] self.loose@[k].1
                < self.adjacency_list@.len() by {
                broadcast use vstd::seq_lib::group_filter_ensures;

                let old_loose = old(self).loose@;
                let x = self.loose@[k];
                assert(x == old_loose.filter(keep)[k]);
                assert(old_loose.filter(keep).contains(x));
                old_loose.lemma_filter_contains_rev(keep, x);
                let j = choose|j: int| 0 <= j < old_loose.len() && old_loose[j] == x;
                assert(old_loose[j].1 < self.adjacency_list@.len());
            }
        }
        extracted_orphan_nodes
    }

    /// Crossing counts of the loose vertices at positions `pos_u` and `pos_v`:
    /// first in the given order, then exchanged.
    pub fn calc_local_cross_count_touple_between_positions(&self, pos_u: usize, pos_v: usize) -> (res: (
        u32,
        u32,
    ))
        requires
            pos_u < self.loose@.len(),
            pos_v < self.loose@.len(),
            self.list_ok(self.loose@[pos_u as int].1),
            self.list_ok(self.loose@[pos_v as int].1),
            self.cross(self.loose@[pos_u as int].1, self.loose@[pos_v as int].1) <= u32::MAX,
            self.cross(self.loose@[pos_v as int].1, self.loose@[pos_u as int].1) <= u32::MAX,
        ensures
            res.0 == self.cross(self.loose@[pos_u as int].1, self.loose@[pos_v as int].1),
            res.1 == self.cross(self.loose@[pos_v as int].1, self.loose@[pos_u as int].1),
    {
        self.calc_local_cross_count_touple_between_edgelists(self.loose[pos_u].1, self.loose[pos_v].1)
    }

    /// Median heuristic value of a loose vertex: its median neighbour position.
    pub fn calculate_median(&self, loose_vertex: &(i32, usize)) -> (res: usize)
        requires
            self.list_ok(loose_vertex.1),
            self.nbrs(loose_vertex.1).len() > 0,
        ensures
            res == self.median_of(loose_vertex.1),
            res < self.fixed@.len(),
    {
        let arraylen = self.adjacency_list[loose_vertex.1].len();
        let median = (arraylen - 1) / 2;
        self.adjacency_list[loose_vertex.1][median]
    }

    /// Mean heuristic value of a loose vertex: the integer mean of its
    /// neighbour positions.
    pub fn calculate_mean(&self, loose_vertex: &(i32, usize)) -> (res: usize)
        requires
            self.list_ok(loose_vertex.1),
            self.nbrs(loose_vertex.1).len() > 0,
        ensures
            res == self.mean_of(loose_vertex.1),
            res < self.fixed@.len(),
    {
        let neighbours = &self.adjacency_list[loose_vertex.1];
        let ghost s = neighbours@;
        let mut sum: usize = 0;
        let mut i: usize = 0;
        while i < neighbours.len()
            invariant
                neighbours@ == s,
                seq_sum(s) <= usize::MAX,
                i <= s.len(),
                sum == seq_sum(s.take(i as int)),
            decreases s.len() - i,
        {
            proof {
                assert(s.take(i + 1).drop_last() =~= s.take(i as int));
                lemma_seq_sum_prefix_le(s, i + 1);
            }
            sum = sum + neighbours[i];
            i += 1;
        }
        proof {
            assert(s.take(i as int) =~= s);
            lemma_mean_bound(self, loose_vertex.1);
        }
        sum / neighbours.len()
    }

    /// Number of crossings among the loose vertices of `sublist` in its order.
    pub fn calculate_current_crossing_count_on_sublist(&self, sublist: &Vec<(i32, usize)>) -> (res:
        u32)
        requires
            forall|k: int| 0 <= k < sublist@.len() ==> self.list_ok((#[trigger] sublist@[k]).1),
            sublist@.len() >= 1,
            self.valid_refs(sublist@),
            self.pairs_fit(sublist@),
            order_cost(self.cost(), refs(sublist@)) <= u32::MAX,
        ensures
            res == order_cost(self.cost(), refs(sublist@)),
    {
        let ghost r = refs(sublist@);
        let ghost w = self.cost();
        let n = sublist.len();
        let mut result: u32 = 0;
        let mut i: usize = 0;
        proof {
            assert(r.skip(0) =~= r);
        }
        while i < n - 1
            invariant
                n == sublist@.len(),
                n >= 1,
                r == refs(sublist@),
                w == self.cost(),
                forall|k: int| 0 <= k < sublist@.len() ==> self.list_ok((#[trigger] sublist@[k]).1),
                self.valid_refs(sublist@),
                self.pairs_fit(sublist@),
                order_cost(w, r) <= u32::MAX,
                i <= n - 1,
                result + order_cost(w, r.skip(i as int)) == order_cost(w, r),
            decreases n - i,
        {
            let mut j: usize = i + 1;
            proof {
                assert(r.skip(i as int) =~= seq![r[i as int]] + r.skip(i + 1));
                lemma_order_cost_cons(w, r[i as int], r.skip(i + 1));
                assert(r.subrange(i + 1, j as int) =~= Seq::<usize>::empty());
            }
            while j < n
                invariant
                    n == sublist@.len(),
                    i + 1 <= j <= n,
                    r == refs(sublist@),
                    w == self.cost(),
                    forall|k: int| 0 <= k < sublist@.len() ==> self.list_ok((#[trigger] sublist@[k]).1),
                    self.valid_refs(sublist@),
                    self.pairs_fit(sublist@),
                    order_cost(w, r) <= u32::MAX,
                    order_cost(w, r.skip(i as int)) == cost_to(w, r[i as int], r.skip(i + 1))
                        + order_cost(w, r.skip(i + 1)),
                    result + order_cost(w, r.skip(i as int)) == order_cost(w, r) + cost_to(
                        w,
                        r[i as int],
                        r.subrange(i + 1, j as int),
                    ),
                decreases n - j,
            {
                let cr = self.calc_local_cross_count_touple_between_edgelists(
                    sublist[i].1,
                    sublist[j].1,
                );
                proof {
                    let t = r.skip(i + 1);
                    let m = j - (i + 1);
                    assert(r.subrange(i + 1, j + 1) =~= t.take(m + 1));
                    assert(r.subrange(i + 1, j as int) =~= t.take(m));
                    assert(t.take(m + 1).drop_last() =~= t.take(m));
                    assert(t =~= t.take(m + 1) + t.skip(m + 1));
                    lemma_cost_to_concat(w, r[i as int], t.take(m + 1), t.skip(m + 1));
                }
                result = result + cr.0;
                j += 1;
            }
            proof {
                assert(r.subrange(i + 1, n as int) =~= r.skip(i + 1));
            }
            i += 1;
        }
        proof {
            assert(r.skip(i as int) =~= seq![r[i as int]]);
            lemma_order_cost_single(w, r[i as int]);
        }
        result
    }

    /// Distributes the entries of `sublist` over one bucket per fixed position
    /// (plus one for isolated vertices), by median or by mean.
    fn bucket_sublist(&self, sublist: &Vec<(i32, usize)>, by_median: bool) -> (res: Vec<
        Vec<(i32, usize)>,
    >)
        requires
            self.wf(),
            self.valid_refs(sublist@),
        ensures
            res@.len() == self.fixed@.len() + 1,
            forall|p: int|
                0 <= p < res@.len() ==> #[trigger] res@[p]@ == (if by_median {
                    self.median_buckets(sublist@)[p]
                } else {
                    self.mean_buckets(sublist@)[p]
                }),
    {
        let resultsize = self.fixed.len();
        let ghost key = |x: (i32, usize)|
            if by_median {
                self.median_bucket(x)
            } else {
                self.mean_bucket(x)
            };
        let mut position_vector: Vec<Vec<(i32, usize)>> = Vec::new();
        let mut k: usize = 0;
        while k < resultsize + 1
            invariant
                self.wf(),
                resultsize == self.fixed@.len(),
                k <= resultsize + 1,
                position_vector@.len() == k,
                forall|p: int| 0 <= p < k ==> (#[trigger] position_vector@[p])@.len() == 0,
            decreases resultsize + 1 - k,
        {
            position_vector.push(Vec::new());
            k += 1;
        }
        let mut i: usize = 0;
        while i < sublist.len()
            invariant
                self.wf(),
                self.valid_refs(sublist@),
                resultsize == self.fixed@.len(),
                i <= sublist@.len(),
                position_vector@.len() == resultsize + 1,
                key == (|x: (i32, usize)|
                    if by_median {
                        self.median_bucket(x)
                    } else {
                        self.mean_bucket(x)
                    }),
                forall|p: int|
                    0 <= p < resultsize + 1 ==> (#[trigger] position_vector@[p])@ == sublist@.take(
                        i as int,
                    ).filter(|x: (i32, usize)| key(x) == p),
            decreases sublist@.len() - i,
        {
            let loose_vertex = sublist[i];
            let arraylen = self.adjacency_list[loose_vertex.1].len();
            let pos = if arraylen > 0 {
                if by_median {
                    self.calculate_median(&loose_vertex)
                } else {
                    self.calculate_mean(&loose_vertex)
                }
            } else {
                resultsize
            };
            assert(pos == key(loose_vertex));
            let ghost before = position_vector@;
            position_vector[pos].push(loose_vertex);
            proof {
                assert(sublist@.take(i + 1).drop_last() =~= sublist@.take(i as int));
                assert(sublist@.take(i + 1).last() == loose_vertex);
                assert forall|p: int| 0 <= p < resultsize + 1 implies (
                #[trigger] position_vector@[p])@ == sublist@.take(i + 1).filter(
                    |x: (i32, usize)| key(x) == p,
                ) by {
                    reveal_with_fuel(Seq::filter, 1);
                    assert(before[p]@ == sublist@.take(i as int).filter(
                        |x: (i32, usize)| key(x) == p,
                    ));
                }
            }
            i += 1;
        }
        proof {
            assert(sublist@.take(i as int) =~= sublist@);
            assert forall|p: int| 0 <= p < position_vector@.len() implies #[trigger] position_vector@[p]@
                == (if by_median {
                self.median_buckets(sublist@)[p]
            } else {
                self.mean_buckets(sublist@)[p]
            }) by {
                if by_median {
                    assert((|x: (i32, usize)| key(x) == p) =~= (|x: (i32, usize)|
                        self.median_bucket(x) == p));
                } else {
                    assert((|x: (i32, usize)| key(x) == p) =~= (|x: (i32, usize)|
                        self.mean_bucket(x) == p));
                }
            }
        }
        position_vector
    }

    /// Median heuristic on a sublist: bucket `p` holds, in order, the entries
    /// whose median neighbour is at fixed position `p`; the last bucket holds
    /// the isolated ones.
    pub fn median_heuristic_from_sublist(&self, sublist: &Vec<(i32, usize)>) -> (res: Vec<
        Vec<(i32, usize)>,
    >)
        requires
            self.wf(),
            self.valid_refs(sublist@),
        ensures
            res@.map_values(|b: Vec<(i32, usize)>| b@) == self.median_buckets(sublist@),
    {
        let res = self.bucket_sublist(sublist, true);
        proof {
            assert(res@.map_values(|b: Vec<(i32, usize)>| b@) =~= self.median_buckets(sublist@));
        }
        res
    }

    /// Mean heuristic on the whole loose order.
    pub fn mean_heuristic(&self) -> (res: Vec<Vec<(i32, usize)>>)
        requires
            self.wf(),
        ensures
            res@.map_values(|b: Vec<(i32, usize)>| b@) == self.mean_buckets(self.loose@),
    {
        self.mean_heuristic_from_sublist(&self.loose)
    }

    /// Mean heuristic on a sublist: bucket `p` holds, in order, the entries
    /// whose mean neighbour position is `p`; the last bucket holds the
    /// isolated ones.
    pub fn mean_heuristic_from_sublist(&self, sublist: &Vec<(i32, usize)>) -> (res: Vec<
        Vec<(i32, usize)>,
    >)
        requires
            self.wf(),
            self.valid_refs(sublist@),
        ensures
            res@.map_values(|b: Vec<(i32, usize)>| b@) == self.mean_buckets(sublist@),
    {
        let res = self.bucket_sublist(sublist, false);
        proof {
            assert(res@.map_values(|b: Vec<(i32, usize)>| b@) =~= self.mean_buckets(sublist@));
        }
        res
    }
}

impl COOInterconnectionMatrix {
    /// Lays out the buckets of the median or mean heuristic one after the
    /// other.  With the `Native` tie-breaker the buckets are simply
    /// concatenated (no neighbour list is read); with the `Median`
    /// tie-breaker a bucket of several vertices is ordered by the median
    /// heuristic first.
    pub fn collapse_loose_edge_list(
        &self,
        pos_vec: Vec<Vec<(i32, usize)>>,
        tie_breaker: TieBreaker,
    ) -> (res: Vec<(i32, usize)>)
        requires
            tie_breaker is Median ==> self.wf(),
            tie_breaker is Median ==> forall|k: int|
                0 <= k < pos_vec@.len() ==> self.valid_refs(#[trigger] pos_vec@[k]@),
        ensures
            res@ == self.collapsed(pos_vec@.map_values(|b: Vec<(i32, usize)>| b@), tie_breaker),
            tie_breaker is Native ==> res@ == concat_all(pos_vec@.map_values(|b: Vec<(i32, usize)>| b@)),
        decreases tie_rank(tie_breaker),
    {
        let ghost bs = pos_vec@.map_values(|b: Vec<(i32, usize)>| b@);
        let mut result: Vec<(i32, usize)> = Vec::new();
        let mut i: usize = 0;
        while i < pos_vec.len()
            invariant
                tie_breaker is Median ==> self.wf(),
                tie_breaker is Median ==> forall|k: int|
                    0 <= k < pos_vec@.len() ==> self.valid_refs(#[trigger] pos_vec@[k]@),
                bs == pos_vec@.map_values(|b: Vec<(i32, usize)>| b@),
                i <= pos_vec@.len(),
                result@ == self.collapsed(bs.take(i as int), tie_breaker),
            decreases pos_vec@.len() - i,
        {
            let posset = &pos_vec[i];
            proof {
                assert(bs.take(i + 1).drop_last() =~= bs.take(i as int));
                assert(bs.take(i + 1).last() == posset@);
            }
            match tie_breaker {
                TieBreaker::Native => {
                    append_entries(&mut result, posset);
                },
                TieBreaker::Median => {
                    if posset.len() <= 1 {
                        append_entries(&mut result, posset);
                    } else {
                        let temp = self.median_heuristic_from_sublist(posset);
                        proof {
                            assert forall|k: int| 0 <= k < temp@.len() implies self.valid_refs(
                                #[trigger] temp@[k]@,
                            ) by {
                                assert(temp@.map_values(|b: Vec<(i32, usize)>| b@).len() == temp@.len());
                                assert(0 <= k < self.median_buckets(posset@).len());
                                assert(temp@.map_values(|b: Vec<(i32, usize)>| b@)[k] == temp@[k]@);
                                assert(temp@[k]@ == self.median_buckets(posset@)[k]);
                                let f = |x: (i32, usize)| self.median_bucket(x) == k;
                                assert(self.median_buckets(posset@)[k] == posset@.filter(f));
                                valid_refs_filter(self, posset@, f);
                            }
                        }
                        let res = self.collapse_loose_edge_list(temp, TieBreaker::Native);
                        proof {
                            lemma_collapsed_native(self, self.median_buckets(posset@));
                        }
                        append_entries(&mut result, &res);
                    }
                },
            }
            i += 1;
        }
        proof {
            assert(bs.take(i as int) =~= bs);
            lemma_collapsed_native(self, bs);
        }
        result
    }

    /// Current order of the fixed vertices.
    pub fn get_fixed_order(&self) -> (res: &Vec<i32>)
        ensures
            res@ == self.fixed@,
    {
        &self.fixed
    }

    /// Current order of the loose vertices, by name.
    pub fn get_loose_order(&self) -> (res: Vec<i32>)
        ensures
            res@ == self.loose@.map_values(|x: (i32, usize)| x.0),
    {
        let mut res: Vec<i32> = Vec::new();
        let mut i: usize = 0;
        while i < self.loose.len()
            invariant
                i <= self.loose@.len(),
                res@ == self.loose@.take(i as int).map_values(|x: (i32, usize)| x.0),
            decreases self.loose@.len() - i,
        {
            res.push(self.loose[i].0);
            i += 1;
            proof {
                assert(res@ =~= self.loose@.take(i as int).map_values(|x: (i32, usize)| x.0));
            }
        }
        proof {
            assert(self.loose@.take(i as int) =~= self.loose@);
        }
        res
    }

    /// Exchanges the loose vertices at positions `a` and `b`.
    pub fn switch_loose_by_position(&mut self, a: usize, b: usize)
        requires
            a < old(self).loose@.len(),
            b < old(self).loose@.len(),
        ensures
            final(self).loose@ == swapped(old(self).loose@, a as int, b as int),
            final(self).fixed@ == old(self).fixed@,
            final(self).adjacency_list@ == old(self).adjacency_list@,
    {
        let temp = self.loose[a];
        let other = self.loose[b];
        self.loose.set(a, other);
        self.loose.set(b, temp);
    }

    /// Exchanges two loose vertices given by name.  The scan stops as soon as
    /// both names have been seen; a name that does not occur stands for
    /// position 0.
    pub fn switch_loose_by_vertexlabel(&mut self, a: i32, b: i32)
        requires
            old(self).loose@.len() > 0,
        ensures
            final(self).loose@ == swapped(
                old(self).loose@,
                label_position(old(self).loose@, a, b),
                label_position(old(self).loose@, b, a),
            ),
            final(self).fixed@ == old(self).fixed@,
            final(self).adjacency_list@ == old(self).adjacency_list@,
    {
        let mut found_a: bool = false;
        let mut found_b: bool = false;
        let mut apos: usize = 0;
        let mut bpos: usize = 0;
        let mut i: usize = 0;
        let ghost s = self.loose@;
        while i < self.loose.len() && !(found_a && found_b)
            invariant
                s == self.loose@,
                s.len() > 0,
                i <= s.len(),
                found_a == has_label(s.take(i as int), a),
                found_b == has_label(s.take(i as int), b),
                !(found_a && found_b) ==> both_seen_prefix(s.take(i as int), a, b) is None,
                !(found_a && found_b) ==> both_seen_prefix(s.take(i as int), b, a) is None,
                found_a && found_b ==> both_seen_prefix(s.take(i as int), a, b) == Some(i as int),
                found_a && found_b ==> both_seen_prefix(s.take(i as int), b, a) == Some(i as int),
                apos == last_label_index(s.take(i as int), a),
                bpos == last_label_index(s.take(i as int), b),
            decreases s.len() - i,
        {
            let label = self.loose[i].0;
            proof {
                assert(s.take(i + 1).drop_last() =~= s.take(i as int));
            }
            if label == a {
                found_a = true;
                apos = i;
            }
            if label == b {
                found_b = true;
                bpos = i;
            }
            i += 1;
        }
        proof {
            if found_a && found_b {
                lemma_both_seen_extend(s, a, b, i as int);
                lemma_both_seen_extend(s, b, a, i as int);
            } else {
                assert(s.take(i as int) =~= s);
                lemma_both_seen_none(s, a, b);
                lemma_both_seen_none(s, b, a);
            }
            lemma_last_label_index_bound(s.take(i as int), a);
            lemma_last_label_index_bound(s.take(i as int), b);
        }
        self.switch_loose_by_position(apos, bpos)
    }
}

/// Rank of a tie-breaker: `Median` lays out buckets with `Native`.
pub open spec fn tie_rank(t: TieBreaker) -> nat {
    match t {
        TieBreaker::Native => 0,
        TieBreaker::Median => 1,
    }
}

/// Appends the entries of `src` to `dst`.
fn append_entries(dst: &mut Vec<(i32, usize)>, src: &Vec<(i32, usize)>)
    ensures
        final(dst)@ == old(dst)@ + src@,
{
    let mut i: usize = 0;
    while i < src.len()
        invariant
            i <= src@.len(),
            dst@ == old(dst)@ + src@.take(i as int),
        decreases src@.len() - i,
    {
        dst.push(src[i]);
        i += 1;
        proof {
            assert(dst@ =~= old(dst)@ + src@.take(i as int));
        }
    }
    proof {
        assert(src@.take(i as int) =~= src@);
    }
}

proof fn valid_refs_filter(m: &COOInterconnectionMatrix, s: Seq<(i32, usize)>, p: spec_fn((i32, usize)) -> bool)
    requires
        m.valid_refs(s),
    ensures
        m.valid_refs(s.filter(p)),
{
    broadcast use vstd::seq_lib::group_filter_ensures;

    assert forall|k: int| 0 <= k < s.filter(p).len() implies #[trigger] s.filter(p)[k].1
        < m.adjacency_list@.len() by {
        let x = s.filter(p)[k];
        assert(s.filter(p).contains(x));
        s.lemma_filter_contains_rev(p, x);
    }
}

/// With the `Native` tie-breaker the buckets are simply concatenated.
pub proof fn lemma_collapsed_native(m: &COOInterconnectionMatrix, bs: Seq<Seq<(i32, usize)>>)
    ensures
        m.collapsed(bs, TieBreaker::Native) == concat_all(bs),
    decreases bs.len(),
{
    if bs.len() > 0 {
        lemma_collapsed_native(m, bs.drop_last());
    }
}

/// The name `x` occurs in `s`.
pub open spec fn has_label(s: Seq<(i32, usize)>, x: i32) -> bool
    decreases s.len(),
{
    if s.len() == 0 {
        false
    } else {
        s.last().0 == x || has_label(s.drop_last(), x)
    }
}

/// Last position of name `x` in `s`, or 0 where it does not occur.
pub open spec fn last_label_index(s: Seq<(i32, usize)>, x: i32) -> int
    decreases s.len(),
{
    if s.len() == 0 {
        0
    } else if s.last().0 == x {
        s.len() - 1
    } else {
        last_label_index(s.drop_last(), x)
    }
}

/// Length of the shortest prefix of `s` that holds both names, if any.
pub open spec fn both_seen_prefix(s: Seq<(i32, usize)>, x: i32, y: i32) -> Option<int>
    decreases s.len(),
{
    if s.len() == 0 {
        None
    } else if both_seen_prefix(s.drop_last(), x, y) is Some {
        both_seen_prefix(s.drop_last(), x, y)
    } else if has_label(s, x) && has_label(s, y) {
        Some(s.len() as int)
    } else {
        None
    }
}

/// Position that the name scan settles on for `x` (the other name being `y`):
/// the last occurrence of `x` before both names have been seen, or 0.
pub open spec fn label_position(s: Seq<(i32, usize)>, x: i32, y: i32) -> int {
    match both_seen_prefix(s, x, y) {
        Some(n) => last_label_index(s.take(n), x),
        None => last_label_index(s, x),
    }
}

proof fn lemma_last_label_index_bound(s: Seq<(i32, usize)>, x: i32)
    ensures
        0 <= last_label_index(s, x),
        s.len() > 0 ==> last_label_index(s, x) < s.len(),
    decreases s.len(),
{
    if s.len() > 0 {
        lemma_last_label_index_bound(s.drop_last(), x);
    }
}

/// Once a prefix settles the scan, longer sequences settle it the same way.
proof fn lemma_both_seen_extend(s: Seq<(i32, usize)>, x: i32, y: i32, i: int)
    requires
        0 <= i <= s.len(),
        both_seen_prefix(s.take(i), x, y) == Some(i),
    ensures
        both_seen_prefix(s, x, y) == Some(i),
    decreases s.len() - i,
{
    if i < s.len() {
        assert(s.drop_last().take(i) =~= s.take(i));
        lemma_both_seen_extend(s.drop_last(), x, y, i);
    } else {
        assert(s.take(i) =~= s);
    }
}

/// Without a settling prefix the whole sequence does not settle either.
proof fn lemma_both_seen_none(s: Seq<(i32, usize)>, x: i32, y: i32)
    requires
        both_seen_prefix(s.take(s.len() as int), x, y) is None,
    ensures
        both_seen_prefix(s, x, y) is None,
{
    assert(s.take(s.len() as int) =~= s);
}

/// Partial sums never exceed the whole sum.
pub proof fn lemma_seq_sum_prefix_le(s: Seq<usize>, i: int)
    requires
        0 <= i <= s.len(),
    ensures
        seq_sum(s.take(i)) <= seq_sum(s),
    decreases s.len(),
{
    if i == s.len() {
        assert(s.take(i) =~= s);
    } else {
        lemma_seq_sum_prefix_le(s.drop_last(), i);
        assert(s.drop_last().take(i) =~= s.take(i));
    }
}

/// A sum of entries that are at most `bound`.
proof fn lemma_seq_sum_bound(s: Seq<usize>, bound: int)
    requires
        forall|k: int| 0 <= k < s.len() ==> s[k] <= bound,
        bound >= 0,
    ensures
        seq_sum(s) <= s.len() * bound,
    decreases s.len(),
{
    if s.len() > 0 {
        lemma_seq_sum_bound(s.drop_last(), bound);
        let n = s.len() as int;
        assert((n - 1) * bound + bound == n * bound) by (nonlinear_arith);
    }
}

/// The mean of the neighbour positions of a loose vertex is a fixed position.
proof fn lemma_mean_bound(m: &COOInterconnectionMatrix, r: usize)
    requires
        m.list_ok(r),
        m.nbrs(r).len() > 0,
    ensures
        0 <= m.mean_of(r) < m.fixed@.len(),
{
    let s = m.nbrs(r);
    let bound = m.fixed@.len() - 1;
    assert forall|k: int| 0 <= k < s.len() implies s[k] <= bound by {
        assert(m.nbrs(r)[k] < m.fixed@.len());
    }
    lemma_seq_sum_bound(s, bound);
    lemma_seq_sum_nonneg(s);
    let len = s.len() as int;
    let total = seq_sum(s);
    assert(total / len <= bound) by (nonlinear_arith)
        requires
            0 <= total <= len * bound,
            len > 0,
            bound >= 0,
    {
        assert(len * (total / len) <= total);
    }
    assert(total / len >= 0) by (nonlinear_arith)
        requires
            0 <= total,
            len > 0,
    ;
}

proof fn lemma_seq_sum_nonneg(s: Seq<usize>)
    ensures
        seq_sum(s) >= 0,
    decreases s.len(),
{
    if s.len() > 0 {
        lemma_seq_sum_nonneg(s.drop_last());
    }
}

/// Every entry of `s` that refers to a neighbour list falls in one of the
/// buckets of the median and of the mean heuristic.
proof fn lemma_buckets_in_range(m: &COOInterconnectionMatrix, s: Seq<(i32, usize)>)
    requires
        m.wf(),
        m.valid_refs(s),
    ensures
        forall|i: int| 0 <= i < s.len() ==> 0 <= #[trigger] m.median_bucket(s[i]) <= m.fixed@.len(),
        forall|i: int| 0 <= i < s.len() ==> 0 <= #[trigger] m.mean_bucket(s[i]) <= m.fixed@.len(),
{
    assert forall|i: int| 0 <= i < s.len() implies 0 <= #[trigger] m.median_bucket(s[i]) <= m.fixed@.len() by {
        let r = s[i].1;
        if m.nbrs(r).len() > 0 {
            let n = m.nbrs(r);
            assert(m.adjacency_list@[r as int]@[(n.len() - 1) / 2] < m.fixed@.len());
        }
    }
    assert forall|i: int| 0 <= i < s.len() implies 0 <= #[trigger] m.mean_bucket(s[i]) <= m.fixed@.len() by {
        if m.nbrs(s[i].1).len() > 0 {
            lemma_mean_bound(m, s[i].1);
        }
    }
}

/// The buckets of the median heuristic hold the entries of the list.
proof fn lemma_median_buckets_multiset(m: &COOInterconnectionMatrix, s: Seq<(i32, usize)>)
    requires
        m.wf(),
        m.valid_refs(s),
    ensures
        concat_all(m.median_buckets(s)).to_multiset() == s.to_multiset(),
{
    let key = |x: (i32, usize)| m.median_bucket(x);
    let n = (m.fixed@.len() + 1) as nat;
    lemma_buckets_in_range(m, s);
    assert forall|i: int| 0 <= i < s.len() implies 0 <= #[trigger] key(s[i]) < n by {}
    lemma_buckets_multiset(s, key, n);
    assert(m.median_buckets(s) =~= buckets_by(s, key, n)) by {
        assert forall|p: int| 0 <= p < n implies #[trigger] m.median_buckets(s)[p] == buckets_by(s, key, n)[p] by {
            assert((|x: (i32, usize)| m.median_bucket(x) == p) =~= (|x: (i32, usize)| key(x) == p));
        }
    }
    lemma_concat_all_multiset(m.median_buckets(s));
}

/// Laying out buckets with the `Median` tie-breaker keeps their entries.
proof fn lemma_collapsed_median_multiset(m: &COOInterconnectionMatrix, bs: Seq<Seq<(i32, usize)>>)
    requires
        m.wf(),
        forall|k: int| 0 <= k < bs.len() ==> m.valid_refs(#[trigger] bs[k]),
    ensures
        m.collapsed(bs, TieBreaker::Median).to_multiset() == multiset_sum(bs),
    decreases bs.len(),
{
    if bs.len() > 0 {
        lemma_collapsed_median_multiset(m, bs.drop_last());
        let b = bs.last();
        assert(m.valid_refs(bs[bs.len() - 1]));
        if b.len() > 1 {
            lemma_median_buckets_multiset(m, b);
        }
        vstd::seq_lib::lemma_multiset_commutative(
            m.collapsed(bs.drop_last(), TieBreaker::Median),
            m.collapse_bucket(b, TieBreaker::Median),
        );
    } else {
        lemma_empty_multiset(m.collapsed(bs, TieBreaker::Median));
    }
}

/// The mean heuristic laid out with the `Median` tie-breaker is a
/// rearrangement of the list it orders.
pub proof fn lemma_mean_median_order_multiset(m: &COOInterconnectionMatrix, s: Seq<(i32, usize)>)
    requires
        m.wf(),
        m.valid_refs(s),
    ensures
        m.collapsed(m.mean_buckets(s), TieBreaker::Median).to_multiset() == s.to_multiset(),
{
    let key = |x: (i32, usize)| m.mean_bucket(x);
    let n = (m.fixed@.len() + 1) as nat;
    lemma_buckets_in_range(m, s);
    assert forall|i: int| 0 <= i < s.len() implies 0 <= #[trigger] key(s[i]) < n by {}
    lemma_buckets_multiset(s, key, n);
    assert(m.mean_buckets(s) =~= buckets_by(s, key, n)) by {
        assert forall|p: int| 0 <= p < n implies #[trigger] m.mean_buckets(s)[p] == buckets_by(s, key, n)[p] by {
            assert((|x: (i32, usize)| m.mean_bucket(x) == p) =~= (|x: (i32, usize)| key(x) == p));
        }
    }
    lemma_mean_buckets_valid(m, s);
    lemma_collapsed_median_multiset(m, m.mean_buckets(s));
}

/// The buckets of the mean heuristic refer to neighbour lists when the list does.
pub proof fn lemma_mean_buckets_valid(m: &COOInterconnectionMatrix, s: Seq<(i32, usize)>)
    requires
        m.valid_refs(s),
    ensures
        forall|k: int| 0 <= k < m.mean_buckets(s).len() ==> m.valid_refs(#[trigger] m.mean_buckets(s)[k]),
{
    assert forall|k: int| 0 <= k < m.mean_buckets(s).len() implies m.valid_refs(#[trigger] m.mean_buckets(s)[k]) by {
        valid_refs_filter(m, s, |x: (i32, usize)| m.mean_bucket(x) == k);
    }
}

/// The adjacency indices of a list of loose vertices.
pub open spec fn refs(s: Seq<(i32, usize)>) -> Seq<usize> {
    s.map_values(|x: (i32, usize)| x.1)
}

/// Sum of the entries.
pub open spec fn seq_sum(s: Seq<usize>) -> int
    decreases s.len(),
{
    if s.len() == 0 {
        0
    } else {
        seq_sum(s.drop_last()) + s.last()
    }
}

/// The lists one after the other.
pub open spec fn concat_all<A>(ss: Seq<Seq<A>>) -> Seq<A>
    decreases ss.len(),
{
    if ss.len() == 0 {
        Seq::empty()
    } else {
        concat_all(ss.drop_last()) + ss.last()
    }
}

proof fn crossings_empty_right(a: Seq<usize>, b: Seq<usize>)
    requires
        b.len() == 0,
    ensures
        crossings(a, b) == 0,
    decreases a.len(),
{
    if a.len() > 0 {
        crossings_empty_right(a.drop_last(), b);
    }
}

proof fn crossings_single_left(x: usize, b: Seq<usize>)
    ensures
        crossings(seq![x], b) == count_below(b, x),
{
    reveal_with_fuel(crossings, 2);
    assert(seq![x].drop_last() =~= Seq::<usize>::empty());
}

proof fn lemma_crossings_single_right_none(a: Seq<usize>, y: usize)
    requires
        forall|i: int| 0 <= i < a.len() ==> a[i] < y,
    ensures
        crossings(a, seq![y]) == 0,
    decreases a.len(),
{
    if a.len() > 0 {
        lemma_crossings_single_right_none(a.drop_last(), y);
        reveal_with_fuel(count_below, 2);
        assert(seq![y].drop_last() =~= Seq::<usize>::empty());
    }
}

/// Advancing the pointer of list `b` by one (the other list keeps its prefix
/// of length `p + 1`): the counts change as the loop body says.
proof fn step_right(a: Seq<usize>, b: Seq<usize>, p: int, q: int)
    requires
        strictly_sorted(a),
        strictly_sorted(b),
        0 <= p < a.len(),
        0 <= q,
        q + 1 < b.len(),
        a[p] < b[q + 1] || (p == 0 && a[0] == b[q + 1]),
        crossings(a, b) <= u32::MAX,
        crossings(b, a) <= u32::MAX,
    ensures
        crossings(a.take(p + 1), b.take(q + 2)) == crossings(a.take(p + 1), b.take(q + 1)),
        crossings(b.take(q + 2), a.take(p + 1)) == crossings(b.take(q + 1), a.take(p + 1)) + (
        if a[p] != b[q + 1] {
            p + 1
        } else {
            0
        }),
        crossings(b.take(q + 2), a.take(p + 1)) <= u32::MAX,
        q + 2 < b.len() ==> a[p] < b[q + 2],
{
    let ap = a.take(p + 1);
    let bq = b.take(q + 1);
    let y = b[q + 1];
    assert(b.take(q + 2) =~= bq.push(y));
    lemma_crossings_push_right(ap, bq, y);
    lemma_count_above_none(ap, y);
    assert(bq.push(y).drop_last() =~= bq);
    if a[p] != y {
        lemma_count_below_all(ap, y);
    } else {
        assert(ap =~= a.take(p).push(a[p]));
        assert(p == 0);
        lemma_count_below_none(ap, y);
    }
    lemma_crossings_take_mono(b, a, q + 2, p + 1);
}

/// Advancing both pointers when the next entries coincide.
proof fn step_both(a: Seq<usize>, b: Seq<usize>, p: int, q: int)
    requires
        strictly_sorted(a),
        strictly_sorted(b),
        0 <= p,
        p + 1 < a.len(),
        0 <= q,
        q + 1 < b.len(),
        a[p + 1] == b[q + 1],
        crossings(a, b) <= u32::MAX,
        crossings(b, a) <= u32::MAX,
    ensures
        crossings(a.take(p + 2), b.take(q + 2)) == crossings(a.take(p + 1), b.take(q + 1)) + q
            + 1,
        crossings(b.take(q + 2), a.take(p + 2)) == crossings(b.take(q + 1), a.take(p + 1)) + p
            + 1,
        crossings(a.take(p + 2), b.take(q + 2)) <= u32::MAX,
        crossings(b.take(q + 2), a.take(p + 2)) <= u32::MAX,
        p + 2 < a.len() ==> b[q + 1] < a[p + 2],
        q + 2 < b.len() ==> a[p + 1] < b[q + 2],
{
    let ap = a.take(p + 1);
    let bq = b.take(q + 1);
    let x = a[p + 1];
    assert(a.take(p + 2) =~= ap.push(x));
    assert(b.take(q + 2) =~= bq.push(x));
    assert(ap.push(x).drop_last() =~= ap);
    assert(bq.push(x).drop_last() =~= bq);
    // a-side
    lemma_crossings_push_right(ap, bq, x);
    lemma_count_above_none(ap, x);
    lemma_count_below_all(bq, x);
    // b-side
    lemma_crossings_push_right(bq, ap, x);
    lemma_count_above_none(bq, x);
    lemma_count_below_all(ap, x);
    lemma_crossings_take_mono(a, b, p + 2, q + 2);
    lemma_crossings_take_mono(b, a, q + 2, p + 2);
}

} // verus!
