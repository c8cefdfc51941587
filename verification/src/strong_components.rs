//! Strongly connected components of a penalty graph (Kosaraju's algorithm).
//!
//! The vertices are numbered `0..n`, so the set of visited vertices and the
//! map from a vertex to the root of its component are vectors indexed by
//! vertex number (`Vec<bool>`, `Vec<Option<usize>>`): the same sets and maps,
//! with a lookup that is one index operation and a contents that the proofs
//! read as a sequence, without hashing.
#![allow(non_snake_case)]
use vstd::prelude::*;
use vstd::map::Map;
use crate::pengraph::{
    count_false, count_none, in_some_list, lemma_count_false_mono, lemma_count_none_mono, PenaltyGraph,
};

verus! {

/// `path` follows the arcs of `g`: every vertex after the first has an arc
/// from the one before it.
pub open spec fn is_arc_path(g: PenaltyGraph, path: Seq<usize>) -> bool {
    &&& path.len() >= 1
    &&& forall|k: int| 0 <= k < path.len() ==> #[trigger] path[k] < g.vertices@.len()
    &&& forall|k: int| 0 <= k < path.len() - 1 ==> has_arc(g, #[trigger] path[k], path[k + 1])
}

/// `g` has an arc from `from` into `to`.
pub open spec fn has_arc(g: PenaltyGraph, from: usize, to: usize) -> bool {
    exists|e: int|
        0 <= e < g.vertices@[to as int].InNeighbours@.len() && #[trigger] g.vertices@[to as int].InNeighbours@[e].0 == from
}

/// Some path along the arcs of `g` leads from `a` to `b`.
pub open spec fn reaches(g: PenaltyGraph, a: usize, b: usize) -> bool {
    exists|p: Seq<usize>| is_arc_path(g, p) && p[0] == a && p[p.len() - 1] == b
}

pub proof fn lemma_reaches_refl(g: PenaltyGraph, a: usize)
    requires
        a < g.vertices@.len(),
    ensures
        reaches(g, a, a),
{
    let p = seq![a];
    assert(is_arc_path(g, p));
}

/// A path can start with one more arc.
pub proof fn lemma_reaches_prepend(g: PenaltyGraph, a: usize, b: usize, c: usize)
    requires
        a < g.vertices@.len(),
        has_arc(g, a, b),
        reaches(g, b, c),
    ensures
        reaches(g, a, c),
{
    let p = choose|p: Seq<usize>| is_arc_path(g, p) && p[0] == b && p[p.len() - 1] == c;
    let q = seq![a] + p;
    assert forall|k: int| 0 <= k < q.len() - 1 implies has_arc(g, #[trigger] q[k], q[k + 1]) by {
        if k > 0 {
            assert(q[k] == p[k - 1]);
            assert(q[k + 1] == p[k]);
        }
    }
    assert forall|k: int| 0 <= k < q.len() implies #[trigger] q[k] < g.vertices@.len() by {
        if k > 0 {
            assert(q[k] == p[k - 1]);
        }
    }
    assert(is_arc_path(g, q));
    assert(q[q.len() - 1] == c);
}

/// Paths can be joined.
pub proof fn lemma_reaches_trans(g: PenaltyGraph, a: usize, b: usize, c: usize)
    requires
        reaches(g, a, b),
        reaches(g, b, c),
    ensures
        reaches(g, a, c),
{
    let p = choose|p: Seq<usize>| is_arc_path(g, p) && p[0] == a && p[p.len() - 1] == b;
    let r = choose|r: Seq<usize>| is_arc_path(g, r) && r[0] == b && r[r.len() - 1] == c;
    let q = p + r.drop_first();
    assert forall|k: int| 0 <= k < q.len() implies #[trigger] q[k] < g.vertices@.len() by {
        if k >= p.len() {
            assert(q[k] == r[k - p.len() + 1]);
        }
    }
    assert forall|k: int| 0 <= k < q.len() - 1 implies has_arc(g, #[trigger] q[k], q[k + 1]) by {
        if k < p.len() - 1 {
            assert(q[k] == p[k]);
            assert(q[k + 1] == p[k + 1]);
        } else if k == p.len() - 1 {
            assert(q[k] == b);
            assert(q[k + 1] == r[1]);
            assert(has_arc(g, r[0], r[1]));
        } else {
            assert(q[k] == r[k - p.len() + 1]);
            assert(q[k + 1] == r[k - p.len() + 2]);
            assert(has_arc(g, r[k - p.len() + 1], r[k - p.len() + 1 + 1]));
        }
    }
    assert(is_arc_path(g, q));
    if r.len() == 1 {
        assert(q =~= p);
    } else {
        assert(q[q.len() - 1] == r[r.len() - 1]);
    }
}

/// An outgoing arc is an arc when every arc is listed at both ends.
pub proof fn lemma_out_arc(g: PenaltyGraph, a: usize, f: int)
    requires
        g.mirrored(),
        a < g.vertices@.len(),
        0 <= f < g.vertices@[a as int].OutNeighbours@.len(),
    ensures
        has_arc(g, a, g.vertices@[a as int].OutNeighbours@[f].0),
{
    let b = g.vertices@[a as int].OutNeighbours@[f].0;
    let e = choose|e: int|
        0 <= e < g.vertices@[b as int].InNeighbours@.len() && #[trigger] g.vertices@[b as int].InNeighbours@[e].0 == a;
}

/// Discovery and finishing times of a depth-first search, read off one
/// clock.
pub struct DfsTimes {
    pub disc: Map<usize, int>,
    pub fin: Map<usize, int>,
    pub clock: int,
}

/// The search of `x` has started and not finished.
pub open spec fn gray(t: DfsTimes, x: usize) -> bool {
    t.disc.contains_key(x) && !t.fin.contains_key(x)
}

/// Some vertex that `x` reaches and that reaches `x` is still searched or
/// finished after `y`.
pub open spec fn late_partner(g: PenaltyGraph, t: DfsTimes, x: usize, y: usize) -> bool {
    exists|z: usize|
        #[trigger] reaches(g, x, z) && reaches(g, z, x) && (gray(t, z) || (t.fin.contains_key(z) && t.fin[z] > t.fin[y]))
}

impl PenaltyGraph {
    /// The state of the depth-first search: `vis` marks the discovered
    /// vertices, `list` holds the finished ones by finishing time, every
    /// finished vertex had all its successors discovered before it finished,
    /// a vertex still searched reaches every vertex discovered after it, a
    /// finished vertex discovered before a vertex still searched finished
    /// before that one was discovered, and a finished vertex that reaches a
    /// finished vertex not reaching back has a partner in its component
    /// that is still searched or finished later.
    #[verifier::opaque]
    pub open spec fn dfs_ok(&self, vis: Seq<bool>, list: Seq<usize>, t: DfsTimes) -> bool {
        let n = self.vertices@.len();
        &&& vis.len() == n
        &&& t.clock >= 0
        &&& forall|j: int| 0 <= j < list.len() ==> #[trigger] list[j] < n
        &&& forall|x: usize| x < n ==> (#[trigger] vis[x as int] <==> t.disc.contains_key(x))
        &&& forall|x: usize| #[trigger] t.disc.contains_key(x) ==> x < n && 0 <= t.disc[x] < t.clock
        &&& forall|x: usize| #[trigger] t.fin.contains_key(x) ==> t.disc.contains_key(x) && t.disc[x] < t.fin[x] < t.clock
        &&& forall|x: usize| #[trigger] list.contains(x) <==> t.fin.contains_key(x)
        &&& forall|x: usize, y: usize|
            #[trigger] t.disc.contains_key(x) && #[trigger] t.disc.contains_key(y) && x != y ==> t.disc[x] != t.disc[y]
        &&& forall|x: usize, y: usize|
            #[trigger] t.disc.contains_key(x) && #[trigger] t.fin.contains_key(y) ==> t.disc[x] != t.fin[y]
        &&& forall|i: int, j: int| 0 <= i < j < list.len() ==> t.fin[#[trigger] list[i]] < t.fin[#[trigger] list[j]]
        &&& forall|b: usize, f: int|
            #[trigger] t.fin.contains_key(b) && 0 <= f < self.vertices@[b as int].OutNeighbours@.len() ==> {
                let w = #[trigger] self.vertices@[b as int].OutNeighbours@[f].0;
                t.disc.contains_key(w) && t.disc[w] < t.fin[b]
            }
        &&& forall|p: usize, x: usize|
            #[trigger] gray(t, p) && #[trigger] t.disc.contains_key(x) && t.disc[p] < t.disc[x] ==> reaches(*self, p, x)
        &&& forall|p: usize, x: usize|
            #[trigger] gray(t, p) && #[trigger] t.fin.contains_key(x) && t.disc[x] < t.disc[p] ==> t.fin[x] < t.disc[p]
        &&& forall|x: usize, y: usize|
            #[trigger] t.fin.contains_key(x) && #[trigger] t.fin.contains_key(y) && reaches(*self, x, y) && !reaches(
                *self,
                y,
                x,
            ) ==> late_partner(*self, t, x, y)
    }
}

/// Nothing searched yet.
proof fn lemma_dfs_start(g: PenaltyGraph, vis: Seq<bool>)
    requires
        vis.len() == g.vertices@.len(),
        forall|x: int| 0 <= x < vis.len() ==> !#[trigger] vis[x],
    ensures
        g.dfs_ok(vis, Seq::empty(), DfsTimes { disc: Map::empty(), fin: Map::empty(), clock: 0 }),
{
    reveal(PenaltyGraph::dfs_ok);
}

/// Starting the search of an undiscovered vertex that every vertex still
/// searched reaches.
proof fn lemma_dfs_discover(g: PenaltyGraph, vis: Seq<bool>, list: Seq<usize>, t: DfsTimes, v: usize)
    requires
        g.dfs_ok(vis, list, t),
        v < g.vertices@.len(),
        !vis[v as int],
        forall|p: usize| gray(t, p) ==> reaches(g, p, v),
    ensures
        g.dfs_ok(
            vis.update(v as int, true),
            list,
            DfsTimes { disc: t.disc.insert(v, t.clock), fin: t.fin, clock: t.clock + 1 },
        ),
{
    reveal(PenaltyGraph::dfs_ok);
    let t2 = DfsTimes { disc: t.disc.insert(v, t.clock), fin: t.fin, clock: t.clock + 1 };
    let v2 = vis.update(v as int, true);
    assert(!t.disc.contains_key(v));
    assert(!t.fin.contains_key(v));
    assert forall|x: usize| x < g.vertices@.len() implies (#[trigger] v2[x as int] <==> t2.disc.contains_key(x)) by {
        if x != v {
            assert(v2[x as int] == vis[x as int]);
        }
    }
    assert forall|p: usize, x: usize|
        #[trigger] gray(t2, p) && #[trigger] t2.disc.contains_key(x) && t2.disc[p] < t2.disc[x] implies reaches(g, p, x) by {
        if p == v {
        } else if x == v {
            assert(gray(t, p));
        } else {
            assert(gray(t, p));
        }
    }
    assert forall|p: usize, x: usize|
        #[trigger] gray(t2, p) && #[trigger] t2.fin.contains_key(x) && t2.disc[x] < t2.disc[p] implies t2.fin[x] < t2.disc[p] by {
        if p != v {
            assert(gray(t, p));
        }
    }
    assert forall|x: usize, y: usize|
        #[trigger] t2.fin.contains_key(x) && #[trigger] t2.fin.contains_key(y) && reaches(g, x, y) && !reaches(g, y, x)
            implies late_partner(g, t2, x, y) by {
        assert(late_partner(g, t, x, y));
        let z = choose|z: usize|
            reaches(g, x, z) && reaches(g, z, x) && (gray(t, z) || (t.fin.contains_key(z) && t.fin[z] > t.fin[y]));
        if gray(t, z) {
            assert(gray(t2, z));
        }
    }
    let n = g.vertices@.len();
    assert(v2.len() == n);
    assert forall|x: usize| #[trigger] t2.disc.contains_key(x) implies x < n && 0 <= t2.disc[x] < t2.clock by {
        if x != v {
            assert(t.disc.contains_key(x));
        }
    }
    assert forall|x: usize| #[trigger] t2.fin.contains_key(x) implies t2.disc.contains_key(x) && t2.disc[x] < t2.fin[x] < t2.clock by {
        assert(x != v);
    }
    assert forall|x: usize, y: usize|
        #[trigger] t2.disc.contains_key(x) && #[trigger] t2.disc.contains_key(y) && x != y implies t2.disc[x] != t2.disc[y] by {}
    assert forall|x: usize, y: usize|
        #[trigger] t2.disc.contains_key(x) && #[trigger] t2.fin.contains_key(y) implies t2.disc[x] != t2.fin[y] by {}
    assert forall|i: int, j: int| 0 <= i < j < list.len() implies t2.fin[#[trigger] list[i]] < t2.fin[#[trigger] list[j]] by {}
    assert forall|b: usize, f: int|
        #[trigger] t2.fin.contains_key(b) && 0 <= f < g.vertices@[b as int].OutNeighbours@.len() implies {
        let w = #[trigger] g.vertices@[b as int].OutNeighbours@[f].0;
        t2.disc.contains_key(w) && t2.disc[w] < t2.fin[b]
    } by {}
    assert(g.dfs_ok(v2, list, t2));
}

/// From a finished vertex, a path to a vertex still searched passes a vertex
/// still searched that was discovered before the finished one.
proof fn lemma_black_reaches_gray(g: PenaltyGraph, vis: Seq<bool>, list: Seq<usize>, t: DfsTimes, path: Seq<usize>)
    requires
        g.mirrored(),
        g.dfs_ok(vis, list, t),
        is_arc_path(g, path),
        t.fin.contains_key(path[0]),
        gray(t, path[path.len() - 1]),
    ensures
        exists|p: usize| gray(t, p) && reaches(g, path[0], p) && t.disc[p] < t.disc[path[0]],
    decreases path.len(),
{
    reveal(PenaltyGraph::dfs_ok);
    let a = path[0];
    assert(path.len() >= 2);
    let b = path[1];
    assert(has_arc(g, path[0], path[0int + 1]));
    let e = choose|e: int| 0 <= e < g.vertices@[b as int].InNeighbours@.len() && #[trigger] g.vertices@[b as int].InNeighbours@[e].0 == a;
    assert(g.vertices@[b as int].InNeighbours@[e].0 == a);
    let f = choose|f: int|
        0 <= f < g.vertices@[a as int].OutNeighbours@.len() && #[trigger] g.vertices@[a as int].OutNeighbours@[f].0 == b;
    assert(t.disc.contains_key(b) && t.disc[b] < t.fin[a]);
    assert(b < g.vertices@.len());
    if gray(t, b) {
        lemma_reaches_refl(g, b);
        lemma_reaches_prepend(g, a, b, b);
        if t.disc[a] > t.disc[b] {
        } else {
            assert(t.disc[a] != t.disc[b]);
            assert(t.fin[a] < t.disc[b]);
        }
    } else {
        let rest = path.drop_first();
        assert forall|k: int| 0 <= k < rest.len() - 1 implies has_arc(g, #[trigger] rest[k], rest[k + 1]) by {
            assert(rest[k] == path[k + 1]);
            assert(rest[k + 1] == path[k + 1 + 1]);
        }
        assert forall|k: int| 0 <= k < rest.len() implies #[trigger] rest[k] < g.vertices@.len() by {
            assert(rest[k] == path[k + 1]);
        }
        assert(rest[rest.len() - 1] == path[path.len() - 1]);
        lemma_black_reaches_gray(g, vis, list, t, rest);
        let p = choose|p: usize| gray(t, p) && reaches(g, rest[0], p) && t.disc[p] < t.disc[rest[0]];
        lemma_reaches_prepend(g, a, b, p);
        if t.disc[a] < t.disc[p] {
            assert(t.fin[a] < t.disc[p]);
        }
        assert(t.disc[a] != t.disc[p]);
    }
}

/// Finishing `v` keeps a partner for every pair of finished vertices.
proof fn lemma_partner_after_finish(
    g: PenaltyGraph,
    vis: Seq<bool>,
    list: Seq<usize>,
    t: DfsTimes,
    v: usize,
    x: usize,
    y: usize,
)
    requires
        g.mirrored(),
        g.dfs_ok(vis, list, t),
        gray(t, v),
        t.fin.insert(v, t.clock).contains_key(x),
        t.fin.insert(v, t.clock).contains_key(y),
        reaches(g, x, y),
        !reaches(g, y, x),
    ensures
        late_partner(g, DfsTimes { disc: t.disc, fin: t.fin.insert(v, t.clock), clock: t.clock + 1 }, x, y),
{
    reveal(PenaltyGraph::dfs_ok);
    let t2 = DfsTimes { disc: t.disc, fin: t.fin.insert(v, t.clock), clock: t.clock + 1 };

        if x == v {
            lemma_reaches_refl(g, v);
            assert(y != v);
            assert(t.fin.contains_key(y));
            assert(t2.fin[v] > t2.fin[y]);
            assert(reaches(g, x, v) && reaches(g, v, x) && (gray(t2, v) || (t2.fin.contains_key(v) && t2.fin[v]
                > t2.fin[y])));
        } else if y == v {
            let path = choose|path: Seq<usize>| is_arc_path(g, path) && path[0] == x && path[path.len() - 1] == v;
            lemma_black_reaches_gray(g, vis, list, t, path);
            let p = choose|p: usize| gray(t, p) && reaches(g, path[0], p) && t.disc[p] < t.disc[path[0]];
            assert(t.disc.contains_key(x));
            assert(reaches(g, p, x));
            assert(p != v);
            assert(gray(t2, p));
            assert(reaches(g, x, p) && reaches(g, p, x) && (gray(t2, p) || (t2.fin.contains_key(p) && t2.fin[p]
                > t2.fin[y])));
        } else {
            assert(t.fin.contains_key(x));
            assert(t.fin.contains_key(y));
            assert(late_partner(g, t, x, y));
            let z = choose|z: usize|
                reaches(g, x, z) && reaches(g, z, x) && (gray(t, z) || (t.fin.contains_key(z) && t.fin[z] > t.fin[y]));
            if z == v {
                assert(t2.fin[z] > t2.fin[y]);
            } else if gray(t, z) {
                assert(gray(t2, z));
            } else {
                assert(t2.fin[z] == t.fin[z]);
            }
            assert(reaches(g, x, z) && reaches(g, z, x) && (gray(t2, z) || (t2.fin.contains_key(z) && t2.fin[z]
                > t2.fin[y])));
        }
}

/// Finishing the search of the most recently discovered vertex still
/// searched, once all its successors are discovered.
proof fn lemma_dfs_finish(g: PenaltyGraph, vis: Seq<bool>, list: Seq<usize>, t: DfsTimes, v: usize)
    requires
        g.mirrored(),
        g.dfs_ok(vis, list, t),
        gray(t, v),
        forall|p: usize| gray(t, p) && p != v ==> t.disc[p] < t.disc[v],
        forall|f: int|
            0 <= f < g.vertices@[v as int].OutNeighbours@.len() ==> t.disc.contains_key(
                #[trigger] g.vertices@[v as int].OutNeighbours@[f].0,
            ),
    ensures
        g.dfs_ok(vis, list.push(v), DfsTimes { disc: t.disc, fin: t.fin.insert(v, t.clock), clock: t.clock + 1 }),
{
    reveal(PenaltyGraph::dfs_ok);
    let t2 = DfsTimes { disc: t.disc, fin: t.fin.insert(v, t.clock), clock: t.clock + 1 };
    let l2 = list.push(v);
    assert(!list.contains(v));
    assert forall|x: usize| #[trigger] l2.contains(x) <==> t2.fin.contains_key(x) by {
        if l2.contains(x) && x != v {
            let j = choose|j: int| 0 <= j < l2.len() && l2[j] == x;
            assert(list[j] == x);
        }
        if list.contains(x) {
            let j = choose|j: int| 0 <= j < list.len() && list[j] == x;
            assert(l2[j] == x);
        }
        if x == v {
            assert(l2[list.len() as int] == v);
        }
    }
    assert forall|i: int, j: int| 0 <= i < j < l2.len() implies t2.fin[#[trigger] l2[i]] < t2.fin[#[trigger] l2[j]] by {
        assert(l2[i] == list[i]);
        assert(list.contains(list[i]));
        if j < list.len() {
            assert(l2[j] == list[j]);
            assert(list.contains(list[j]));
        }
    }
    assert forall|b: usize, f: int|
        #[trigger] t2.fin.contains_key(b) && 0 <= f < g.vertices@[b as int].OutNeighbours@.len() implies {
        let w = #[trigger] g.vertices@[b as int].OutNeighbours@[f].0;
        t2.disc.contains_key(w) && t2.disc[w] < t2.fin[b]
    } by {
        if b == v {
            let w = g.vertices@[b as int].OutNeighbours@[f].0;
            assert(t.disc.contains_key(w));
        }
    }
    assert forall|p: usize, x: usize|
        #[trigger] gray(t2, p) && #[trigger] t2.fin.contains_key(x) && t2.disc[x] < t2.disc[p] implies t2.fin[x] < t2.disc[p] by {
        assert(gray(t, p));
        assert(p != v);
    }
    assert forall|p: usize, x: usize|
        #[trigger] gray(t2, p) && #[trigger] t2.disc.contains_key(x) && t2.disc[p] < t2.disc[x] implies reaches(g, p, x) by {
        assert(gray(t, p));
    }
    assert forall|x: usize, y: usize|
        #[trigger] t2.fin.contains_key(x) && #[trigger] t2.fin.contains_key(y) && reaches(g, x, y) && !reaches(g, y, x)
            implies late_partner(g, t2, x, y) by {
        lemma_partner_after_finish(g, vis, list, t, v, x, y);
    }
    assert(g.dfs_ok(vis, l2, t2));
}

/// Some vertex after place `j` of `list` lies in the component of `list[i]`.
spec fn later_partner_in(g: PenaltyGraph, list: Seq<usize>, i: int, j: int) -> bool {
    exists|k: int| j < k < list.len() && #[trigger] reaches(g, list[i], list[k]) && reaches(g, list[k], list[i])
}

/// After the search every vertex is finished: the list holds every vertex
/// once, and when a vertex reaches a later one that does not reach back,
/// some vertex of its component comes after that later one.
proof fn lemma_dfs_done(g: PenaltyGraph, vis: Seq<bool>, list: Seq<usize>, t: DfsTimes)
    requires
        g.dfs_ok(vis, list, t),
        forall|p: usize| !gray(t, p),
        forall|x: int| 0 <= x < vis.len() ==> #[trigger] vis[x],
    ensures
        forall|j: int| 0 <= j < list.len() ==> #[trigger] list[j] < g.vertices@.len(),
        forall|x: usize| x < g.vertices@.len() ==> #[trigger] list.contains(x),
        forall|i: int, j: int| 0 <= i < j < list.len() ==> list[i] != list[j],
        forall|i: int, j: int|
            0 <= i < list.len() && 0 <= j < list.len() && #[trigger] reaches(g, list[i], list[j]) && !reaches(
                g,
                list[j],
                list[i],
            ) ==> later_partner_in(g, list, i, j),
{
    reveal(PenaltyGraph::dfs_ok);
    assert forall|x: usize| x < g.vertices@.len() implies #[trigger] list.contains(x) by {
        assert(vis[x as int]);
        assert(t.disc.contains_key(x));
        assert(!gray(t, x));
    }
    assert forall|i: int, j: int| 0 <= i < j < list.len() implies list[i] != list[j] by {
        assert(t.fin[list[i]] < t.fin[list[j]]);
    }
    assert forall|i: int, j: int|
        0 <= i < list.len() && 0 <= j < list.len() && #[trigger] reaches(g, list[i], list[j]) && !reaches(
            g,
            list[j],
            list[i],
        ) implies later_partner_in(g, list, i, j) by {
        let x = list[i];
        let y = list[j];
        assert(list.contains(x));
        assert(list.contains(y));
        assert(late_partner(g, t, x, y));
        let z = choose|z: usize|
            #[trigger] reaches(g, x, z) && reaches(g, z, x) && (gray(t, z) || (t.fin.contains_key(z) && t.fin[z] > t.fin[y]));
        assert(!gray(t, z));
        assert(list.contains(z));
        let k = choose|k: int| 0 <= k < list.len() && list[k] == z;
        if k <= j {
            if k < j {
                assert(t.fin[list[k]] < t.fin[list[j]]);
            }
        }
        assert(j < k);
        assert(reaches(g, list[i], list[k]) && reaches(g, list[k], list[i]));
    }
}

impl PenaltyGraph {
    /// Every part is strongly connected: its vertices reach each other.
    pub open spec fn strongly_connected_parts(&self, comps: Seq<Seq<usize>>) -> bool {
        forall|c: int, k1: int, k2: int|
            0 <= c < comps.len() && 0 <= k1 < comps[c].len() && 0 <= k2 < comps[c].len() ==> reaches(
                *self,
                #[trigger] comps[c][k1],
                #[trigger] comps[c][k2],
            )
    }
}

impl PenaltyGraph {
    /// Depth-first search along the outgoing arcs; every vertex is appended to
    /// `VisitingList` when its search is finished.
    fn Visit(
        &self,
        VisitingList: &mut Vec<usize>,
        vertice_hash_set: &mut Vec<bool>,
        visiting_vertex: usize,
        Ghost(t0): Ghost<DfsTimes>,
    ) -> (t: Ghost<DfsTimes>)
        requires
            self.arcs_in_range(),
            self.mirrored(),
            self.dfs_ok(old(vertice_hash_set)@, old(VisitingList)@, t0),
            visiting_vertex < self.vertices@.len(),
            forall|p: usize| gray(t0, p) ==> reaches(*self, p, visiting_vertex),
        ensures
            self.dfs_ok(final(vertice_hash_set)@, final(VisitingList)@, t@),
            final(vertice_hash_set)@.len() == old(vertice_hash_set)@.len(),
            final(vertice_hash_set)@[visiting_vertex as int],
            forall|x: int| 0 <= x < old(vertice_hash_set)@.len() && old(vertice_hash_set)@[x] ==> #[trigger] final(vertice_hash_set)@[x],
            forall|p: usize| gray(t@, p) <==> gray(t0, p),
            forall|x: usize| #[trigger] t0.disc.contains_key(x) ==> t@.disc.contains_key(x) && t@.disc[x] == t0.disc[x],
            forall|x: usize| #[trigger] t@.disc.contains_key(x) && !t0.disc.contains_key(x) ==> t@.disc[x] >= t0.clock,
            t@.clock >= t0.clock,
        decreases count_false(old(vertice_hash_set)@),
    {
        proof {
            reveal(PenaltyGraph::dfs_ok);
        }
        if !vertice_hash_set[visiting_vertex] {
            let ghost vis0 = vertice_hash_set@;
            let ghost v = visiting_vertex;
            proof {
                lemma_dfs_discover(*self, vis0, VisitingList@, t0, v);
            }
            let ghost mut t = DfsTimes { disc: t0.disc.insert(v, t0.clock), fin: t0.fin, clock: t0.clock + 1 };
            vertice_hash_set.set(visiting_vertex, true);
            proof {
                lemma_count_false_mono(vis0, vertice_hash_set@, visiting_vertex as int);
                assert(!t0.disc.contains_key(v));
            }
            let out = &self.vertices[visiting_vertex].OutNeighbours;
            let mut k: usize = 0;
            while k < out.len()
                invariant
                    self.arcs_in_range(),
                    self.mirrored(),
                    out@ == self.vertices@[visiting_vertex as int].OutNeighbours@,
                    v == visiting_vertex,
                    visiting_vertex < self.vertices@.len(),
                    k <= out@.len(),
                    vertice_hash_set@.len() == vis0.len(),
                    vis0 == old(vertice_hash_set)@,
                    vis0.len() == self.vertices@.len(),
                    !vis0[visiting_vertex as int],
                    vertice_hash_set@[visiting_vertex as int],
                    forall|x: int| 0 <= x < vis0.len() && vis0[x] ==> #[trigger] vertice_hash_set@[x],
                    count_false(vertice_hash_set@) < count_false(vis0),
                    self.dfs_ok(vertice_hash_set@, VisitingList@, t),
                    !t0.disc.contains_key(v),
                    forall|p: usize| gray(t, p) <==> (gray(t0, p) || p == v),
                    forall|p: usize| gray(t0, p) ==> reaches(*self, p, v),
                    forall|x: usize| #[trigger] t0.disc.contains_key(x) ==> t.disc.contains_key(x) && t.disc[x] == t0.disc[x],
                    forall|x: usize| #[trigger] t.disc.contains_key(x) && !t0.disc.contains_key(x) ==> t.disc[x] >= t0.clock,
                    t.disc.contains_key(v),
                    t.disc[v] == t0.clock,
                    t.clock > t0.clock,
                    t0.clock >= 0,
                    forall|p: usize| #[trigger] gray(t0, p) ==> t0.disc[p] < t0.clock,
                    forall|j: int| 0 <= j < k ==> t.disc.contains_key(#[trigger] out@[j].0),
                decreases out@.len() - k,
            {
                let w = out[k].0;
                proof {
                    reveal(PenaltyGraph::dfs_ok);
                    lemma_out_arc(*self, v, k as int);
                    lemma_reaches_refl(*self, w);
                    lemma_reaches_prepend(*self, v, w, w);
                    assert forall|p: usize| gray(t, p) implies reaches(*self, p, w) by {
                        if p != v {
                            lemma_reaches_trans(*self, p, v, w);
                        }
                    }
                }
                let ghost vis1 = vertice_hash_set@;
                let ghost tb = t;
                let t1 = self.Visit(VisitingList, vertice_hash_set, w, Ghost(t));
                proof {
                    lemma_count_false_mono(vis1, vertice_hash_set@, -1);
                    t = t1@;
                    reveal(PenaltyGraph::dfs_ok);
                    assert(t.disc.contains_key(w));
                    assert forall|j: int| 0 <= j < k + 1 implies t.disc.contains_key(#[trigger] out@[j].0) by {
                        if j < k {
                            assert(tb.disc.contains_key(out@[j].0));
                        }
                    }
                    assert forall|x: usize| #[trigger] t.disc.contains_key(x) && !t0.disc.contains_key(x) implies t.disc[x]
                        >= t0.clock by {
                        if tb.disc.contains_key(x) {
                        }
                    }
                }
                k += 1;
            }
            proof {
                reveal(PenaltyGraph::dfs_ok);
                assert forall|p: usize| gray(t, p) && p != v implies t.disc[p] < t.disc[v] by {
                    assert(gray(t0, p));
                }
                lemma_dfs_finish(*self, vertice_hash_set@, VisitingList@, t, v);
            }
            VisitingList.push(visiting_vertex);
            proof {
                t = DfsTimes { disc: t.disc, fin: t.fin.insert(v, t.clock), clock: t.clock + 1 };
            }
            return Ghost(t);
        }
        Ghost(t0)
    }
}

/// Root of an assigned vertex.
pub open spec fn root_of(assigned: Seq<Option<usize>>, x: int) -> usize {
    assigned[x]->Some_0
}

/// Vertices `x < v` whose root has rank `c`, ascending.
pub open spec fn members_upto(assigned: Seq<Option<usize>>, rank: Seq<usize>, c: int, v: int) -> Seq<usize>
    decreases v,
{
    if v <= 0 {
        Seq::empty()
    } else {
        let rest = members_upto(assigned, rank, c, v - 1);
        if rank[root_of(assigned, v - 1) as int] == c {
            rest.push((v - 1) as usize)
        } else {
            rest
        }
    }
}

proof fn lemma_members_upto(assigned: Seq<Option<usize>>, rank: Seq<usize>, c: int, v: int)
    requires
        0 <= v <= usize::MAX,
    ensures
        forall|i: int|
            0 <= i < members_upto(assigned, rank, c, v).len() ==> {
                let x = #[trigger] members_upto(assigned, rank, c, v)[i];
                &&& x < v
                &&& rank[root_of(assigned, x as int) as int] == c
            },
        forall|i: int, j: int|
            0 <= i < j < members_upto(assigned, rank, c, v).len() ==> members_upto(assigned, rank, c, v)[i]
                < members_upto(assigned, rank, c, v)[j],
        forall|x: usize|
            x < v && rank[root_of(assigned, x as int) as int] == c ==> #[trigger] members_upto(
                assigned,
                rank,
                c,
                v,
            ).contains(x),
    decreases v,
{
    if v > 0 {
        lemma_members_upto(assigned, rank, c, v - 1);
        let rest = members_upto(assigned, rank, c, v - 1);
        if rank[root_of(assigned, v - 1) as int] == c {
            let full = rest.push((v - 1) as usize);
            assert forall|x: usize| x < v && rank[root_of(assigned, x as int) as int] == c implies #[trigger] full.contains(x) by {
                if x == v - 1 {
                    assert(full[rest.len() as int] == x);
                } else {
                    assert(rest.contains(x));
                    let k = choose|k: int| 0 <= k < rest.len() && #[trigger] rest[k] == x;
                    assert(full[k] == x);
                }
            }
        }
    }
}

proof fn lemma_count_none_bounds(s: Seq<Option<usize>>, i: int)
    ensures
        count_none(s) <= s.len(),
        0 <= i < s.len() && s[i] is None ==> count_none(s) >= 1,
    decreases s.len(),
{
    if s.len() > 0 {
        lemma_count_none_bounds(s.drop_last(), i);
    }
}

/// The marked vertices are closed under incoming arcs.
spec fn closed_under_in_arcs(g: PenaltyGraph, a: Seq<Option<usize>>) -> bool {
    forall|x: int, e: int|
        0 <= x < g.vertices@.len() && a[x] is Some && 0 <= e < g.vertices@[x].InNeighbours@.len() ==> a[
            #[trigger] g.vertices@[x].InNeighbours@[e].0 as int] is Some
}

/// A vertex that reaches a marked vertex is marked when the marks are closed
/// under incoming arcs.
proof fn lemma_assigned_upstream(g: PenaltyGraph, a: Seq<Option<usize>>, path: Seq<usize>)
    requires
        closed_under_in_arcs(g, a),
        is_arc_path(g, path),
        a[path[path.len() - 1] as int] is Some,
    ensures
        a[path[0] as int] is Some,
    decreases path.len(),
{
    if path.len() > 1 {
        let rest = path.drop_first();
        assert forall|k: int| 0 <= k < rest.len() - 1 implies has_arc(g, #[trigger] rest[k], rest[k + 1]) by {
            assert(rest[k] == path[k + 1]);
            assert(rest[k + 1] == path[k + 1 + 1]);
        }
        assert forall|k: int| 0 <= k < rest.len() implies #[trigger] rest[k] < g.vertices@.len() by {
            assert(rest[k] == path[k + 1]);
        }
        assert(rest[rest.len() - 1] == path[path.len() - 1]);
        lemma_assigned_upstream(g, a, rest);
        assert(has_arc(g, path[0], path[0int + 1]));
        let b = path[1];
        let e = choose|e: int|
            0 <= e < g.vertices@[b as int].InNeighbours@.len() && #[trigger] g.vertices@[b as int].InNeighbours@[e].0
                == path[0];
        assert(b < g.vertices@.len());
    }
}

/// In the second pass, a vertex newly marked from the root `full[m]` is
/// reached by the root: otherwise a vertex of its component would come after
/// the root, and would have been marked already, and so would the vertex.
proof fn lemma_new_member_reached(g: PenaltyGraph, full: Seq<usize>, m: int, a0: Seq<Option<usize>>, x: usize)
    requires
        forall|j: int| 0 <= j < full.len() ==> #[trigger] full[j] < g.vertices@.len(),
        forall|i: int, j: int| 0 <= i < j < full.len() ==> full[i] != full[j],
        forall|i: int, j: int|
            0 <= i < full.len() && 0 <= j < full.len() && #[trigger] reaches(g, full[i], full[j]) && !reaches(
                g,
                full[j],
                full[i],
            ) ==> later_partner_in(g, full, i, j),
        0 <= m < full.len(),
        a0.len() == g.vertices@.len(),
        forall|y: int| 0 <= y < g.vertices@.len() && !full.take(m + 1).contains(y as usize) ==> (#[trigger] a0[y]) is Some,
        closed_under_in_arcs(g, a0),
        x < g.vertices@.len(),
        a0[x as int] is None,
        reaches(g, x, full[m]),
    ensures
        reaches(g, full[m], x),
{
    let pre = full.take(m + 1);
    assert(pre.contains(x));
    let i = choose|i: int| 0 <= i < pre.len() && pre[i] == x;
    assert(full[i] == x);
    if i == m {
        lemma_reaches_refl(g, x);
    } else if !reaches(g, full[m], x) {
        assert(reaches(g, full[i], full[m]));
        assert(later_partner_in(g, full, i, m));
        let k = choose|k: int| m < k < full.len() && #[trigger] reaches(g, full[i], full[k]) && reaches(g, full[k], full[i]);
        let z = full[k];
        if pre.contains(z) {
            let j = choose|j: int| 0 <= j < pre.len() && pre[j] == z;
            assert(full[j] == full[k]);
        }
        assert(a0[z as int] is Some);
        let path = choose|p: Seq<usize>| is_arc_path(g, p) && p[0] == x && p[p.len() - 1] == z;
        lemma_assigned_upstream(g, a0, path);
    }
}

impl PenaltyGraph {
    /// Marks, along the incoming arcs, every unmarked vertex that reaches `u`
    /// through unmarked vertices with `root`.
    fn Assign(&self, Result: &mut Vec<Option<usize>>, u: usize, root: usize)
        requires
            self.arcs_in_range(),
            old(Result)@.len() == self.vertices@.len(),
            u < self.vertices@.len(),
            reaches(*self, u, root),
        ensures
            final(Result)@.len() == old(Result)@.len(),
            forall|x: int|
                0 <= x < old(Result)@.len() && old(Result)@[x] is None && #[trigger] final(Result)@[x] is Some
                    ==> reaches(*self, x as usize, root),
            final(Result)@[u as int] is Some,
            old(Result)@[u as int] is Some ==> final(Result)@ == old(Result)@,
            forall|x: int| 0 <= x < old(Result)@.len() && old(Result)@[x] is Some ==> #[trigger] final(Result)@[x] == old(Result)@[x],
            forall|x: int|
                0 <= x < old(Result)@.len() && old(Result)@[x] is None && #[trigger] final(Result)@[x] is Some
                    ==> final(Result)@[x] == Some(root),
            forall|x: int, e: int|
                0 <= x < old(Result)@.len() && old(Result)@[x] is None && final(Result)@[x] is Some && 0 <= e
                    < self.vertices@[x].InNeighbours@.len() ==> #[trigger] final(Result)@[self.vertices@[x].InNeighbours@[e].0 as int] is Some,
        decreases count_none(old(Result)@),
    {
        if Result[u].is_none() {
            let ghost r0 = Result@;
            Result.set(u, Some(root));
            proof {
                lemma_count_none_mono(r0, Result@, u as int);
            }
            let ins = &self.vertices[u].InNeighbours;
            let mut k: usize = 0;
            while k < ins.len()
                invariant
                    self.arcs_in_range(),
                    ins@ == self.vertices@[u as int].InNeighbours@,
                    u < self.vertices@.len(),
                    k <= ins@.len(),
                    r0 == old(Result)@,
                    r0.len() == self.vertices@.len(),
                    Result@.len() == r0.len(),
                    r0[u as int] is None,
                    Result@[u as int] == Some(root),
                    count_none(Result@) < count_none(r0),
                    forall|x: int| 0 <= x < r0.len() && r0[x] is Some ==> #[trigger] Result@[x] == r0[x],
                    forall|x: int|
                        0 <= x < r0.len() && r0[x] is None && #[trigger] Result@[x] is Some ==> Result@[x] == Some(root),
                    forall|x: int, e: int|
                        0 <= x < r0.len() && r0[x] is None && Result@[x] is Some && x != u && 0 <= e
                            < self.vertices@[x].InNeighbours@.len() ==> #[trigger] Result@[self.vertices@[x].InNeighbours@[e].0 as int] is Some,
                    forall|e: int| 0 <= e < k ==> #[trigger] Result@[ins@[e].0 as int] is Some,
                    reaches(*self, u, root),
                    forall|x: int|
                        0 <= x < r0.len() && r0[x] is None && #[trigger] Result@[x] is Some ==> reaches(
                            *self,
                            x as usize,
                            root,
                        ),
                decreases ins@.len() - k,
            {
                let w = ins[k].0;
                let ghost r1 = Result@;
                proof {
                    assert(has_arc(*self, w, u));
                    lemma_reaches_prepend(*self, w, u, root);
                }
                self.Assign(Result, w, root);
                proof {
                    lemma_count_none_mono(r1, Result@, -1);
                }
                k += 1;
            }
        }
    }

    /// Splits the vertices into strongly connected components (Kosaraju: a
    /// depth-first search along the outgoing arcs, then, in reverse finishing
    /// order, a search along the incoming arcs from every unassigned vertex).
    /// The components come in the order in which they were found, which no
    /// arc goes against, and every component lists its vertices in ascending
    /// order.  The vertices of a component reach each other; by the order,
    /// vertices that reach each other share a component.
    pub fn generateStronglyConnectedComponents(&self) -> (res: Vec<Vec<usize>>)
        requires
            self.arcs_in_range(),
            self.mirrored(),
        ensures
            self.is_vertex_partition(res@.map_values(|c: Vec<usize>| c@)),
            self.arcs_go_forward(res@.map_values(|c: Vec<usize>| c@)),
            self.strongly_connected_parts(res@.map_values(|c: Vec<usize>| c@)),
            forall|c: int, i: int, j: int|
                0 <= c < res@.len() && 0 <= i < j < res@[c]@.len() ==> res@[c]@[i] < res@[c]@[j],
    {
        let n = self.vertices.len();
        let mut vertices: Vec<bool> = Vec::new();
        let mut k: usize = 0;
        while k < n
            invariant
                k <= n,
                vertices@.len() == k,
                forall|x: int| 0 <= x < k ==> !(#[trigger] vertices@[x]),
            decreases n - k,
        {
            vertices.push(false);
            k += 1;
        }
        let mut visiting_list: Vec<usize> = Vec::new();
        let ghost mut t = DfsTimes { disc: Map::empty(), fin: Map::empty(), clock: 0 };
        proof {
            lemma_dfs_start(*self, vertices@);
        }
        let mut vertex: usize = 0;
        while vertex < n
            invariant
                n == self.vertices@.len(),
                self.arcs_in_range(),
                self.mirrored(),
                vertex <= n,
                vertices@.len() == n,
                forall|x: int| 0 <= x < vertex ==> #[trigger] vertices@[x],
                self.dfs_ok(vertices@, visiting_list@, t),
                forall|p: usize| !gray(t, p),
            decreases n - vertex,
        {
            let t1 = self.Visit(&mut visiting_list, &mut vertices, vertex, Ghost(t));
            proof {
                t = t1@;
            }
            vertex += 1;
        }
        proof {
            lemma_dfs_done(*self, vertices@, visiting_list@, t);
        }
        let ghost full = visiting_list@;
        // second pass
        let mut tempresult: Vec<Option<usize>> = Vec::new();
        let mut rank: Vec<usize> = Vec::new();
        let mut k: usize = 0;
        proof {
            assert forall|x: int| 0 <= x < n implies #[trigger] visiting_list@.contains(x as usize) by {
                assert(vertices@[x]);
            }
        }
        while k < n
            invariant
                forall|x: int| 0 <= x < n ==> #[trigger] visiting_list@.contains(x as usize),
                visiting_list@ == full,
                k <= n,
                tempresult@.len() == k,
                rank@.len() == k,
                forall|x: int| 0 <= x < k ==> (#[trigger] tempresult@[x]) is None,
            decreases n - k,
        {
            tempresult.push(None);
            rank.push(0);
            k += 1;
        }
        let mut count: usize = 0;
        let ghost mut found_roots: Seq<usize> = Seq::empty();
        proof {
            lemma_count_none_bounds(tempresult@, 0);
        }
        while visiting_list.len() > 0
            invariant
                n == self.vertices@.len(),
                self.arcs_in_range(),
                tempresult@.len() == n,
                rank@.len() == n,
                count == found_roots.len(),
                count <= n,
                count + count_none(tempresult@) <= n,
                forall|j: int| 0 <= j < visiting_list@.len() ==> #[trigger] visiting_list@[j] < n,
                forall|x: int| 0 <= x < n && !visiting_list@.contains(x as usize) ==> (#[trigger] tempresult@[x]) is Some,
                forall|x: int|
                    0 <= x < n && (#[trigger] tempresult@[x]) is Some ==> {
                        let r = root_of(tempresult@, x);
                        &&& r < n
                        &&& tempresult@[r as int] == Some(r)
                        &&& rank@[r as int] < count
                    },
                forall|c: int|
                    0 <= c < count ==> {
                        let r = #[trigger] found_roots[c];
                        &&& r < n
                        &&& tempresult@[r as int] == Some(r)
                        &&& rank@[r as int] == c
                    },
                forall|x: int, e: int|
                    0 <= x < n && tempresult@[x] is Some && 0 <= e < self.vertices@[x].InNeighbours@.len()
                        ==> {
                        let a = #[trigger] self.vertices@[x].InNeighbours@[e].0 as int;
                        &&& tempresult@[a] is Some
                        &&& rank@[root_of(tempresult@, a) as int] <= rank@[root_of(tempresult@, x) as int]
                    },
                visiting_list@.len() <= full.len(),
                visiting_list@ == full.take(visiting_list@.len() as int),
                forall|j: int| 0 <= j < full.len() ==> #[trigger] full[j] < n,
                forall|i: int, j: int| 0 <= i < j < full.len() ==> full[i] != full[j],
                forall|i: int, j: int|
                    0 <= i < full.len() && 0 <= j < full.len() && #[trigger] reaches(*self, full[i], full[j])
                        && !reaches(*self, full[j], full[i]) ==> later_partner_in(*self, full, i, j),
                forall|x: int|
                    0 <= x < n && (#[trigger] tempresult@[x]) is Some ==> {
                        let r = root_of(tempresult@, x);
                        &&& reaches(*self, x as usize, r)
                        &&& reaches(*self, r, x as usize)
                        &&& found_roots[rank@[r as int] as int] == r
                    },
            decreases visiting_list@.len(),
        {
            let ghost list_before = visiting_list@;
            let u = visiting_list.pop().unwrap();
            let ghost t0 = tempresult@;
            let ghost rank0 = rank@;
            proof {
                assert(visiting_list@.push(u) =~= list_before);
                lemma_count_none_bounds(t0, u as int);
            }
            if tempresult[u].is_none() {
                rank.set(u, count);
                count += 1;
                proof {
                    found_roots = found_roots.push(u);
                }
            }
            let ghost rank1 = rank@;
            let ghost m = visiting_list@.len() as int;
            proof {
                assert(list_before == full.take(m + 1));
                assert(u == full[m]);
                lemma_reaches_refl(*self, u);
                assert(closed_under_in_arcs(*self, t0));
                assert forall|y: int| 0 <= y < n && !full.take(m + 1).contains(y as usize) implies (#[trigger] t0[y]) is Some by {}
            }
            self.Assign(&mut tempresult, u, u);
            proof {
                assert forall|x: int| 0 <= x < n && (#[trigger] tempresult@[x]) is Some implies {
                    let r = root_of(tempresult@, x);
                    &&& reaches(*self, x as usize, r)
                    &&& reaches(*self, r, x as usize)
                    &&& found_roots[rank@[r as int] as int] == r
                } by {
                    if t0[x] is Some {
                        let r = root_of(t0, x);
                        assert(t0[r as int] == Some(r));
                        assert(tempresult@[x] == t0[x]);
                        if t0[u as int] is None {
                            assert(r != u);
                        }
                        assert(rank@[r as int] == rank0[r as int]);
                        assert(rank0[r as int] < found_roots.len());
                    } else {
                        assert(tempresult@[x] == Some(u));
                        assert(t0[u as int] is None);
                        lemma_new_member_reached(*self, full, m, t0, x as usize);
                        assert(found_roots[rank@[u as int] as int] == u);
                    }
                }
                assert(visiting_list@ == full.take(visiting_list@.len() as int));
            }
            proof {
                lemma_count_none_mono(t0, tempresult@, u as int);
                assert forall|x: int| 0 <= x < n && (#[trigger] tempresult@[x]) is Some implies {
                    let r = root_of(tempresult@, x);
                    &&& r < n
                    &&& tempresult@[r as int] == Some(r)
                    &&& rank@[r as int] < count
                } by {
                    if t0[x] is Some {
                        let r = root_of(t0, x);
                        assert(t0[r as int] == Some(r));
                    }
                }
                assert forall|x: int, e: int|
                    0 <= x < n && tempresult@[x] is Some && 0 <= e < self.vertices@[x].InNeighbours@.len()
                        implies {
                        let a = #[trigger] self.vertices@[x].InNeighbours@[e].0 as int;
                        &&& tempresult@[a] is Some
                        &&& rank@[root_of(tempresult@, a) as int] <= rank@[root_of(tempresult@, x) as int]
                    } by {
                    let a = self.vertices@[x].InNeighbours@[e].0 as int;
                    if t0[x] is Some {
                        let r = root_of(t0, x);
                        assert(t0[r as int] == Some(r));
                        let ra = root_of(t0, a);
                        assert(t0[ra as int] == Some(ra));
                    } else {
                        if t0[a] is Some {
                            let ra = root_of(t0, a);
                            assert(t0[ra as int] == Some(ra));
                        }
                    }
                }
                assert forall|c: int| 0 <= c < count implies {
                    let r = #[trigger] found_roots[c];
                    &&& r < n
                    &&& tempresult@[r as int] == Some(r)
                    &&& rank@[r as int] == c
                } by {
                    if c < count - 1 || t0[u as int] is Some {
                        let r = found_roots[c];
                        assert(t0[r as int] == Some(r));
                    }
                }
                assert forall|x: int| 0 <= x < n && !visiting_list@.contains(x as usize) implies (
                #[trigger] tempresult@[x]) is Some by {
                    if x != u {
                        if visiting_list@.push(u).contains(x as usize) {
                            let j = choose|j: int| 0 <= j < visiting_list@.len() + 1 && #[trigger] visiting_list@.push(u)[j] == x as usize;
                            assert(visiting_list@[j] == x as usize);
                        }
                    }
                }
            }
        }
        // group by component
        let mut components: Vec<Vec<usize>> = Vec::new();
        let mut c: usize = 0;
        let ghost done_marks = tempresult@;
        let ghost done_rank = rank@;
        while c < count
            invariant
                tempresult@ == done_marks,
                rank@ == done_rank,
                c <= count,
                components@.len() == c,
                forall|d: int| 0 <= d < c ==> (#[trigger] components@[d])@.len() == 0,
            decreases count - c,
        {
            components.push(Vec::new());
            c += 1;
        }
        let mut v: usize = 0;
        proof {
            assert forall|d: int| 0 <= d < count implies (#[trigger] components@[d])@ == members_upto(tempresult@, rank@, d, 0) by {
                assert(components@[d]@ =~= Seq::<usize>::empty());
            }
        }
        while v < n
            invariant
                tempresult@ == done_marks,
                rank@ == done_rank,
                n == self.vertices@.len(),
                v <= n,
                tempresult@.len() == n,
                rank@.len() == n,
                components@.len() == count,
                forall|x: int| 0 <= x < n ==> (#[trigger] tempresult@[x]) is Some,
                forall|x: int|
                    0 <= x < n && (#[trigger] tempresult@[x]) is Some ==> {
                        let r = root_of(tempresult@, x);
                        &&& r < n
                        &&& rank@[r as int] < count
                    },
                forall|d: int| 0 <= d < count ==> (#[trigger] components@[d])@ == members_upto(tempresult@, rank@, d, v as int),
            decreases n - v,
        {
            let r = tempresult[v].unwrap();
            let cidx = rank[r];
            proof {
                assert(tempresult@[v as int] is Some);
            }
            components[cidx].push(v);
            v += 1;
        }
        proof {
            let comps = components@.map_values(|c: Vec<usize>| c@);
            assert forall|d: int| 0 <= d < comps.len() implies #[trigger] comps[d] == members_upto(tempresult@, rank@, d, n as int) by {
                assert(comps[d] == components@[d]@);
            }
            assert forall|d: int| 0 <= d < comps.len() implies #[trigger] comps[d].len() > 0 by {
                lemma_members_upto(tempresult@, rank@, d, n as int);
                let r = found_roots[d];
                assert(rank@[root_of(tempresult@, r as int) as int] == d);
                assert(members_upto(tempresult@, rank@, d, n as int).contains(r));
            }
            assert forall|d: int, k: int| 0 <= d < comps.len() && 0 <= k < comps[d].len() implies #[trigger] comps[d][k] < n by {
                lemma_members_upto(tempresult@, rank@, d, n as int);
            }
            assert forall|x: usize| x < n implies #[trigger] in_some_list(comps, x) by {
                let d = rank@[root_of(tempresult@, x as int) as int] as int;
                lemma_members_upto(tempresult@, rank@, d, n as int);
                assert(comps[d].contains(x));
            }
            assert forall|c1: int, k1: int, c2: int, k2: int|
                0 <= c1 < comps.len() && 0 <= k1 < comps[c1].len() && 0 <= c2 < comps.len() && 0 <= k2
                    < comps[c2].len() && #[trigger] comps[c1][k1] == #[trigger] comps[c2][k2] implies c1
                    == c2 && k1 == k2 by {
                lemma_members_upto(tempresult@, rank@, c1, n as int);
                lemma_members_upto(tempresult@, rank@, c2, n as int);
                if k1 < k2 {
                    assert(comps[c1][k1] < comps[c1][k2]);
                } else if k2 < k1 {
                    assert(comps[c1][k2] < comps[c1][k1]);
                }
            }
            assert forall|c: int, i: int, j: int|
                0 <= c < components@.len() && 0 <= i < j < components@[c]@.len() implies components@[c]@[i]
                < components@[c]@[j] by {
                lemma_members_upto(tempresult@, rank@, c, n as int);
                assert(comps[c] == components@[c]@);
            }
            assert forall|c: int, k1: int, k2: int|
                0 <= c < comps.len() && 0 <= k1 < comps[c].len() && 0 <= k2 < comps[c].len() implies reaches(
                *self,
                #[trigger] comps[c][k1],
                #[trigger] comps[c][k2],
            ) by {
                lemma_members_upto(tempresult@, rank@, c, n as int);
                let x = comps[c][k1];
                let y = comps[c][k2];
                assert(tempresult@[x as int] is Some);
                assert(tempresult@[y as int] is Some);
                let r = root_of(tempresult@, x as int);
                assert(root_of(tempresult@, y as int) == found_roots[c]);
                lemma_reaches_trans(*self, x, r, y);
            }
            assert forall|c1: int, k1: int, e: int, c2: int|
                0 <= c1 < comps.len() && 0 <= k1 < comps[c1].len() && 0 <= e
                    < self.vertices@[comps[c1][k1] as int].InNeighbours@.len() && 0 <= c2
                    < comps.len() && #[trigger] comps[c2].contains(
                    #[trigger] self.vertices@[comps[c1][k1] as int].InNeighbours@[e].0,
                ) implies c2 <= c1 by {
                lemma_members_upto(tempresult@, rank@, c1, n as int);
                lemma_members_upto(tempresult@, rank@, c2, n as int);
                let y = comps[c1][k1];
                let a = self.vertices@[y as int].InNeighbours@[e].0;
                let j = choose|j: int| 0 <= j < comps[c2].len() && #[trigger] comps[c2][j] == a;
                assert(comps[c2][j] == a);
            }
        }
        components
    }
}

} // verus!
