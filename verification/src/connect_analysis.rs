//! Connection analysis on the graph of areas: which areas are reachable from which,
//! articulation areas, and areas cut off from the rest.
use vstd::prelude::*;

use crate::connect_map::{lemma_sound_same_reps, ConnectMap};
use crate::model::{Error, SolverResult};
use crate::side_map::SideMap;
use crate::theorem_pool::lemma_same_view_keeps;
use crate::geom::CellId;
use crate::model::State;
use crate::puzzle::Side;

verus! {

/// Every neighbour is a vertex of the graph.
pub open spec fn graph_ok(g: Seq<Vec<usize>>) -> bool {
    forall|x: int, i: int| 0 <= x < g.len() && 0 <= i < g[x]@.len() ==> (#[trigger] g[x]@[i]) < g.len()
}

/// There is an edge from `a` to `b`.
pub open spec fn has_edge(g: Seq<Vec<usize>>, a: int, b: int) -> bool {
    0 <= a < g.len() && exists|i: int| 0 <= i < g[a]@.len() && #[trigger] g[a]@[i] == b
}

/// `p` is a path: a vertex, and an edge from each vertex of it to the next.
pub open spec fn is_path(g: Seq<Vec<usize>>, p: Seq<int>) -> bool {
    &&& p.len() >= 1
    &&& forall|i: int| 0 <= i < p.len() - 1 ==> #[trigger] has_edge(g, p[i], p[i + 1])
}

/// `b` can be reached from `a` by a path.
pub open spec fn reachable(g: Seq<Vec<usize>>, a: int, b: int) -> bool {
    exists|p: Seq<int>| #[trigger] is_path(g, p) && p[0] == a && p.last() == b
}

/// Every neighbour of a marked vertex is marked.
pub open spec fn closed_under_edges(g: Seq<Vec<usize>>, s: Seq<bool>) -> bool {
    forall|x: int, i: int| 0 <= x < g.len() && s[x] && 0 <= i < g[x]@.len() ==> s[#[trigger] g[x]@[i] as int]
}

/// The number of marked entries.
pub open spec fn count_true(s: Seq<bool>) -> nat
    decreases s.len(),
{
    if s.len() == 0 {
        0
    } else {
        count_true(s.drop_last()) + if s.last() {
            1nat
        } else {
            0nat
        }
    }
}

/// Marking more entries does not lower the count, and it never exceeds the length.
pub proof fn lemma_count_mono(a: Seq<bool>, b: Seq<bool>)
    requires
        a.len() == b.len(),
        forall|i: int| 0 <= i < a.len() && a[i] ==> b[i],
    ensures
        count_true(a) <= count_true(b) <= b.len(),
    decreases a.len(),
{
    if a.len() > 0 {
        lemma_count_mono(a.drop_last(), b.drop_last());
    }
}

/// Marking one unmarked entry raises the count by one.
pub proof fn lemma_count_mark(a: Seq<bool>, i: int)
    requires
        0 <= i < a.len(),
        !a[i],
    ensures
        count_true(a.update(i, true)) == count_true(a) + 1,
    decreases a.len(),
{
    let b = a.update(i, true);
    if i == a.len() - 1 {
        assert(b.drop_last() =~= a.drop_last());
    } else {
        assert(b.drop_last() =~= a.drop_last().update(i, true));
        lemma_count_mark(a.drop_last(), i);
    }
}

/// One more step of an edge extends reachability.
pub proof fn lemma_reach_step(g: Seq<Vec<usize>>, a: int, u: int, b: int)
    requires
        reachable(g, a, u),
        has_edge(g, u, b),
    ensures
        reachable(g, a, b),
{
    let p = choose|p: Seq<int>| #[trigger] is_path(g, p) && p[0] == a && p.last() == u;
    let q = p.push(b);
    assert forall|i: int| 0 <= i < q.len() - 1 implies #[trigger] has_edge(g, q[i], q[i + 1]) by {
        if i < p.len() - 1 {
            assert(q[i] == p[i] && q[i + 1] == p[i + 1]);
            assert(has_edge(g, p[i], p[i + 1]));
        } else {
            assert(q[i] == u && q[i + 1] == b);
        }
    }
    assert(is_path(g, q));
}

/// A vertex reaches itself.
pub proof fn lemma_reach_self(g: Seq<Vec<usize>>, a: int)
    ensures
        reachable(g, a, a),
{
    assert(is_path(g, seq![a]));
}

/// A marked set that holds `a` and is closed under edges holds every vertex that `a`
/// reaches.
pub proof fn lemma_closed_holds_reachable(g: Seq<Vec<usize>>, s: Seq<bool>, a: int, b: int)
    requires
        graph_ok(g),
        s.len() == g.len(),
        0 <= a < g.len(),
        s[a],
        closed_under_edges(g, s),
        reachable(g, a, b),
    ensures
        0 <= b < g.len() && s[b],
{
    let p = choose|p: Seq<int>| #[trigger] is_path(g, p) && p[0] == a && p.last() == b;
    lemma_closed_holds_path(g, s, p);
}

/// Along a path that starts at a marked vertex, every vertex is marked.
proof fn lemma_closed_holds_path(g: Seq<Vec<usize>>, s: Seq<bool>, p: Seq<int>)
    requires
        graph_ok(g),
        s.len() == g.len(),
        is_path(g, p),
        0 <= p[0] < g.len(),
        s[p[0]],
        closed_under_edges(g, s),
    ensures
        0 <= p.last() < g.len() && s[p.last()],
    decreases p.len(),
{
    if p.len() > 1 {
        let q = p.drop_last();
        assert forall|i: int| 0 <= i < q.len() - 1 implies #[trigger] has_edge(g, q[i], q[i + 1]) by {
            assert(has_edge(g, p[i], p[i + 1]));
        }
        lemma_closed_holds_path(g, s, q);
        let u = q.last();
        let j = p.len() - 2;
        assert(has_edge(g, p[j], p[j + 1]));
        assert(p[j] == u && p[j + 1] == p.last());
        let i = choose|i: int| 0 <= i < g[u]@.len() && #[trigger] g[u]@[i] == p.last();
        assert(s[g[u]@[i] as int]);
    }
}

/// The depth-first search state is consistent: the arrays have one entry per vertex, the
/// counter counts the visited vertices, every visited vertex is reachable from `root`
/// through visited vertices, is numbered below the counter and is visited globally too,
/// the root is visited first, and the articulation list holds vertices.
pub open spec fn dfs_state(
    g: Seq<Vec<usize>>,
    root: int,
    arts: Seq<usize>,
    gvisited: Seq<bool>,
    visited: Seq<bool>,
    ord: Seq<usize>,
    low: Seq<usize>,
    ord_cnt: usize,
) -> bool {
    &&& graph_ok(g)
    &&& 0 <= root < g.len()
    &&& gvisited.len() == g.len() && visited.len() == g.len()
    &&& ord.len() == g.len() && low.len() == g.len()
    &&& ord_cnt == count_true(visited)
    &&& ord_cnt > 0 ==> visited[root]
    &&& forall|x: int| 0 <= x < g.len() && visited[x] ==> reachable(g, root, x) && gvisited[x]
    &&& forall|x: int|
        0 <= x < g.len() && visited[x] ==> reach_avoiding(g, outside_of(visited), root, x) && ord[x] < ord_cnt
    &&& forall|i: int| 0 <= i < arts.len() ==> arts[i] < g.len()
}

/// Visits `v` and everything reachable from it that is not visited yet, numbering the
/// vertices in visiting order and adding to `arts` the vertices found to be articulation
/// points.
fn dfs(
    graph: &Vec<Vec<usize>>,
    v: usize,
    prev: usize,
    arts: &mut Vec<usize>,
    gvisited: &mut Vec<bool>,
    visited: &mut Vec<bool>,
    ord: &mut Vec<usize>,
    low: &mut Vec<usize>,
    ord_cnt: &mut usize,
    Ghost(root): Ghost<int>,
    Ghost(budget): Ghost<nat>,
)
    requires
        budget == graph@.len() - count_true(old(visited)@),
        dfs_state(graph@, root, old(arts)@, old(gvisited)@, old(visited)@, old(ord)@, old(low)@, *old(ord_cnt)),
        v < graph@.len(),
        !old(visited)@[v as int],
        reachable(graph@, root, v as int),
        (v as int == root) == (*old(ord_cnt) == 0),
        v as int == root || exists|w: int|
            0 <= w < graph@.len() && old(visited)@[w] && #[trigger] has_edge(graph@, w, v as int),
    ensures
        dfs_state(graph@, root, final(arts)@, final(gvisited)@, final(visited)@, final(ord)@, final(low)@, *final(ord_cnt)),
        final(visited)@[v as int],
        forall|x: int| 0 <= x < graph@.len() && old(visited)@[x] ==> final(visited)@[x],
        forall|x: int| 0 <= x < graph@.len() && old(gvisited)@[x] ==> final(gvisited)@[x],
        forall|x: int| 0 <= x < graph@.len() && final(gvisited)@[x] && !old(gvisited)@[x] ==> final(visited)@[x],
        forall|x: int, i: int|
            0 <= x < graph@.len() && final(visited)@[x] && !old(visited)@[x] && 0 <= i < graph@[x]@.len()
                ==> final(visited)@[#[trigger] graph@[x]@[i] as int],
        final(arts)@.len() >= old(arts)@.len(),
        forall|i: int| 0 <= i < old(arts)@.len() ==> final(arts)@[i] == old(arts)@[i],
        forall|i: int| old(arts)@.len() <= i < final(arts)@.len() ==> final(visited)@[final(arts)@[i] as int]
            && !old(visited)@[final(arts)@[i] as int],
        forall|i: int, j: int| old(arts)@.len() <= i < j < final(arts)@.len() ==> final(arts)@[i] != final(arts)@[j],
        forall|x: int| 0 <= x < graph@.len() && old(visited)@[x] ==> final(ord)@[x] == old(ord)@[x] && final(low)@[x] == old(low)@[x],
        final(ord)@[v as int] == *old(ord_cnt),
        forall|x: int| 0 <= x < graph@.len() && final(visited)@[x] && !old(visited)@[x] ==> final(ord)@[x] >= *old(ord_cnt),
        forall|x: int|
            0 <= x < graph@.len() && final(visited)@[x] && !old(visited)@[x] ==> reach_avoiding(
                graph@,
                outside_new(old(visited)@, final(visited)@),
                v as int,
                x,
            ),
        final(low)@[v as int] <= final(ord)@[v as int],
        final(low)@[v as int] < final(ord)@[v as int] ==> exists|x: int, y: int|
            0 <= x < graph@.len() && 0 <= y < graph@.len() && final(visited)@[x] && !old(visited)@[x] && old(visited)@[y]
                && #[trigger] has_edge(graph@, x, y) && final(ord)@[y] == final(low)@[v as int],
        symmetric(graph@) ==> forall|w: int|
            0 <= w < graph@.len() && final(visited)@[w] && !old(visited)@[w] && w != root ==> listed(final(arts)@, w)
                || bypassed(graph@, root, w),
        symmetric(graph@) && v as int == root && !listed(final(arts)@, root) ==> forall|x: int, y: int|
            0 <= x < graph@.len() && 0 <= y < graph@.len() && final(visited)@[x] && final(visited)@[y] && !old(visited)@[x]
                && !old(visited)@[y] && x != root && y != root ==> reach_avoiding(graph@, only(graph@.len(), root), x, y),
        forall|x: int, z: int|
            0 <= x < graph@.len() && 0 <= z < graph@.len() && final(visited)@[x] && !old(visited)@[x] && old(visited)@[z]
                && #[trigger] has_edge(graph@, x, z) && z != prev as int ==> final(low)@[v as int] <= final(ord)@[z],
        symmetric(graph@) ==> forall|i: int|
            old(arts)@.len() <= i < final(arts)@.len() ==> separating(graph@, final(visited)@, #[trigger] final(arts)@[i] as int),
    decreases budget,
{
    let ghost g = graph@;
    let ghost n = g.len();
    let ghost entry_visited = visited@;
    let ghost entry_gvisited = gvisited@;
    let ghost entry_arts = arts@;
    let _n = visited.len();
    let ghost entry_ord = ord@;
    let ghost entry_low = low@;
    proof {
        lemma_count_mark(visited@, v as int);
        lemma_count_mono(visited@, visited@.update(v as int, true));
    }
    visited.set(v, true);
    gvisited.set(v, true);
    let ord_v = *ord_cnt;
    ord.set(v, ord_v);
    low.set(v, ord_v);
    *ord_cnt = *ord_cnt + 1;
    proof {
        let nv = visited@;
        assert forall|x: int| 0 <= x < n && #[trigger] outside_of(nv)[x] implies outside_of(entry_visited)[x] by {}
        assert forall|x: int| 0 <= x < n && nv[x] implies reach_avoiding(g, outside_of(nv), root, x) && ord@[x] < *ord_cnt by {
            if x == v as int {
                if v as int == root {
                    lemma_avoiding_refl(g, outside_of(nv), root);
                } else {
                    let w = choose|w: int| 0 <= w < g.len() && entry_visited[w] && #[trigger] has_edge(g, w, v as int);
                    lemma_avoiding_mono(g, outside_of(entry_visited), outside_of(nv), root, w);
                    lemma_reach_avoiding_step(g, outside_of(nv), root, w, v as int);
                }
            } else {
                lemma_avoiding_mono(g, outside_of(entry_visited), outside_of(nv), root, x);
            }
        }
        lemma_avoiding_refl(g, outside_new(entry_visited, nv), v as int);
        assert forall|x: int| 0 <= x < n && nv[x] && !entry_visited[x] implies x == v as int by {}
    }

    let mut is_articulation = false;
    let mut num_child: usize = 0;
    let ghost mut first_child: int = 0;
    let ghost mut first_set: Seq<bool> = Seq::empty();
    let mut k: usize = 0;
    while k < graph[v].len()
        invariant
            g == graph@,
            n == g.len(),
            v < n,
            entry_visited.len() == n,
            entry_gvisited.len() == n,
            budget == n - count_true(entry_visited),
            k <= graph@[v as int]@.len(),
            num_child <= k,
            dfs_state(g, root, arts@, gvisited@, visited@, ord@, low@, *ord_cnt),
            visited@[v as int],
            count_true(visited@) >= count_true(entry_visited) + 1,
            forall|x: int| 0 <= x < n && entry_visited[x] ==> visited@[x],
            forall|x: int| 0 <= x < n && entry_gvisited[x] ==> gvisited@[x],
            forall|x: int| 0 <= x < n && gvisited@[x] && !entry_gvisited[x] ==> visited@[x],
            forall|j: int| 0 <= j < k ==> visited@[#[trigger] graph@[v as int]@[j] as int],
            forall|x: int, i: int|
                0 <= x < n && x != v && visited@[x] && !entry_visited[x] && 0 <= i < graph@[x]@.len()
                    ==> visited@[#[trigger] graph@[x]@[i] as int],
            arts@.len() >= entry_arts.len(),
            forall|i: int| 0 <= i < entry_arts.len() ==> arts@[i] == entry_arts[i],
            forall|i: int| entry_arts.len() <= i < arts@.len() ==> visited@[arts@[i] as int] && !entry_visited[arts@[i] as int]
                && arts@[i] != v,
            forall|i: int, j: int| entry_arts.len() <= i < j < arts@.len() ==> arts@[i] != arts@[j],
            ord_v == count_true(entry_visited),
            !entry_visited[v as int],
            entry_ord.len() == n,
            entry_low.len() == n,
            ord@[v as int] == ord_v,
            forall|x: int| 0 <= x < n && entry_visited[x] ==> ord@[x] == entry_ord[x] && low@[x] == entry_low[x],
            forall|x: int| 0 <= x < n && visited@[x] && !entry_visited[x] ==> ord@[x] >= ord_v,
            forall|x: int|
                0 <= x < n && visited@[x] && !entry_visited[x] ==> reach_avoiding(g, outside_new(entry_visited, visited@), v as int, x),
            low@[v as int] <= ord_v,
            low@[v as int] < ord_v ==> exists|x: int, y: int|
                0 <= x < n && 0 <= y < n && visited@[x] && !entry_visited[x] && entry_visited[y] && #[trigger] has_edge(g, x, y)
                    && ord@[y] == low@[v as int],
            dfs_state(g, root, entry_arts, entry_gvisited, entry_visited, entry_ord, entry_low, ord_v),
            symmetric(g) ==> forall|w: int|
                0 <= w < n && visited@[w] && !entry_visited[w] && w != v && w != root ==> listed(arts@, w) || bypassed(g, root, w),
            symmetric(g) ==> is_articulation || forall|z: int|
                0 <= z < n && visited@[z] && !entry_visited[z] && z != v ==> exists|y: int|
                    0 <= y < n && entry_visited[y] && reach_avoiding(g, only(n, v as int), y, z),
            num_child == 0 ==> forall|x: int| 0 <= x < n && visited@[x] && !entry_visited[x] ==> x == v,
            num_child >= 1 ==> 0 <= first_child < n && first_child != v,
            symmetric(g) && num_child == 1 ==> forall|x: int|
                0 <= x < n && visited@[x] && !entry_visited[x] && x != v ==> reach_avoiding(g, only(n, v as int), first_child, x)
                    && reach_avoiding(g, only(n, v as int), x, first_child),
            forall|x: int, z: int|
                0 <= x < n && 0 <= z < n && visited@[x] && !entry_visited[x] && x != v && entry_visited[z] && #[trigger] has_edge(
                    g,
                    x,
                    z,
                ) && z != prev as int ==> low@[v as int] <= ord@[z],
            forall|j: int|
                0 <= j < k && entry_visited[graph@[v as int]@[j] as int] && graph@[v as int]@[j] as int != prev as int
                    ==> low@[v as int] <= ord@[#[trigger] graph@[v as int]@[j] as int],
            symmetric(g) ==> forall|i: int|
                entry_arts.len() <= i < arts@.len() ==> separating(g, visited@, #[trigger] arts@[i] as int),
            symmetric(g) && ord_v != 0 && is_articulation ==> separating(g, visited@, v as int),
            symmetric(g) && ord_v == 0 && num_child >= 2 ==> separating(g, visited@, v as int),
            symmetric(g) && ord_v == 0 && num_child >= 1 ==> first_set.len() == n && first_set[first_child] && closed_but(
                g,
                first_set,
                v as int,
            ) && forall|x: int| 0 <= x < n && first_set[x] ==> visited@[x] && x != v,
        decreases graph@[v as int]@.len() - k,
    {
        let u = graph[v][k];
        assert(g[v as int]@[k as int] == u);
        if u == v {
            k = k + 1;
            continue;
        }
        if !visited[u] {
            let ghost before_visited = visited@;
            let ghost before_gvisited = gvisited@;
            let ghost before_arts = arts@;
            proof {
                assert(has_edge(g, v as int, u as int));
                assert(u as int != root);
                lemma_reach_step(g, root, v as int, u as int);
                lemma_count_mono(entry_visited, visited@);
                lemma_count_mono(visited@, visited@);
                assert(graph@.len() - count_true(visited@) < graph@.len() - count_true(entry_visited));
            }
            let ghost before_ord = ord@;
            let ghost before_low = low@;
            let ghost before_cnt = *ord_cnt;
            proof {
                assert(before_cnt >= ord_v + 1);
            }
            dfs(graph, u, v, arts, gvisited, visited, ord, low, ord_cnt, Ghost(root), Ghost((graph@.len() - count_true(visited@)) as nat));
            proof {
                lemma_count_mono(before_visited, visited@);
                let after = visited@;
                lemma_subtree_reach(g, entry_visited, before_visited, after, v as int, u as int);
            }
            let low_u = low[u];
            proof {
                let after = visited@;
                lemma_listed_grows(before_arts, arts@);
                assert forall|i: int, j: int| entry_arts.len() <= i < j < arts@.len() implies arts@[i] != arts@[j] by {
                    if j < before_arts.len() {
                        assert(arts@[i] == before_arts[i] && arts@[j] == before_arts[j]);
                    } else if i < before_arts.len() {
                        assert(arts@[i] == before_arts[i]);
                        assert(before_visited[before_arts[i] as int]);
                    }
                }
                if low_u < ord_v {
                    let (x, y) = choose|x: int, y: int|
                        0 <= x < n && 0 <= y < n && visited@[x] && !before_visited[x] && before_visited[y]
                            && #[trigger] has_edge(g, x, y) && ord@[y] == low@[u as int];
                    assert(entry_visited[y]);
                    if symmetric(g) {
                        lemma_child_escapes(g, before_visited, after, v as int, u as int, x, y);
                    }
                }
                if symmetric(g) && ord_v as int <= low_u as int {
                    let sub = Seq::new(n, |i: int| after[i] && !before_visited[i]);
                    lemma_child_closed(g, entry_visited, before_visited, after, ord@, v as int, ord_v as int, low_u as int);
                    assert(sub[u as int]);
                    if ord_v != 0 {
                        assert(entry_visited[root]);
                        lemma_cut_off(g, sub, v as int, u as int, root);
                        assert(separates(g, v as int, u as int, root));
                        assert(separating(g, after, v as int));
                    } else if num_child == 1 {
                        assert(!first_set[u as int]);
                        lemma_cut_off(g, first_set, v as int, first_child, u as int);
                        assert(separates(g, v as int, first_child, u as int));
                        assert(separating(g, after, v as int));
                    } else if num_child == 0 {
                        first_set = sub;
                    }
                }
                if symmetric(g) {
                    assert forall|i: int| entry_arts.len() <= i < arts@.len() implies separating(
                        g,
                        after,
                        #[trigger] arts@[i] as int,
                    ) by {
                        if i < before_arts.len() {
                            assert(arts@[i] == before_arts[i]);
                            lemma_separating_grows(g, before_visited, after, before_arts[i] as int);
                        }
                    }
                    if ord_v != 0 && is_articulation {
                        lemma_separating_grows(g, before_visited, after, v as int);
                    }
                    if ord_v == 0 && num_child >= 2 {
                        lemma_separating_grows(g, before_visited, after, v as int);
                    }
                }
                if num_child == 0 {
                    first_child = u as int;
                    if symmetric(g) {
                        lemma_only_child(g, entry_visited, before_visited, after, v as int, u as int);
                    }
                }
            }
            num_child = num_child + 1;
            if low_u < low[v] {
                low.set(v, low_u);
            }
            if ord_v <= low_u {
                is_articulation = true;
            }
        } else if u != prev {
            let ord_u = ord[u];
            if ord_u < low[v] {
                proof {
                    assert(entry_visited[u as int]);
                    assert(has_edge(g, v as int, u as int));
                }
                low.set(v, ord_u);
            }
        }
        k = k + 1;
    }
    let ghost loop_arts = arts@;
    proof {
        if symmetric(g) && !is_articulation && ord_v != 0 {
            lemma_bypass(g, root, entry_visited, visited@, v as int);
        }
        assert forall|x: int, z: int|
            0 <= x < n && 0 <= z < n && visited@[x] && !entry_visited[x] && entry_visited[z] && #[trigger] has_edge(g, x, z)
                && z != prev as int implies low@[v as int] <= ord@[z] by {
            if x == v as int {
                let j = choose|j: int| 0 <= j < g[x]@.len() && #[trigger] g[x]@[j] == z;
                assert(graph@[v as int]@[j] as int == z);
            }
        }
    }
    if ord_v == 0 {
        is_articulation = num_child > 1;
    }
    if is_articulation {
        arts.push(v);
    }
    proof {
        lemma_listed_grows(loop_arts, arts@);
        if is_articulation {
            assert(arts@[arts@.len() - 1] == v);
            assert(listed(arts@, v as int));
        }
        if symmetric(g) {
            assert forall|i: int| entry_arts.len() <= i < arts@.len() implies separating(g, visited@, #[trigger] arts@[i] as int) by {
                if i < loop_arts.len() {
                    assert(arts@[i] == loop_arts[i]);
                }
            }
        }
        if symmetric(g) && ord_v == 0 && num_child == 1 {
            assert forall|x: int, y: int|
                0 <= x < n && 0 <= y < n && visited@[x] && visited@[y] && !entry_visited[x] && !entry_visited[y]
                    && x != root && y != root implies reach_avoiding(g, only(n, root), x, y) by {
                lemma_avoiding_trans(g, only(n, root), x, first_child, y);
            }
        }
    }
}

/// After the search from the child `u` of `v`, every vertex marked since the search from
/// `v` began is reached from `v` through such vertices.
proof fn lemma_subtree_reach(g: Seq<Vec<usize>>, entry: Seq<bool>, before: Seq<bool>, after: Seq<bool>, v: int, u: int)
    requires
        graph_ok(g),
        entry.len() == g.len(),
        before.len() == g.len(),
        after.len() == g.len(),
        0 <= v < g.len(),
        0 <= u < g.len(),
        has_edge(g, v, u),
        before[v] && !entry[v],
        !before[u] && after[u],
        forall|x: int| 0 <= x < g.len() && entry[x] ==> before[x],
        forall|x: int| 0 <= x < g.len() && before[x] ==> after[x],
        forall|x: int|
            0 <= x < g.len() && before[x] && !entry[x] ==> reach_avoiding(g, outside_new(entry, before), v, x),
        forall|x: int| 0 <= x < g.len() && after[x] && !before[x] ==> reach_avoiding(g, outside_new(before, after), u, x),
    ensures
        forall|x: int| 0 <= x < g.len() && after[x] && !entry[x] ==> reach_avoiding(g, outside_new(entry, after), v, x),
{
    let blk = outside_new(entry, after);
    assert forall|x: int| 0 <= x < g.len() && after[x] && !entry[x] implies reach_avoiding(g, blk, v, x) by {
        if before[x] {
            lemma_avoiding_mono(g, outside_new(entry, before), blk, v, x);
        } else {
            lemma_avoiding_refl(g, blk, v);
            lemma_reach_avoiding_step(g, blk, v, v, u);
            lemma_avoiding_mono(g, outside_new(before, after), blk, u, x);
            lemma_avoiding_trans(g, blk, v, u, x);
        }
    }
}

/// A vertex that parts two marked vertices still does when more are marked.
proof fn lemma_separating_grows(g: Seq<Vec<usize>>, before: Seq<bool>, after: Seq<bool>, w: int)
    requires
        before.len() == g.len(),
        after.len() == g.len(),
        forall|x: int| 0 <= x < g.len() && before[x] ==> after[x],
        separating(g, before, w),
    ensures
        separating(g, after, w),
{
    let (x, y) = choose|x: int, y: int|
        0 <= x < g.len() && 0 <= y < g.len() && before[x] && before[y] && #[trigger] separates(g, w, x, y);
    assert(separates(g, w, x, y));
}

/// A list that another extends lists what it listed.
proof fn lemma_listed_grows(a: Seq<usize>, b: Seq<usize>)
    requires
        a.len() <= b.len(),
        forall|i: int| 0 <= i < a.len() ==> b[i] == a[i],
    ensures
        forall|w: int| #[trigger] listed(a, w) ==> listed(b, w),
{
    assert forall|w: int| #[trigger] listed(a, w) implies listed(b, w) by {
        let i = choose|i: int| 0 <= i < a.len() && a[i] == w;
        assert(b[i] == w);
    }
}

/// The vertices reached from the child `u` of `v` reach, avoiding `v`, the vertex `y`
/// marked before `u` across an edge from one of them.
proof fn lemma_child_escapes(g: Seq<Vec<usize>>, before: Seq<bool>, after: Seq<bool>, v: int, u: int, x: int, y: int)
    requires
        graph_ok(g),
        symmetric(g),
        before.len() == g.len(),
        after.len() == g.len(),
        0 <= v < g.len(),
        before[v],
        0 <= x < g.len(),
        0 <= y < g.len(),
        after[x] && !before[x],
        before[y],
        y != v,
        has_edge(g, x, y),
        forall|z: int| 0 <= z < g.len() && after[z] && !before[z] ==> reach_avoiding(g, outside_new(before, after), u, z),
    ensures
        forall|z: int|
            0 <= z < g.len() && after[z] && !before[z] ==> reach_avoiding(g, only(g.len(), v), y, z),
{
    let blk = only(g.len(), v);
    assert forall|i: int| 0 <= i < g.len() && blk[i] implies outside_new(before, after)[i] by {}
    lemma_avoiding_mono(g, outside_new(before, after), blk, u, x);
    lemma_avoiding_sym(g, blk, u, x);
    lemma_avoiding_refl(g, blk, y);
    assert(has_edge(g, y, x));
    lemma_reach_avoiding_step(g, blk, y, y, x);
    lemma_avoiding_trans(g, blk, y, x, u);
    assert forall|z: int| 0 <= z < g.len() && after[z] && !before[z] implies reach_avoiding(g, blk, y, z) by {
        lemma_avoiding_mono(g, outside_new(before, after), blk, u, z);
        lemma_avoiding_trans(g, blk, y, u, z);
    }
}

/// The first child `u` of `v` reaches, and is reached from, everything marked since the
/// search from `v` began, avoiding `v`.
proof fn lemma_only_child(g: Seq<Vec<usize>>, entry: Seq<bool>, before: Seq<bool>, after: Seq<bool>, v: int, u: int)
    requires
        graph_ok(g),
        symmetric(g),
        entry.len() == g.len(),
        before.len() == g.len(),
        after.len() == g.len(),
        0 <= v < g.len(),
        before[v],
        forall|x: int| 0 <= x < g.len() && before[x] && !entry[x] ==> x == v,
        forall|x: int| 0 <= x < g.len() && entry[x] ==> before[x],
        forall|z: int| 0 <= z < g.len() && after[z] && !before[z] ==> reach_avoiding(g, outside_new(before, after), u, z),
    ensures
        forall|x: int|
            0 <= x < g.len() && after[x] && !entry[x] && x != v ==> reach_avoiding(g, only(g.len(), v), u, x)
                && reach_avoiding(g, only(g.len(), v), x, u),
{
    let blk = only(g.len(), v);
    assert forall|i: int| 0 <= i < g.len() && blk[i] implies outside_new(before, after)[i] by {}
    assert forall|x: int| 0 <= x < g.len() && after[x] && !entry[x] && x != v implies reach_avoiding(g, blk, u, x)
        && reach_avoiding(g, blk, x, u) by {
        assert(!before[x]);
        lemma_avoiding_mono(g, outside_new(before, after), blk, u, x);
        lemma_avoiding_sym(g, blk, u, x);
    }
}

/// A vertex other than the root, all of whose descendants reach, avoiding it, a vertex
/// marked before it, has all its neighbours reached from the root avoiding it.
proof fn lemma_bypass(g: Seq<Vec<usize>>, root: int, entry: Seq<bool>, visited: Seq<bool>, v: int)
    requires
        graph_ok(g),
        entry.len() == g.len(),
        visited.len() == g.len(),
        0 <= v < g.len(),
        0 <= root < g.len(),
        !entry[v],
        forall|x: int| 0 <= x < g.len() && entry[x] ==> reach_avoiding(g, outside_of(entry), root, x),
        forall|j: int| 0 <= j < g[v]@.len() ==> visited[#[trigger] g[v]@[j] as int],
        forall|z: int|
            0 <= z < g.len() && visited[z] && !entry[z] && z != v ==> exists|y: int|
                0 <= y < g.len() && entry[y] && reach_avoiding(g, only(g.len(), v), y, z),
    ensures
        bypassed(g, root, v),
{
    let blk = only(g.len(), v);
    assert forall|i: int| 0 <= i < g.len() && blk[i] implies outside_of(entry)[i] by {}
    assert forall|z: int| #[trigger] has_edge(g, v, z) && z != v implies reach_avoiding(g, blk, root, z) by {
        let j = choose|j: int| 0 <= j < g[v]@.len() && #[trigger] g[v]@[j] == z;
        assert(visited[g[v]@[j] as int]);
        assert(0 <= z < g.len());
        if entry[z] {
            lemma_avoiding_mono(g, outside_of(entry), blk, root, z);
        } else {
            let y = choose|y: int| 0 <= y < g.len() && entry[y] && reach_avoiding(g, blk, y, z);
            lemma_avoiding_mono(g, outside_of(entry), blk, root, y);
            lemma_avoiding_trans(g, blk, root, y, z);
        }
    }
}

/// Visits everything reachable from `v`, marking it in `gvisited` too, and adds to `arts`
/// the articulation points found. Returns the vertices visited. In a graph whose edges go
/// both ways, the vertices added are ones whose removal parts two visited vertices, and
/// every visited vertex whose removal parts two other visited vertices is listed.
pub fn get_articulation(graph: &Vec<Vec<usize>>, v: usize, arts: &mut Vec<usize>, gvisited: &mut Vec<bool>) -> (visited: Vec<bool>)
    requires
        graph_ok(graph@),
        v < graph@.len() || graph@.len() == 0,
        old(gvisited)@.len() == graph@.len(),
        forall|i: int| 0 <= i < old(arts)@.len() ==> old(arts)@[i] < graph@.len(),
    ensures
        visited@.len() == graph@.len(),
        forall|i: int, j: int| old(arts)@.len() <= i < j < final(arts)@.len() ==> final(arts)@[i] != final(arts)@[j],
        graph@.len() == 0 ==> final(arts)@ == old(arts)@ && final(gvisited)@ == old(gvisited)@,
        forall|x: int| 0 <= x < graph@.len() ==> (visited@[x] <==> reachable(graph@, v as int, x)),
        final(gvisited)@.len() == graph@.len(),
        forall|x: int| 0 <= x < graph@.len() ==> (final(gvisited)@[x] <==> old(gvisited)@[x] || visited@[x]),
        final(arts)@.len() >= old(arts)@.len(),
        forall|i: int| 0 <= i < old(arts)@.len() ==> final(arts)@[i] == old(arts)@[i],
        forall|i: int| old(arts)@.len() <= i < final(arts)@.len() ==> final(arts)@[i] < graph@.len()
            && visited@[final(arts)@[i] as int],
        symmetric(graph@) ==> forall|i: int|
            old(arts)@.len() <= i < final(arts)@.len() ==> separating(graph@, visited@, #[trigger] final(arts)@[i] as int),
        symmetric(graph@) ==> forall|a: int|
            0 <= a < graph@.len() && visited@[a] && !listed(final(arts)@, a) ==> forall|x: int, y: int|
                0 <= x < graph@.len() && 0 <= y < graph@.len() && visited@[x] && visited@[y] && x != a && y != a
                    ==> reach_avoiding(graph@, only(graph@.len(), a), x, y),
{
    let n = graph.len();
    if n == 0 {
        return Vec::new();
    }
    let mut visited: Vec<bool> = Vec::new();
    let mut ord: Vec<usize> = Vec::new();
    let mut low: Vec<usize> = Vec::new();
    let mut i: usize = 0;
    while i < n
        invariant
            i <= n,
            n == graph@.len(),
            visited@ == Seq::new(i as nat, |_j: int| false),
            ord@.len() == i,
            low@.len() == i,
        decreases n - i,
    {
        visited.push(false);
        ord.push(0);
        low.push(0);
        i = i + 1;
        assert(visited@ =~= Seq::new(i as nat, |_j: int| false));
    }
    proof {
        lemma_count_none(n as nat);
        lemma_reach_self(graph@, v as int);
    }
    let ghost start_gvisited = gvisited@;
    let mut ord_cnt: usize = 0;
    dfs(graph, v, usize::MAX, arts, gvisited, &mut visited, &mut ord, &mut low, &mut ord_cnt, Ghost(v as int), Ghost(n as nat));
    proof {
        assert forall|x: int| 0 <= x < graph@.len() implies (visited@[x] <==> reachable(graph@, v as int, x)) by {
            if reachable(graph@, v as int, x) {
                lemma_closed_holds_reachable(graph@, visited@, v as int, x);
            }
        }
        let g = graph@;
        if symmetric(g) {
            assert forall|a: int, x: int, y: int|
                0 <= a < g.len() && visited@[a] && !listed(arts@, a) && 0 <= x < g.len() && 0 <= y < g.len() && visited@[x]
                    && visited@[y] && x != a && y != a implies reach_avoiding(g, only(g.len(), a), x, y) by {
                if a != v as int {
                    assert(bypassed(g, v as int, a));
                    let px = choose|p: Seq<int>| #[trigger] is_path(g, p) && p[0] == v as int && p.last() == x;
                    let py = choose|p: Seq<int>| #[trigger] is_path(g, p) && p[0] == v as int && p.last() == y;
                    lemma_escape(g, v as int, a, px);
                    lemma_escape(g, v as int, a, py);
                    lemma_avoiding_sym(g, only(g.len(), a), v as int, x);
                    lemma_avoiding_trans(g, only(g.len(), a), x, v as int, y);
                }
            }
        }
    }
    visited
}

/// No entry marked: the count is zero.
pub proof fn lemma_count_none(n: nat)
    ensures
        count_true(Seq::new(n, |_j: int| false)) == 0,
    decreases n,
{
    if n > 0 {
        assert(Seq::new(n, |_j: int| false).drop_last() =~= Seq::new((n - 1) as nat, |_j: int| false));
        lemma_count_none((n - 1) as nat);
    }
}

/// `b` can be reached from `a` by a path that avoids the blocked vertices.
pub open spec fn reach_avoiding(g: Seq<Vec<usize>>, blocked: Seq<bool>, a: int, b: int) -> bool {
    exists|p: Seq<int>| #[trigger] is_path(g, p) && p[0] == a && p.last() == b
        && forall|i: int| 0 <= i < p.len() ==> 0 <= #[trigger] p[i] < g.len() && !blocked[p[i]]
}

/// Marks `v` and every unmarked vertex reachable from it through unmarked vertices.
fn visit(
    graph: &Vec<Vec<usize>>,
    v: usize,
    visited: &mut Vec<bool>,
    Ghost(blocked): Ghost<Seq<bool>>,
    Ghost(src): Ghost<int>,
    Ghost(budget): Ghost<nat>,
)
    requires
        graph_ok(graph@),
        old(visited)@.len() == graph@.len(),
        blocked.len() == graph@.len(),
        budget == graph@.len() - count_true(old(visited)@),
        v < graph@.len(),
        !old(visited)@[v as int],
        !blocked[v as int],
        reach_avoiding(graph@, blocked, src, v as int),
        forall|x: int| 0 <= x < graph@.len() && blocked[x] ==> old(visited)@[x],
        forall|x: int| 0 <= x < graph@.len() && old(visited)@[x] && !blocked[x] ==> reach_avoiding(graph@, blocked, src, x),
    ensures
        final(visited)@.len() == graph@.len(),
        final(visited)@[v as int],
        forall|x: int| 0 <= x < graph@.len() && old(visited)@[x] ==> final(visited)@[x],
        forall|x: int| 0 <= x < graph@.len() && final(visited)@[x] && !blocked[x] ==> reach_avoiding(graph@, blocked, src, x),
        forall|x: int, i: int|
            0 <= x < graph@.len() && final(visited)@[x] && !old(visited)@[x] && 0 <= i < graph@[x]@.len()
                ==> final(visited)@[#[trigger] graph@[x]@[i] as int],
    decreases budget,
{
    let ghost g = graph@;
    let ghost n = g.len();
    let ghost entry = visited@;
    let _len = visited.len();
    proof {
        lemma_count_mark(visited@, v as int);
        lemma_count_mono(visited@.update(v as int, true), visited@.update(v as int, true));
    }
    visited.set(v, true);
    let mut k: usize = 0;
    while k < graph[v].len()
        invariant
            g == graph@,
            n == g.len(),
            graph_ok(g),
            v < n,
            blocked.len() == n,
            entry.len() == n,
            visited@.len() == n,
            budget == n - count_true(entry),
            count_true(visited@) >= count_true(entry) + 1,
            visited@[v as int],
            !blocked[v as int],
            forall|x: int| 0 <= x < n && blocked[x] ==> entry[x],
            k <= graph@[v as int]@.len(),
            forall|x: int| 0 <= x < n && entry[x] ==> visited@[x],
            forall|x: int| 0 <= x < n && visited@[x] && !blocked[x] ==> reach_avoiding(g, blocked, src, x),
            forall|j: int| 0 <= j < k ==> visited@[#[trigger] graph@[v as int]@[j] as int],
            forall|x: int, i: int|
                0 <= x < n && x != v && visited@[x] && !entry[x] && 0 <= i < graph@[x]@.len()
                    ==> visited@[#[trigger] graph@[x]@[i] as int],
        decreases graph@[v as int]@.len() - k,
    {
        let u = graph[v][k];
        assert(g[v as int]@[k as int] == u);
        if !visited[u] {
            let ghost before = visited@;
            proof {
                assert(!blocked[u as int]);
                assert(has_edge(g, v as int, u as int));
                lemma_reach_avoiding_step(g, blocked, src, v as int, u as int);
                lemma_count_mono(entry, visited@);
                lemma_count_mono(visited@, visited@);
            }
            visit(graph, u, visited, Ghost(blocked), Ghost(src), Ghost((n - count_true(visited@)) as nat));
            proof {
                lemma_count_mono(before, visited@);
            }
        }
        k = k + 1;
    }
}

/// One more step to an unblocked vertex extends reachability that avoids the blocked.
proof fn lemma_reach_avoiding_step(g: Seq<Vec<usize>>, blocked: Seq<bool>, a: int, u: int, b: int)
    requires
        reach_avoiding(g, blocked, a, u),
        has_edge(g, u, b),
        0 <= b < g.len(),
        !blocked[b],
    ensures
        reach_avoiding(g, blocked, a, b),
{
    let p = choose|p: Seq<int>| #[trigger] is_path(g, p) && p[0] == a && p.last() == u
        && forall|i: int| 0 <= i < p.len() ==> 0 <= #[trigger] p[i] < g.len() && !blocked[p[i]];
    let q = p.push(b);
    assert forall|i: int| 0 <= i < q.len() - 1 implies #[trigger] has_edge(g, q[i], q[i + 1]) by {
        if i < p.len() - 1 {
            assert(q[i] == p[i] && q[i + 1] == p[i + 1]);
            assert(has_edge(g, p[i], p[i + 1]));
        } else {
            assert(q[i] == u && q[i + 1] == b);
        }
    }
    assert forall|i: int| 0 <= i < q.len() implies 0 <= #[trigger] q[i] < g.len() && !blocked[q[i]] by {
        if i < p.len() {
            assert(q[i] == p[i]);
        }
    }
    assert(is_path(g, q));
}

/// A path that avoids the blocked vertices and starts at a vertex that is marked but
/// was not marked before, stays among such vertices when every such vertex has all its
/// neighbours marked and the blocked vertices are the ones marked before.
proof fn lemma_avoiding_path_marked(g: Seq<Vec<usize>>, blocked: Seq<bool>, s: Seq<bool>, p: Seq<int>)
    requires
        graph_ok(g),
        s.len() == g.len(),
        blocked.len() == g.len(),
        is_path(g, p),
        forall|i: int| 0 <= i < p.len() ==> 0 <= #[trigger] p[i] < g.len() && !blocked[p[i]],
        s[p[0]],
        forall|x: int, i: int| 0 <= x < g.len() && s[x] && !blocked[x] && 0 <= i < g[x]@.len() ==> s[#[trigger] g[x]@[i] as int],
    ensures
        s[p.last()],
    decreases p.len(),
{
    if p.len() > 1 {
        let q = p.drop_last();
        assert forall|i: int| 0 <= i < q.len() - 1 implies #[trigger] has_edge(g, q[i], q[i + 1]) by {
            assert(has_edge(g, p[i], p[i + 1]));
        }
        assert forall|i: int| 0 <= i < q.len() implies 0 <= #[trigger] q[i] < g.len() && !blocked[q[i]] by {
            assert(q[i] == p[i]);
        }
        lemma_avoiding_path_marked(g, blocked, s, q);
        let j = p.len() - 2;
        assert(has_edge(g, p[j], p[j + 1]));
        let u = p[j];
        assert(u == q.last());
        assert(!blocked[u]);
        let i = choose|i: int| 0 <= i < g[u]@.len() && #[trigger] g[u]@[i] == p[j + 1];
        assert(s[g[u]@[i] as int]);
    }
}

/// Every edge of the graph goes both ways.
pub open spec fn symmetric(g: Seq<Vec<usize>>) -> bool {
    forall|a: int, b: int| #[trigger] has_edge(g, a, b) ==> has_edge(g, b, a)
}

/// The vertices outside the marked set are blocked.
pub open spec fn outside_of(s: Seq<bool>) -> Seq<bool> {
    Seq::new(s.len(), |i: int| !s[i])
}

/// The vertices not newly marked (marked in `after` but not in `before`) are blocked.
pub open spec fn outside_new(before: Seq<bool>, after: Seq<bool>) -> Seq<bool> {
    Seq::new(after.len(), |i: int| !(after[i] && !before[i]))
}

/// `w` is in the list.
pub open spec fn listed(arts: Seq<usize>, w: int) -> bool {
    exists|i: int| 0 <= i < arts.len() && arts[i] == w
}

/// Every neighbour of `w` other than `w` itself can be reached from `root` avoiding `w`.
pub open spec fn bypassed(g: Seq<Vec<usize>>, root: int, w: int) -> bool {
    forall|z: int| #[trigger] has_edge(g, w, z) && z != w ==> reach_avoiding(g, only(g.len(), w), root, z)
}

/// Removing `w` parts `x` from `y`: neither is `w`, and every path from `x` to `y`
/// passes through `w`.
pub open spec fn separates(g: Seq<Vec<usize>>, w: int, x: int, y: int) -> bool {
    x != w && y != w && !reach_avoiding(g, only(g.len(), w), x, y)
}

/// Removing `w` parts two marked vertices.
pub open spec fn separating(g: Seq<Vec<usize>>, marked: Seq<bool>, w: int) -> bool {
    exists|x: int, y: int| 0 <= x < g.len() && 0 <= y < g.len() && marked[x] && marked[y] && #[trigger] separates(g, w, x, y)
}

/// Every neighbour of a marked vertex is marked or is `w`.
pub open spec fn closed_but(g: Seq<Vec<usize>>, s: Seq<bool>, w: int) -> bool {
    forall|x: int, z: int| 0 <= x < g.len() && s[x] && #[trigger] has_edge(g, x, z) ==> s[z] || z == w
}

/// A path that avoids `w` from a marked vertex of a set closed but for `w` ends marked.
proof fn lemma_stays_in(g: Seq<Vec<usize>>, s: Seq<bool>, w: int, p: Seq<int>)
    requires
        s.len() == g.len(),
        is_path(g, p),
        forall|i: int| 0 <= i < p.len() ==> 0 <= #[trigger] p[i] < g.len() && !only(g.len(), w)[p[i]],
        s[p[0]],
        closed_but(g, s, w),
    ensures
        s[p.last()],
    decreases p.len(),
{
    if p.len() > 1 {
        let q = p.drop_last();
        assert forall|i: int| 0 <= i < q.len() - 1 implies #[trigger] has_edge(g, q[i], q[i + 1]) by {
            assert(has_edge(g, p[i], p[i + 1]));
        }
        assert forall|i: int| 0 <= i < q.len() implies 0 <= #[trigger] q[i] < g.len() && !only(g.len(), w)[q[i]] by {
            assert(q[i] == p[i]);
        }
        lemma_stays_in(g, s, w, q);
        let j = p.len() - 2;
        assert(has_edge(g, p[j], p[j + 1]));
        assert(p[j] == q.last());
        assert(!only(g.len(), w)[p[j + 1]]);
    }
}

/// A vertex of a set closed but for `w` does not reach, avoiding `w`, an unmarked one.
proof fn lemma_cut_off(g: Seq<Vec<usize>>, s: Seq<bool>, w: int, x: int, y: int)
    requires
        s.len() == g.len(),
        s[x],
        !s[y],
        closed_but(g, s, w),
    ensures
        !reach_avoiding(g, only(g.len(), w), x, y),
{
    if reach_avoiding(g, only(g.len(), w), x, y) {
        let p = choose|p: Seq<int>| #[trigger] is_path(g, p) && p[0] == x && p.last() == y
            && forall|i: int| 0 <= i < p.len() ==> 0 <= #[trigger] p[i] < g.len() && !only(g.len(), w)[p[i]];
        lemma_stays_in(g, s, w, p);
    }
}

/// The vertices newly marked by the search from the child `u` of `v` have their
/// neighbours among themselves or `v`, when the lowest number they reach is not below
/// the number of `v`.
proof fn lemma_child_closed(
    g: Seq<Vec<usize>>,
    entry: Seq<bool>,
    before: Seq<bool>,
    after: Seq<bool>,
    ord: Seq<usize>,
    v: int,
    ord_v: int,
    low_u: int,
)
    requires
        graph_ok(g),
        symmetric(g),
        entry.len() == g.len(),
        before.len() == g.len(),
        after.len() == g.len(),
        0 <= v < g.len(),
        forall|x: int| 0 <= x < g.len() && before[x] ==> after[x],
        forall|x: int, i: int|
            0 <= x < g.len() && after[x] && !before[x] && 0 <= i < g[x]@.len() ==> after[#[trigger] g[x]@[i] as int],
        forall|z: int, i: int|
            0 <= z < g.len() && z != v && before[z] && !entry[z] && 0 <= i < g[z]@.len() ==> before[#[trigger] g[z]@[i] as int],
        forall|x: int, z: int|
            0 <= x < g.len() && 0 <= z < g.len() && after[x] && !before[x] && before[z] && #[trigger] has_edge(g, x, z) && z != v
                ==> low_u <= ord[z],
        forall|z: int| 0 <= z < g.len() && entry[z] ==> ord[z] < ord_v,
        ord_v <= low_u,
    ensures
        closed_but(g, Seq::new(g.len(), |i: int| after[i] && !before[i]), v),
{
    let s = Seq::new(g.len(), |i: int| after[i] && !before[i]);
    assert forall|x: int, z: int| 0 <= x < g.len() && s[x] && #[trigger] has_edge(g, x, z) implies s[z] || z == v by {
        let i = choose|i: int| 0 <= i < g[x]@.len() && #[trigger] g[x]@[i] == z;
        assert(after[g[x]@[i] as int]);
        if !s[z] && z != v {
            assert(before[z]);
            assert(has_edge(g, z, x));
            let j = choose|j: int| 0 <= j < g[z]@.len() && #[trigger] g[z]@[j] == x;
            if !entry[z] {
                assert(before[g[z]@[j] as int]);
            } else {
                assert(low_u <= ord[z]);
            }
        }
    }
}

/// An unblocked vertex reaches itself.
proof fn lemma_avoiding_refl(g: Seq<Vec<usize>>, blocked: Seq<bool>, a: int)
    requires
        0 <= a < g.len(),
        !blocked[a],
    ensures
        reach_avoiding(g, blocked, a, a),
{
    let p = seq![a];
    assert(is_path(g, p));
    assert(forall|i: int| 0 <= i < p.len() ==> 0 <= #[trigger] p[i] < g.len() && !blocked[p[i]]);
}

/// Reaching avoiding the blocked vertices is transitive.
proof fn lemma_avoiding_trans(g: Seq<Vec<usize>>, blocked: Seq<bool>, a: int, b: int, c: int)
    requires
        reach_avoiding(g, blocked, a, b),
        reach_avoiding(g, blocked, b, c),
    ensures
        reach_avoiding(g, blocked, a, c),
{
    let p = choose|p: Seq<int>| #[trigger] is_path(g, p) && p[0] == a && p.last() == b
        && forall|i: int| 0 <= i < p.len() ==> 0 <= #[trigger] p[i] < g.len() && !blocked[p[i]];
    let q = choose|q: Seq<int>| #[trigger] is_path(g, q) && q[0] == b && q.last() == c
        && forall|i: int| 0 <= i < q.len() ==> 0 <= #[trigger] q[i] < g.len() && !blocked[q[i]];
    let r = p + q.drop_first();
    assert forall|i: int| 0 <= i < r.len() - 1 implies #[trigger] has_edge(g, r[i], r[i + 1]) by {
        if i < p.len() - 1 {
            assert(r[i] == p[i] && r[i + 1] == p[i + 1]);
            assert(has_edge(g, p[i], p[i + 1]));
        } else {
            let j = i - (p.len() - 1);
            assert(r[i] == q[j] && r[i + 1] == q[j + 1]);
            assert(has_edge(g, q[j], q[j + 1]));
        }
    }
    assert forall|i: int| 0 <= i < r.len() implies 0 <= #[trigger] r[i] < g.len() && !blocked[r[i]] by {
        if i < p.len() {
            assert(r[i] == p[i]);
        } else {
            assert(r[i] == q[i - p.len() + 1]);
        }
    }
    if q.len() == 1 {
        assert(r =~= p);
    } else {
        assert(r.last() == q.last());
    }
    assert(is_path(g, r));
}

/// In a symmetric graph, reaching avoiding the blocked vertices goes both ways.
proof fn lemma_avoiding_sym(g: Seq<Vec<usize>>, blocked: Seq<bool>, a: int, b: int)
    requires
        symmetric(g),
        reach_avoiding(g, blocked, a, b),
    ensures
        reach_avoiding(g, blocked, b, a),
{
    let p = choose|p: Seq<int>| #[trigger] is_path(g, p) && p[0] == a && p.last() == b
        && forall|i: int| 0 <= i < p.len() ==> 0 <= #[trigger] p[i] < g.len() && !blocked[p[i]];
    let r = p.reverse();
    assert forall|i: int| 0 <= i < r.len() - 1 implies #[trigger] has_edge(g, r[i], r[i + 1]) by {
        let j = p.len() - 2 - i;
        assert(r[i] == p[j + 1] && r[i + 1] == p[j]);
        assert(has_edge(g, p[j], p[j + 1]));
    }
    assert forall|i: int| 0 <= i < r.len() implies 0 <= #[trigger] r[i] < g.len() && !blocked[r[i]] by {
        assert(r[i] == p[p.len() - 1 - i]);
    }
    assert(is_path(g, r));
}

/// A path that avoids the blocked vertices avoids fewer blocked ones too.
proof fn lemma_avoiding_mono(g: Seq<Vec<usize>>, b1: Seq<bool>, b2: Seq<bool>, a: int, b: int)
    requires
        reach_avoiding(g, b1, a, b),
        forall|x: int| 0 <= x < g.len() && b2[x] ==> b1[x],
    ensures
        reach_avoiding(g, b2, a, b),
{
    let p = choose|p: Seq<int>| #[trigger] is_path(g, p) && p[0] == a && p.last() == b
        && forall|i: int| 0 <= i < p.len() ==> 0 <= #[trigger] p[i] < g.len() && !b1[p[i]];
    assert(forall|i: int| 0 <= i < p.len() ==> 0 <= #[trigger] p[i] < g.len() && !b2[p[i]]);
}

/// When every neighbour of `w` can be reached from `root` avoiding `w`, so can every
/// vertex that `root` reaches, but `w`.
proof fn lemma_escape(g: Seq<Vec<usize>>, root: int, w: int, p: Seq<int>)
    requires
        graph_ok(g),
        is_path(g, p),
        p[0] == root,
        0 <= root < g.len(),
        root != w,
        p.last() != w,
        0 <= w < g.len(),
        bypassed(g, root, w),
    ensures
        reach_avoiding(g, only(g.len(), w), root, p.last()),
    decreases p.len(),
{
    if p.len() == 1 {
        lemma_avoiding_refl(g, only(g.len(), w), root);
    } else {
        let q = p.drop_last();
        assert forall|i: int| 0 <= i < q.len() - 1 implies #[trigger] has_edge(g, q[i], q[i + 1]) by {
            assert(has_edge(g, p[i], p[i + 1]));
        }
        let y = q.last();
        let j = p.len() - 2;
        assert(has_edge(g, p[j], p[j + 1]));
        assert(p[j] == y);
        let k = choose|k: int| 0 <= k < g[y]@.len() && #[trigger] g[y]@[k] == p.last();
        assert(g[y]@[k] < g.len());
        if y == w {
            assert(has_edge(g, w, p.last()));
        } else {
            lemma_escape(g, root, w, q);
            lemma_reach_avoiding_step(g, only(g.len(), w), root, y, p.last());
        }
    }
}

/// The first vertex at or after `from`, other than `v`, whose side is fixed to `side`; the
/// number of vertices if there is none.
pub open spec fn first_with_side(sides: Seq<State<Side>>, side: Side, v: int, from: int) -> int
    decreases sides.len() - from,
{
    if from >= sides.len() {
        sides.len() as int
    } else if sides[from] == State::Fixed(side) && from != v {
        from
    } else {
        first_with_side(sides, side, v, from + 1)
    }
}

/// Only `v` is blocked.
pub open spec fn only(n: nat, v: int) -> Seq<bool> {
    Seq::new(n, |i: int| i == v)
}

/// Whether removing `v` parts the vertices whose side is fixed to `set_side`: some such
/// vertex other than `v` cannot be reached, avoiding `v`, from the first such vertex.
pub fn splits(graph: &Vec<Vec<usize>>, v: usize, sides: &Vec<State<Side>>, set_side: Side) -> (r: bool)
    requires
        graph_ok(graph@),
        v < graph@.len(),
        sides@.len() == graph@.len(),
    ensures
        r == exists|u: int| 0 <= u < graph@.len() && u != v && sides@[u] == State::Fixed(set_side)
            && !reach_avoiding(graph@, only(graph@.len(), v as int), first_with_side(sides@, set_side, v as int, 0), u),
{
    let n = graph.len();
    let ghost g = graph@;
    let ghost blk = only(n as nat, v as int);
    let mut visited: Vec<bool> = Vec::new();
    let mut i: usize = 0;
    while i < n
        invariant
            i <= n,
            n == graph@.len(),
            v < n,
            visited@ == Seq::new(i as nat, |j: int| j == v),
        decreases n - i,
    {
        visited.push(i == v);
        i = i + 1;
        assert(visited@ =~= Seq::new(i as nat, |j: int| j == v));
    }
    let mut hit = false;
    let ghost mut first: int = n as int;
    let mut u: usize = 0;
    proof {
        assert(first_with_side(sides@, set_side, v as int, 0) == first_with_side(sides@, set_side, v as int, 0));
    }
    while u < n
        invariant
            u <= n,
            n == g.len(),
            g == graph@,
            graph_ok(g),
            v < n,
            sides@.len() == n,
            blk == only(n as nat, v as int),
            visited@.len() == n,
            forall|x: int| 0 <= x < n && blk[x] ==> visited@[x],
            !hit ==> visited@ == blk,
            !hit ==> first_with_side(sides@, set_side, v as int, 0) == first_with_side(sides@, set_side, v as int, u as int),
            hit ==> first == first_with_side(sides@, set_side, v as int, 0),
            hit ==> 0 <= first < u,
            hit ==> forall|x: int| 0 <= x < n ==> (visited@[x] && !blk[x] <==> reach_avoiding(g, blk, first, x)),
            hit ==> forall|x: int| 0 <= x < u && x != v && sides@[x] == State::Fixed(set_side) ==> visited@[x],
        decreases n - u,
    {
        let su = sides[u];
        let is_side = match su {
            State::Fixed(s) => match (s, set_side) {
                (Side::In, Side::In) => true,
                (Side::Out, Side::Out) => true,
                _ => false,
            },
            _ => false,
        };
        if !is_side {
            u = u + 1;
            continue;
        }
        if visited[u] {
            u = u + 1;
            continue;
        }
        proof {
            assert(blk[v as int]);
            assert(visited@[v as int]);
        }
        assert(u != v);
        if hit {
            proof {
                assert(!reach_avoiding(g, blk, first, u as int));
            }
            return true;
        }
        hit = true;
        proof {
            first = u as int;
            assert(first_with_side(sides@, set_side, v as int, u as int) == u);
            assert forall|x: int| 0 <= x < u && x != v && sides@[x] == State::Fixed(set_side) implies false by {
                lemma_first_with_side(sides@, set_side, v as int, 0, x);
            }
            lemma_reach_avoiding_self(g, blk, u as int);
            lemma_count_mono(visited@, visited@);
        }
        let ghost before = visited@;
        let ghost bud = (n - count_true(visited@)) as nat;
        visit(graph, u, &mut visited, Ghost(blk), Ghost(u as int), Ghost(bud));
        proof {
            assert forall|x: int| 0 <= x < n implies (visited@[x] && !blk[x] <==> reach_avoiding(g, blk, first, x)) by {
                if reach_avoiding(g, blk, first, x) {
                    let p = choose|p: Seq<int>| #[trigger] is_path(g, p) && p[0] == first && p.last() == x
                        && forall|i: int| 0 <= i < p.len() ==> 0 <= #[trigger] p[i] < g.len() && !blk[p[i]];
                    assert forall|y: int, i: int| 0 <= y < g.len() && visited@[y] && !blk[y] && 0 <= i < g[y]@.len()
                        implies visited@[#[trigger] g[y]@[i] as int] by {
                        assert(!before[y]);
                    }
                    lemma_avoiding_path_marked(g, blk, visited@, p);
                    assert(!blk[x]) by {
                        assert(p[p.len() - 1] == x);
                    }
                }
            }
        }
        u = u + 1;
    }
    proof {
        if exists|w: int| 0 <= w < n && w != v && sides@[w] == State::Fixed(set_side)
            && !reach_avoiding(g, blk, first_with_side(sides@, set_side, v as int, 0), w) {
            let w = choose|w: int| 0 <= w < n && w != v && sides@[w] == State::Fixed(set_side)
                && !reach_avoiding(g, blk, first_with_side(sides@, set_side, v as int, 0), w);
            if !hit {
                lemma_first_with_side(sides@, set_side, v as int, 0, w);
                lemma_first_with_side_end(sides@, set_side, v as int, u as int);
            } else {
                assert(visited@[w]);
                assert(!blk[w]);
                assert(reach_avoiding(g, blk, first, w));
            }
        }
    }
    false
}

/// A vertex that is not blocked reaches itself avoiding the blocked.
proof fn lemma_reach_avoiding_self(g: Seq<Vec<usize>>, blocked: Seq<bool>, a: int)
    requires
        0 <= a < g.len(),
        !blocked[a],
    ensures
        reach_avoiding(g, blocked, a, a),
{
    let p = seq![a];
    assert(is_path(g, p));
    assert forall|i: int| 0 <= i < p.len() implies 0 <= #[trigger] p[i] < g.len() && !blocked[p[i]] by {}
}

/// A matching vertex at or after `from` bounds the first match.
proof fn lemma_first_with_side(sides: Seq<State<Side>>, side: Side, v: int, from: int, w: int)
    requires
        0 <= from <= w < sides.len(),
        w != v,
        sides[w] == State::Fixed(side),
    ensures
        first_with_side(sides, side, v, from) <= w,
    decreases w - from,
{
    if from < w {
        lemma_first_with_side(sides, side, v, from + 1, w);
    }
}

/// Past the end there is no match.
proof fn lemma_first_with_side_end(sides: Seq<State<Side>>, side: Side, v: int, from: int)
    requires
        from >= sides.len(),
    ensures
        first_with_side(sides, side, v, from) == sides.len(),
{
}

/// The indices of the entries equal to `val`, in increasing order.
pub open spec fn indices_with(s: Seq<bool>, val: bool) -> Seq<usize>
    decreases s.len(),
{
    if s.len() == 0 {
        Seq::empty()
    } else {
        let rest = indices_with(s.drop_last(), val);
        if s.last() == val {
            rest.push((s.len() - 1) as usize)
        } else {
            rest
        }
    }
}

/// Every listed vertex has a zero hint sum.
pub open spec fn all_zero(sums: Seq<u32>, idx: Seq<usize>) -> bool {
    forall|i: int| 0 <= i < idx.len() ==> sums[#[trigger] idx[i] as int] == 0
}

/// The indices with value `val`, and whether all of them have a zero sum.
fn collect_indices(visited: &Vec<bool>, sums: &Vec<u32>, val: bool) -> (r: (Vec<usize>, bool))
    requires
        sums@.len() == visited@.len(),
    ensures
        r.0@ == indices_with(visited@, val),
        r.1 == all_zero(sums@, indices_with(visited@, val)),
        forall|i: int| 0 <= i < r.0@.len() ==> r.0@[i] < visited@.len(),
{
    let mut out: Vec<usize> = Vec::new();
    let mut zero = true;
    let mut u: usize = 0;
    while u < visited.len()
        invariant
            u <= visited@.len(),
            sums@.len() == visited@.len(),
            out@ == indices_with(visited@.take(u as int), val),
            zero == all_zero(sums@, out@),
            forall|i: int| 0 <= i < out@.len() ==> out@[i] < u,
        decreases visited@.len() - u,
    {
        proof {
            assert(visited@.take(u as int + 1).drop_last() =~= visited@.take(u as int));
        }
        if visited[u] == val {
            let ghost before = out@;
            out.push(u);
            if sums[u] != 0 {
                zero = false;
                assert(sums@[out@[before.len() as int] as int] != 0);
            }
            proof {
                if zero {
                    assert forall|i: int| 0 <= i < out@.len() implies sums@[#[trigger] out@[i] as int] == 0 by {
                        if i < before.len() {
                            assert(out@[i] == before[i]);
                        }
                    }
                } else if sums[u as int] == 0 {
                    let i = choose|i: int| 0 <= i < before.len() && sums@[#[trigger] before[i] as int] != 0;
                    assert(out@[i] == before[i]);
                }
            }
        }
        u = u + 1;
    }
    assert(visited@.take(visited@.len() as int) =~= visited@);
    (out, zero)
}

/// The areas to fill after a search: none when everything was reached; else the
/// unreached vertices when their hint sums are all zero; else the reached vertices when
/// theirs are all zero; else none.
pub fn find_disconn_area(sums: &Vec<u32>, visited: &Vec<bool>) -> (r: Vec<usize>)
    requires
        sums@.len() == visited@.len(),
    ensures
        r@ == ({
            let disconn = indices_with(visited@, false);
            let conn = indices_with(visited@, true);
            if disconn.len() == 0 {
                Seq::<usize>::empty()
            } else if all_zero(sums@, disconn) {
                disconn
            } else if all_zero(sums@, conn) {
                conn
            } else {
                Seq::<usize>::empty()
            }
        }),
        forall|i: int| 0 <= i < r@.len() ==> r@[i] < visited@.len(),
{
    let (disconn, disconn_zero) = collect_indices(visited, sums, false);
    if disconn.len() == 0 {
        return Vec::new();
    }
    if disconn_zero {
        return disconn;
    }
    let (conn, conn_zero) = collect_indices(visited, sums, true);
    if conn_zero {
        return conn;
    }
    Vec::new()
}


/// The cells below `k` that name their areas, except areas whose side is fixed to
/// `exclude`, in increasing order.
pub open spec fn graph_cells(cm: ConnectMap, exclude: Side, k: int) -> Seq<int>
    decreases k,
{
    if k <= 0 {
        Seq::empty()
    } else {
        let rest = graph_cells(cm, exclude, k - 1);
        if cm.named(k - 1) && cm.area_of(k - 1).spec_side() != State::Fixed(exclude) {
            rest.push(k - 1)
        } else {
            rest
        }
    }
}

/// The cells listed below `k` are increasing and below `k`.
pub proof fn lemma_graph_cells(cm: ConnectMap, exclude: Side, k: int)
    ensures
        forall|a: int, b: int|
            0 <= a < b < graph_cells(cm, exclude, k).len() ==> #[trigger] graph_cells(cm, exclude, k)[a]
                < #[trigger] graph_cells(cm, exclude, k)[b],
        forall|a: int| 0 <= a < graph_cells(cm, exclude, k).len() ==> 0 <= #[trigger] graph_cells(cm, exclude, k)[a] < k,
    decreases k,
{
    if k > 0 {
        lemma_graph_cells(cm, exclude, k - 1);
        let rest = graph_cells(cm, exclude, k - 1);
        let g = graph_cells(cm, exclude, k);
        if cm.named(k - 1) && cm.area_of(k - 1).spec_side() != State::Fixed(exclude) {
            assert(g == rest.push(k - 1));
            assert forall|a: int, b: int| 0 <= a < b < g.len() implies #[trigger] g[a] < #[trigger] g[b] by {
                if b < rest.len() {
                    assert(g[a] == rest[a] && g[b] == rest[b]);
                } else {
                    assert(g[a] == rest[a]);
                }
            }
            assert forall|a: int| 0 <= a < g.len() implies 0 <= #[trigger] g[a] < k by {
                if a < rest.len() {
                    assert(g[a] == rest[a]);
                }
            }
        } else {
            assert(g == rest);
        }
    }
}

/// The graph of the areas not fixed to `exclude_side`: their names, their sides, and for
/// each the vertices of the areas across its unknown edges.
pub fn create_conn_graph(conn_map: &mut ConnectMap, exclude_side: Side) -> (r: (Vec<CellId>, Vec<State<Side>>, Vec<Vec<usize>>))
    requires
        old(conn_map).wf(),
    ensures
        final(conn_map).wf(),
        final(conn_map).same_areas(&*old(conn_map)),
        r.0@.len() == graph_cells(*old(conn_map), exclude_side, old(conn_map).cells() as int).len(),
        forall|i: int| 0 <= i < r.0@.len() ==> (#[trigger] r.0@[i]).spec_id() == graph_cells(
            *old(conn_map),
            exclude_side,
            old(conn_map).cells() as int,
        )[i],
        r.1@.len() == r.0@.len(),
        forall|i: int| 0 <= i < r.1@.len() ==> #[trigger] r.1@[i] == old(conn_map).area_of(r.0@[i].spec_id() as int).spec_side(),
        r.2@.len() == r.0@.len(),
        graph_ok(r.2@),
        forall|i: int, e: int|
            0 <= i < r.2@.len() && 0 <= e < r.2@[i]@.len() ==> old(conn_map).area_of(r.0@[i].spec_id() as int).edges().contains(
                r.0@[#[trigger] r.2@[i]@[e] as int],
            ),
        forall|i: int, v: int|
            #![trigger r.2@[i], r.0@[v]]
            0 <= i < r.2@.len() && 0 <= v < r.0@.len() && old(conn_map).area_of(r.0@[i].spec_id() as int).edges().contains(
                r.0@[v],
            ) ==> r.2@[i]@.contains(v as usize),
{
    let ghost cm0 = *conn_map;
    let n = conn_map.cell_len();
    let ghost gc = graph_cells(cm0, exclude_side, n as int);
    let mut pts: Vec<CellId> = Vec::new();
    let mut sides: Vec<State<Side>> = Vec::new();
    let mut i: usize = 0;
    while i < n
        invariant
            i <= n,
            n == cm0.cells(),
            conn_map.wf(),
            conn_map.same_areas(&cm0),
            pts@.len() == graph_cells(cm0, exclude_side, i as int).len(),
            forall|j: int| 0 <= j < pts@.len() ==> (#[trigger] pts@[j]).spec_id() == graph_cells(cm0, exclude_side, i as int)[j],
            sides@.len() == pts@.len(),
            forall|j: int| 0 <= j < sides@.len() ==> #[trigger] sides@[j] == cm0.area_of(pts@[j].spec_id() as int).spec_side(),
        decreases n - i,
    {
        let p = CellId::new(i);
        let a = conn_map.get(p);
        let side = a.side();
        let coord = a.coord();
        let excluded = match side {
            State::Fixed(s) => s == exclude_side,
            _ => false,
        };
        if coord.id() == i && !excluded {
            pts.push(p);
            sides.push(side);
        }
        i = i + 1;
    }
    proof {
        lemma_graph_cells(cm0, exclude_side, n as int);
    }
    let mut verts: Vec<Option<usize>> = Vec::new();
    let mut i: usize = 0;
    while i < n
        invariant
            i <= n,
            verts@ == Seq::new(i as nat, |_j: int| None::<usize>),
        decreases n - i,
    {
        verts.push(None);
        i = i + 1;
        assert(verts@ =~= Seq::new(i as nat, |_j: int| None::<usize>));
    }
    let mut k: usize = 0;
    while k < pts.len()
        invariant
            k <= pts@.len(),
            verts@.len() == n,
            pts@.len() == gc.len(),
            gc == graph_cells(cm0, exclude_side, n as int),
            forall|j: int| 0 <= j < pts@.len() ==> (#[trigger] pts@[j]).spec_id() == gc[j],
            forall|a: int, b: int| 0 <= a < b < gc.len() ==> #[trigger] gc[a] < #[trigger] gc[b],
            forall|a: int| 0 <= a < gc.len() ==> 0 <= #[trigger] gc[a] < n,
            forall|v: int| 0 <= v < k ==> verts@[(#[trigger] pts@[v]).spec_id() as int] == Some(v as usize),
            forall|c: int| 0 <= c < n ==> (#[trigger] verts@[c] matches Some(v) ==> v < k && pts@[v as int].spec_id() == c),
        decreases pts@.len() - k,
    {
        let id = pts[k].id();
        verts.set(id, Some(k));
        proof {
            assert forall|v: int| 0 <= v < k + 1 implies verts@[(#[trigger] pts@[v]).spec_id() as int] == Some(v as usize) by {
                if v < k {
                    assert(gc[v] < gc[k as int]);
                }
            }
        }
        k = k + 1;
    }
    let mut graph: Vec<Vec<usize>> = Vec::new();
    let mut i: usize = 0;
    while i < pts.len()
        invariant
            i <= pts@.len(),
            n == cm0.cells(),
            cm0.wf(),
            conn_map.wf(),
            conn_map.same_areas(&cm0),
            verts@.len() == n,
            pts@.len() == gc.len(),
            gc == graph_cells(cm0, exclude_side, n as int),
            forall|j: int| 0 <= j < pts@.len() ==> (#[trigger] pts@[j]).spec_id() == gc[j],
            forall|a: int| 0 <= a < gc.len() ==> 0 <= #[trigger] gc[a] < n,
            forall|v: int| 0 <= v < pts@.len() ==> verts@[(#[trigger] pts@[v]).spec_id() as int] == Some(v as usize),
            forall|c: int| 0 <= c < n ==> (#[trigger] verts@[c] matches Some(v) ==> v < pts@.len() && pts@[v as int].spec_id() == c),
            graph@.len() == i,
            forall|x: int, e: int| 0 <= x < i && 0 <= e < graph@[x]@.len() ==> (#[trigger] graph@[x]@[e]) < pts@.len(),
            forall|x: int, e: int|
                0 <= x < i && 0 <= e < graph@[x]@.len() ==> cm0.area_of(pts@[x].spec_id() as int).edges().contains(
                    pts@[#[trigger] graph@[x]@[e] as int],
                ),
            forall|x: int, v: int|
                #![trigger graph@[x], pts@[v]]
                0 <= x < i && 0 <= v < pts@.len() && cm0.area_of(pts@[x].spec_id() as int).edges().contains(pts@[v])
                    ==> graph@[x]@.contains(v as usize),
        decreases pts@.len() - i,
    {
        let ghost area = cm0.area_of(pts@[i as int].spec_id() as int);
        proof {
            cm0.lemma_wf(pts@[i as int].spec_id() as int);
        }
        let a = conn_map.get(pts[i]);
        let edges = a.unknown_edge();
        let mut row: Vec<usize> = Vec::new();
        let mut t: usize = 0;
        while t < edges.len()
            invariant
                t <= edges@.len(),
                edges@ == area.edges(),
                area.fits(n as nat),
                verts@.len() == n,
                forall|v: int| 0 <= v < pts@.len() ==> verts@[(#[trigger] pts@[v]).spec_id() as int] == Some(v as usize),
                forall|c: int| 0 <= c < n ==> (#[trigger] verts@[c] matches Some(v) ==> v < pts@.len() && pts@[v as int].spec_id() == c),
                forall|e: int| 0 <= e < row@.len() ==> (#[trigger] row@[e]) < pts@.len(),
                forall|e: int| 0 <= e < row@.len() ==> area.edges().contains(pts@[#[trigger] row@[e] as int]),
                forall|v: int| 0 <= v < pts@.len() && edges@.take(t as int).contains(#[trigger] pts@[v]) ==> row@.contains(v as usize),
            decreases edges@.len() - t,
        {
            let c = edges[t];
            assert(c.spec_id() < n) by {
                assert(area.edges()[t as int] == c);
            }
            let ghost before = row@;
            match verts[c.id()] {
                Some(v) => {
                    row.push(v);
                    proof {
                        CellId::lemma_id_injective(pts@[v as int], c);
                        assert(area.edges()[t as int] == c);
                    }
                },
                None => {},
            }
            proof {
                assert forall|v: int| 0 <= v < pts@.len() && edges@.take(t + 1).contains(#[trigger] pts@[v]) implies row@.contains(v as usize) by {
                    let w = choose|w: int| 0 <= w < t + 1 && #[trigger] edges@.take(t + 1)[w] == pts@[v];
                    if w < t {
                        assert(edges@.take(t as int)[w] == pts@[v]);
                        assert(before.contains(v as usize));
                        let e = choose|e: int| 0 <= e < before.len() && #[trigger] before[e] == v as usize;
                        assert(row@[e] == v as usize);
                    } else {
                        assert(pts@[v] == c);
                        assert(row@[row@.len() - 1] == v as usize);
                    }
                }
            }
            t = t + 1;
        }
        assert(edges@.take(edges@.len() as int) =~= edges@);
        graph.push(row);
        proof {
            assert forall|x: int, v: int|
                #![trigger graph@[x], pts@[v]]
                0 <= x < i + 1 && 0 <= v < pts@.len() && cm0.area_of(pts@[x].spec_id() as int).edges().contains(pts@[v])
                    implies graph@[x]@.contains(v as usize) by {
                if x == i {
                    assert(graph@[x] == row);
                }
            }
        }
        i = i + 1;
    }
    (pts, sides, graph)
}

/// The sums of hints of the areas named by `pts`.
fn area_sums(conn_map: &mut ConnectMap, pts: &Vec<CellId>) -> (r: Vec<u32>)
    requires
        old(conn_map).wf(),
        forall|i: int| 0 <= i < pts@.len() ==> (#[trigger] pts@[i]).spec_id() < old(conn_map).cells(),
    ensures
        final(conn_map).wf(),
        final(conn_map).same_areas(&*old(conn_map)),
        r@.len() == pts@.len(),
        forall|i: int| 0 <= i < r@.len() ==> #[trigger] r@[i] == old(conn_map).area_of(pts@[i].spec_id() as int).spec_sum(),
{
    let mut sums: Vec<u32> = Vec::new();
    let mut u: usize = 0;
    while u < pts.len()
        invariant
            u <= pts@.len(),
            conn_map.wf(),
            conn_map.same_areas(&*old(conn_map)),
            forall|i: int| 0 <= i < pts@.len() ==> (#[trigger] pts@[i]).spec_id() < old(conn_map).cells(),
            sums@.len() == u,
            forall|i: int| 0 <= i < u ==> #[trigger] sums@[i] == old(conn_map).area_of(pts@[i].spec_id() as int).spec_sum(),
        decreases pts@.len() - u,
    {
        let sum = conn_map.get(pts[u]).sum_of_hint();
        sums.push(sum);
        u = u + 1;
    }
    sums
}

/// `b` is reached from `a` through `u`.
pub proof fn lemma_reach_trans(g: Seq<Vec<usize>>, a: int, u: int, b: int)
    requires
        reachable(g, a, u),
        reachable(g, u, b),
    ensures
        reachable(g, a, b),
{
    let p = choose|p: Seq<int>| #[trigger] is_path(g, p) && p[0] == a && p.last() == u;
    let q = choose|q: Seq<int>| #[trigger] is_path(g, q) && q[0] == u && q.last() == b;
    let r = p + q.drop_first();
    assert forall|i: int| 0 <= i < r.len() - 1 implies #[trigger] has_edge(g, r[i], r[i + 1]) by {
        if i < p.len() - 1 {
            assert(r[i] == p[i] && r[i + 1] == p[i + 1]);
            assert(has_edge(g, p[i], p[i + 1]));
        } else {
            let j = i - (p.len() - 1);
            assert(r[i] == q[j] && r[i + 1] == q[j + 1]);
            assert(has_edge(g, q[j], q[j + 1]));
        }
    }
    assert(is_path(g, r));
    if q.len() == 1 {
        assert(r =~= p);
    } else {
        assert(r.last() == q.last());
    }
}

/// The indices of `s` with value `val` are those positions, each listed.
proof fn lemma_indices_with(s: Seq<bool>, val: bool)
    requires
        s.len() <= usize::MAX,
    ensures
        forall|i: int| 0 <= i < indices_with(s, val).len() ==> (#[trigger] indices_with(s, val)[i]) < s.len() && s[
            indices_with(s, val)[i] as int] == val,
        forall|x: int| 0 <= x < s.len() && s[x] == val ==> #[trigger] indices_with(s, val).contains(x as usize),
    decreases s.len(),
{
    if s.len() > 0 {
        let d = s.drop_last();
        lemma_indices_with(d, val);
        let rest = indices_with(d, val);
        assert forall|i: int| 0 <= i < indices_with(s, val).len() implies (#[trigger] indices_with(s, val)[i]) < s.len() && s[
            indices_with(s, val)[i] as int] == val by {
            if s.last() == val {
                assert(indices_with(s, val) == rest.push((s.len() - 1) as usize));
                if i == rest.len() {
                    assert(indices_with(s, val)[i] == (s.len() - 1) as usize);
                    assert(s[s.len() - 1] == s.last());
                }
            } else {
                assert(indices_with(s, val) == rest);
            }
            if i < rest.len() {
                assert(indices_with(s, val)[i] == rest[i]);
                assert(rest[i] < d.len());
                assert(d[rest[i] as int] == s[rest[i] as int]);
            }
        }
        assert forall|x: int| 0 <= x < s.len() && s[x] == val implies #[trigger] indices_with(s, val).contains(x as usize) by {
            if x < s.len() - 1 {
                assert(d[x] == s[x]);
                assert(rest.contains(x as usize));
                let k = choose|k: int| 0 <= k < rest.len() && rest[k] == x as usize;
                assert(indices_with(s, val)[k] == x as usize);
            } else {
                assert(indices_with(s, val) == rest.push((s.len() - 1) as usize));
                assert(indices_with(s, val)[rest.len() as int] == x as usize);
            }
        }
    }
}

/// Areas alike give the same graph cells.
proof fn lemma_graph_cells_same(a: ConnectMap, b: ConnectMap, exclude: Side, k: int)
    requires
        a.slots() == b.slots(),
        a.reps() == b.reps(),
    ensures
        graph_cells(a, exclude, k) == graph_cells(b, exclude, k),
    decreases k,
{
    if k > 0 {
        lemma_graph_cells_same(a, b, exclude, k - 1);
    }
}

/// `pts` and `g` are the graph of the areas of `cm` not known on side `exclude`: a vertex
/// per such area, named by its cell, and an edge from each to the areas across its
/// unknown edges.
pub open spec fn conn_graph(cm: ConnectMap, exclude: Side, pts: Seq<CellId>, g: Seq<Vec<usize>>) -> bool {
    &&& pts.len() == graph_cells(cm, exclude, cm.cells() as int).len()
    &&& forall|i: int| 0 <= i < pts.len() ==> (#[trigger] pts[i]).spec_id() == graph_cells(cm, exclude, cm.cells() as int)[i]
    &&& g.len() == pts.len()
    &&& graph_ok(g)
    &&& forall|i: int, e: int|
        0 <= i < g.len() && 0 <= e < g[i]@.len() ==> cm.area_of(pts[i].spec_id() as int).edges().contains(pts[#[trigger] g[i]@[e] as int])
    &&& forall|i: int, v: int|
        #![trigger g[i], pts[v]]
        0 <= i < g.len() && 0 <= v < pts.len() && cm.area_of(pts[i].spec_id() as int).edges().contains(pts[v]) ==> g[i]@.contains(
            v as usize,
        )
}

/// The hint sum of the area of vertex `x` is zero.
pub open spec fn zero_area(cm: ConnectMap, pts: Seq<CellId>, x: int) -> bool {
    cm.area_of(pts[x].spec_id() as int).spec_sum() == 0
}

/// What the search from vertex `v` decided: when some vertices are cut off from `v` and
/// none of their areas holds a hint, they take side `exclude`; when those cut off hold a
/// hint but the areas that `v` reaches hold none, these take side `exclude`.
pub open spec fn cut_decided(cm: ConnectMap, sm: SideMap, exclude: Side, pts: Seq<CellId>, g: Seq<Vec<usize>>, v: int) -> bool {
    let away = exists|x: int| 0 <= x < g.len() && !#[trigger] reachable(g, v, x);
    let away_zero = forall|x: int| 0 <= x < g.len() && !#[trigger] reachable(g, v, x) ==> zero_area(cm, pts, x);
    let near_zero = forall|x: int| 0 <= x < g.len() && #[trigger] reachable(g, v, x) ==> zero_area(cm, pts, x);
    &&& away && away_zero ==> forall|x: int|
        0 <= x < g.len() && !#[trigger] reachable(g, v, x) ==> sm.knows_side(pts[x].spec_id(), exclude)
    &&& away && !away_zero && near_zero ==> forall|x: int|
        0 <= x < g.len() && #[trigger] reachable(g, v, x) ==> sm.knows_side(pts[x].spec_id(), exclude)
}

/// Every search of a round has decided: one from each group of vertices that reach each
/// other, the first of the group; in the round that sets cells inside, only when the
/// puzzle has a hint.
pub open spec fn cuts_decided(cm: ConnectMap, sm: SideMap, exclude: Side, pts: Seq<CellId>, g: Seq<Vec<usize>>) -> bool {
    forall|v: int|
        0 <= v < g.len() && (forall|w: int| 0 <= w < v ==> !#[trigger] reachable(g, w, v)) && (exclude == Side::In
            || cm.spec_sum() != 0) ==> #[trigger] cut_decided(cm, sm, exclude, pts, g, v)
}

/// What a search decided stays known in a map that keeps the first.
proof fn lemma_cut_decided_keeps(cm: ConnectMap, a: SideMap, b: SideMap, exclude: Side, pts: Seq<CellId>, g: Seq<Vec<usize>>, v: int)
    requires
        a.wf(),
        a.keeps(&b),
        forall|i: int| 0 <= i < pts.len() ==> (#[trigger] pts[i]).spec_id() < a.num_cells(),
        g.len() == pts.len(),
        cut_decided(cm, a, exclude, pts, g, v),
    ensures
        cut_decided(cm, b, exclude, pts, g, v),
{
    a.lemma_has_cells();
    assert(crate::side_map::key0(0) < 2 * a.num_cells() && crate::side_map::key1(0) < 2 * a.num_cells());
    assert forall|x: int| 0 <= x < g.len() && a.knows_side(pts[x].spec_id(), exclude) implies b.knows_side(pts[x].spec_id(), exclude) by {
        assert(pts[x].spec_id() < a.num_cells());
        assert(crate::side_map::key0(pts[x].spec_id()) < 2 * a.num_cells());
    }
}

/// Removing `a` parts two vertices that `a` reaches from each other.
pub open spec fn separated(g: Seq<Vec<usize>>, a: int) -> bool {
    exists|x: int, y: int|
        0 <= x < g.len() && 0 <= y < g.len() && reachable(g, a, x) && reachable(g, a, y) && x != a && y != a
            && !#[trigger] reach_avoiding(g, only(g.len(), a), x, y)
}

/// The known sides of the areas of the vertices `pts`.
pub open spec fn sides_of(cm: ConnectMap, pts: Seq<CellId>) -> Seq<State<Side>> {
    Seq::new(pts.len(), |i: int| cm.area_of(pts[i].spec_id() as int).spec_side())
}

/// Removing `a` parts the vertices whose side is `set` (as `splits` tells).
pub open spec fn splits_sides(g: Seq<Vec<usize>>, a: int, sides: Seq<State<Side>>, set: Side) -> bool {
    exists|u: int|
        0 <= u < g.len() && u != a && sides[u] == State::Fixed(set) && !#[trigger] reach_avoiding(
            g,
            only(g.len(), a),
            first_with_side(sides, set, a, 0),
            u,
        )
}

/// The vertex `a`, not known on side `set` and parting the vertices on that side, takes
/// that side.
pub open spec fn art_at(cm: ConnectMap, sm: SideMap, set: Side, pts: Seq<CellId>, g: Seq<Vec<usize>>, a: int) -> bool {
    sides_of(cm, pts)[a] != State::Fixed(set) && splits_sides(g, a, sides_of(cm, pts), set) ==> sm.knows_side(
        pts[a].spec_id(),
        set,
    )
}

/// In a graph whose edges go both ways, every vertex whose removal parts two others that
/// it reaches, not known on side `set` and parting the vertices on that side, takes that
/// side.
pub open spec fn arts_decided(cm: ConnectMap, sm: SideMap, set: Side, pts: Seq<CellId>, g: Seq<Vec<usize>>) -> bool {
    symmetric(g) ==> forall|a: int| 0 <= a < g.len() && #[trigger] separated(g, a) ==> art_at(cm, sm, set, pts, g, a)
}

/// What the articulation rule decided stays known in a map that keeps the first.
proof fn lemma_arts_decided_keeps(cm: ConnectMap, a: SideMap, b: SideMap, set: Side, pts: Seq<CellId>, g: Seq<Vec<usize>>)
    requires
        a.wf(),
        a.keeps(&b),
        forall|i: int| 0 <= i < pts.len() ==> (#[trigger] pts[i]).spec_id() < a.num_cells(),
        g.len() == pts.len(),
        arts_decided(cm, a, set, pts, g),
    ensures
        arts_decided(cm, b, set, pts, g),
{
    a.lemma_has_cells();
    if symmetric(g) {
        assert forall|x: int| 0 <= x < g.len() && #[trigger] separated(g, x) implies art_at(cm, b, set, pts, g, x) by {
            assert(art_at(cm, a, set, pts, g, x));
            assert(pts[x].spec_id() < a.num_cells());
            assert(crate::side_map::key0(pts[x].spec_id()) < 2 * a.num_cells());
            assert(crate::side_map::key0(0) < 2 * a.num_cells() && crate::side_map::key1(0) < 2 * a.num_cells());
        }
    }
}

/// What the searches of a round decided stays known in a map that keeps the first.
proof fn lemma_cuts_decided_keeps(cm: ConnectMap, a: SideMap, b: SideMap, exclude: Side, pts: Seq<CellId>, g: Seq<Vec<usize>>)
    requires
        a.wf(),
        a.keeps(&b),
        forall|i: int| 0 <= i < pts.len() ==> (#[trigger] pts[i]).spec_id() < a.num_cells(),
        g.len() == pts.len(),
        cuts_decided(cm, a, exclude, pts, g),
    ensures
        cuts_decided(cm, b, exclude, pts, g),
{
    assert forall|v: int|
        0 <= v < g.len() && (forall|w: int| 0 <= w < v ==> !#[trigger] reachable(g, w, v)) && (exclude == Side::In
            || cm.spec_sum() != 0) implies #[trigger] cut_decided(cm, b, exclude, pts, g, v) by {
        lemma_cut_decided_keeps(cm, a, b, exclude, pts, g, v);
    }
}

/// The graph and the decisions read only the areas, so maps with alike areas agree.
proof fn lemma_decided_same_areas(a: ConnectMap, b: ConnectMap, sm: SideMap, exclude: Side, pts: Seq<CellId>, g: Seq<Vec<usize>>)
    requires
        a.same_areas(&b),
        graph_cells(a, exclude, a.cells() as int) == graph_cells(b, exclude, b.cells() as int),
        conn_graph(a, exclude, pts, g),
        cuts_decided(a, sm, exclude, pts, g),
    ensures
        conn_graph(b, exclude, pts, g),
        cuts_decided(b, sm, exclude, pts, g),
{
    assert forall|x: int| 0 <= x < pts.len() implies #[trigger] zero_area(a, pts, x) == zero_area(b, pts, x) by {
        assert(a.area_of(pts[x].spec_id() as int) == b.area_of(pts[x].spec_id() as int));
    }
    assert forall|i: int| 0 <= i < pts.len() implies #[trigger] a.area_of(pts[i].spec_id() as int) == b.area_of(pts[i].spec_id() as int) by {}
    assert forall|v: int|
        0 <= v < g.len() && (forall|w: int| 0 <= w < v ==> !#[trigger] reachable(g, w, v)) && (exclude == Side::In
            || b.spec_sum() != 0) implies #[trigger] cut_decided(b, sm, exclude, pts, g, v) by {
        assert(cut_decided(a, sm, exclude, pts, g, v));
    }
}

/// The articulation decisions read only the areas, so maps with alike areas agree.
proof fn lemma_arts_same_areas(a: ConnectMap, b: ConnectMap, sm: SideMap, set: Side, pts: Seq<CellId>, g: Seq<Vec<usize>>)
    requires
        a.same_areas(&b),
        arts_decided(a, sm, set, pts, g),
    ensures
        arts_decided(b, sm, set, pts, g),
{
    assert(sides_of(a, pts) =~= sides_of(b, pts)) by {
        assert forall|i: int| 0 <= i < pts.len() implies #[trigger] sides_of(a, pts)[i] == sides_of(b, pts)[i] by {
            assert(a.area_of(pts[i].spec_id() as int) == b.area_of(pts[i].spec_id() as int));
        }
    }
    if symmetric(g) {
        assert forall|x: int| 0 <= x < g.len() && #[trigger] separated(g, x) implies art_at(b, sm, set, pts, g, x) by {
            assert(art_at(a, sm, set, pts, g, x));
        }
    }
}

/// The areas agree with the side map `sm`: the side of every area is what `sm` knows of
/// the cell that names it, and at most two areas have no unknown edge left.
pub open spec fn synced(cm: ConnectMap, sm: SideMap) -> bool {
    &&& cm.count_closed(cm.cells() as int) <= 2
    &&& forall|c: int| 0 <= c < cm.cells() && #[trigger] cm.named(c) ==> cm.area_of(c).spec_side() == sm.side_state(c as nat)
}

/// Decides sides from how the areas connect. After bringing the areas up to date (and
/// only when the side map changed since the last run), for each side: an area cut off
/// from the others, whose areas hold no hint, is a hole and takes the other side; and an
/// area whose removal parts the areas of this side takes this side.
pub fn run(side_map: &mut SideMap, conn_map: &mut ConnectMap, last_rev: &mut Option<u32>) -> (r: SolverResult<()>)
    requires
        old(side_map).wf(),
        old(conn_map).wf(),
        old(conn_map).sound(&*old(side_map)),
    ensures
        final(side_map).wf(),
        old(side_map).keeps(&*final(side_map)),
        final(conn_map).wf(),
        final(conn_map).cells() == old(conn_map).cells(),
        final(conn_map).spec_sum() == old(conn_map).spec_sum(),
        final(conn_map).classes() <= old(conn_map).classes(),
        final(conn_map).sound(&*final(side_map)),
        r is Err ==> r->Err_0 == Error::spec_invalid_board() && *final(last_rev) == *old(last_rev),
        r is Ok ==> *final(last_rev) == Some(old(side_map).spec_revision() as u32),
        r is Ok && *old(last_rev) == Some(old(side_map).spec_revision() as u32) ==> final(side_map).same_view(
            *old(side_map),
        ),
        r is Ok ==> synced(*final(conn_map), *old(side_map)),
        r is Ok && *old(last_rev) != Some(old(side_map).spec_revision() as u32) ==> (exists|pts: Seq<CellId>, g: Seq<Vec<usize>>|
            #[trigger] conn_graph(*final(conn_map), Side::Out, pts, g) && cuts_decided(*final(conn_map), *final(side_map), Side::Out, pts, g)
                && arts_decided(*final(conn_map), *final(side_map), Side::In, pts, g)),
        r is Ok && *old(last_rev) != Some(old(side_map).spec_revision() as u32) ==> (exists|pts: Seq<CellId>, g: Seq<Vec<usize>>|
            #[trigger] conn_graph(*final(conn_map), Side::In, pts, g) && cuts_decided(*final(conn_map), *final(side_map), Side::In, pts, g)
                && arts_decided(*final(conn_map), *final(side_map), Side::Out, pts, g)),
{
    let ghost sm0 = *side_map;
    match conn_map.sync(side_map) {
        Ok(()) => {},
        Err(e) => {
            proof {
                lemma_same_view_keeps(sm0, *side_map);
            }
            return Err(e);
        },
    }
    proof {
        lemma_same_view_keeps(sm0, *side_map);
    }
    let ghost cm_s = *conn_map;
    proof {
        assert(synced(cm_s, sm0));
    }
    let rev = side_map.revision();
    if let Some(r) = *last_rev {
        if r == rev {
            return Ok(());
        }
    }
    *last_rev = Some(rev);
    let ghost n = conn_map.cells();
    let mut round: usize = 0;
    while round < 2
        invariant
            round <= 2,
            n == conn_map.cells(),
            n == old(conn_map).cells(),
            conn_map.wf(),
            conn_map.spec_sum() == old(conn_map).spec_sum(),
            conn_map.classes() <= old(conn_map).classes(),
            side_map.wf(),
            sm0 == *old(side_map),
            sm0.keeps(&*side_map),
            conn_map.sound(&*side_map),
            conn_map.same_areas(&cm_s),
            synced(cm_s, sm0),
            round >= 1 ==> exists|pts: Seq<CellId>, g: Seq<Vec<usize>>|
                #[trigger] conn_graph(cm_s, Side::Out, pts, g) && cuts_decided(cm_s, *side_map, Side::Out, pts, g)
                    && arts_decided(cm_s, *side_map, Side::In, pts, g)
                    && forall|i: int| 0 <= i < pts.len() ==> (#[trigger] pts[i]).spec_id() < n,
            round >= 2 ==> exists|pts: Seq<CellId>, g: Seq<Vec<usize>>|
                #[trigger] conn_graph(cm_s, Side::In, pts, g) && cuts_decided(cm_s, *side_map, Side::In, pts, g)
                    && arts_decided(cm_s, *side_map, Side::Out, pts, g)
                    && forall|i: int| 0 <= i < pts.len() ==> (#[trigger] pts[i]).spec_id() < n,
        decreases 2 - round,
    {
        let set_side = if round == 0 {
            Side::In
        } else {
            Side::Out
        };
        let exclude_side = if round == 0 {
            Side::Out
        } else {
            Side::In
        };
        let ghost sm_r = *side_map;
        let ghost cm1 = *conn_map;
        proof {
            lemma_graph_cells(cm1, exclude_side, n as int);
            lemma_graph_cells_same(cm1, cm_s, exclude_side, n as int);
        }
        let (pts, sides, graph) = create_conn_graph(conn_map, exclude_side);
        let sums = area_sums(conn_map, &pts);
        proof {
            lemma_sound_same_reps(cm1, *conn_map, *side_map, *side_map);
            assert(conn_graph(cm_s, exclude_side, pts@, graph@));
            assert(sides@ =~= sides_of(cm_s, pts@));
            side_map.lemma_has_cells();
            assert(sm_r.keeps(&sm_r));
        }
        let mut arts: Vec<usize> = Vec::new();
        let mut gvisited: Vec<bool> = Vec::new();
        let mut v: usize = 0;
        while v < graph.len()
            invariant
                v <= graph@.len(),
                gvisited@.len() == v,
                forall|i: int| 0 <= i < v ==> !gvisited@[i],
            decreases graph@.len() - v,
        {
            gvisited.push(false);
            v = v + 1;
        }
        let mut v: usize = 0;
        while v < graph.len()
            invariant
                v <= graph@.len(),
                graph_ok(graph@),
                gvisited@.len() == graph@.len(),
                sums@.len() == graph@.len(),
                pts@.len() == graph@.len(),
                forall|i: int| 0 <= i < arts@.len() ==> arts@[i] < graph@.len(),
                forall|i: int| 0 <= i < pts@.len() ==> (#[trigger] pts@[i]).spec_id() < n,
                n == conn_map.cells(),
                conn_map.wf(),
                side_map.wf(),
                sm0.keeps(&*side_map),
                sm0.num_cells() == n,
                conn_map.sound(&*side_map),
                conn_map.same_areas(&cm_s),
                synced(cm_s, sm0),
                sm_r.wf(),
                sm_r.keeps(&*side_map),
                sm_r.num_cells() == n,
                conn_graph(cm_s, exclude_side, pts@, graph@),
                forall|i: int| 0 <= i < sums@.len() ==> (sums@[i] == 0) == #[trigger] zero_area(cm_s, pts@, i),
                (set_side == Side::Out) == (exclude_side == Side::In),
                forall|x: int| 0 <= x < graph@.len() ==> #[trigger] gvisited@[x] == exists|w: int| 0 <= w < v && #[trigger] reachable(graph@, w, x),
                forall|u: int|
                    0 <= u < v && (forall|w: int| 0 <= w < u ==> !#[trigger] reachable(graph@, w, u)) && (exclude_side == Side::In
                        || cm_s.spec_sum() != 0) ==> #[trigger] cut_decided(cm_s, *side_map, exclude_side, pts@, graph@, u),
                symmetric(graph@) ==> forall|x: int|
                    0 <= x < graph@.len() && (exists|w: int| 0 <= w < v && #[trigger] reachable(graph@, w, x)) && #[trigger] separated(
                        graph@,
                        x,
                    ) ==> listed(arts@, x),
            decreases graph@.len() - v,
        {
            if gvisited[v] {
                proof {
                    let w0 = choose|w: int| 0 <= w < v && #[trigger] reachable(graph@, w, v as int);
                    assert forall|x: int| 0 <= x < graph@.len() implies #[trigger] gvisited@[x] == exists|w: int| 0 <= w < v + 1 && #[trigger] reachable(graph@, w, x) by {
                        if reachable(graph@, v as int, x) {
                            lemma_reach_trans(graph@, w0, v as int, x);
                        }
                    }
                    assert forall|u: int|
                        0 <= u < v + 1 && (forall|w: int| 0 <= w < u ==> !#[trigger] reachable(graph@, w, u)) && (exclude_side == Side::In
                            || cm_s.spec_sum() != 0) implies #[trigger] cut_decided(cm_s, *side_map, exclude_side, pts@, graph@, u) by {
                        if u == v {
                            assert(reachable(graph@, w0, v as int));
                        }
                    }
                    if symmetric(graph@) {
                        assert forall|x: int|
                            0 <= x < graph@.len() && (exists|w: int| 0 <= w < v + 1 && #[trigger] reachable(graph@, w, x)) && #[trigger] separated(
                                graph@,
                                x,
                            ) implies listed(arts@, x) by {
                            let w1 = choose|w: int| 0 <= w < v + 1 && #[trigger] reachable(graph@, w, x);
                            if w1 == v {
                                lemma_reach_trans(graph@, w0, v as int, x);
                            }
                        }
                    }
                }
                v = v + 1;
                continue;
            }
            let ghost before_g = gvisited@;
            let ghost before_arts = arts@;
            let visited = get_articulation(&graph, v, &mut arts, &mut gvisited);
            proof {
                lemma_listed_grows(before_arts, arts@);
                if symmetric(graph@) {
                    assert forall|x: int|
                        0 <= x < graph@.len() && (exists|w: int| 0 <= w < v + 1 && #[trigger] reachable(graph@, w, x)) && #[trigger] separated(
                            graph@,
                            x,
                        ) implies listed(arts@, x) by {
                        let w1 = choose|w: int| 0 <= w < v + 1 && #[trigger] reachable(graph@, w, x);
                        if w1 < v {
                            assert(listed(before_arts, x));
                        } else {
                            assert(visited@[x]);
                            if !listed(arts@, x) {
                                let (x1, y1) = choose|x1: int, y1: int|
                                    0 <= x1 < graph@.len() && 0 <= y1 < graph@.len() && reachable(graph@, x, x1) && reachable(graph@, x, y1)
                                        && x1 != x && y1 != x && !#[trigger] reach_avoiding(graph@, only(graph@.len(), x), x1, y1);
                                lemma_reach_trans(graph@, v as int, x, x1);
                                lemma_reach_trans(graph@, v as int, x, y1);
                                assert(visited@[x1] && visited@[y1]);
                            }
                        }
                    }
                }
                assert forall|x: int| 0 <= x < graph@.len() implies #[trigger] gvisited@[x] == exists|w: int| 0 <= w < v + 1 && #[trigger] reachable(graph@, w, x) by {
                    assert(before_g[x] == exists|w: int| 0 <= w < v && #[trigger] reachable(graph@, w, x));
                    if before_g[x] {
                        let w = choose|w: int| 0 <= w < v && #[trigger] reachable(graph@, w, x);
                        assert(0 <= w < v + 1 && reachable(graph@, w, x));
                    }
                    if visited@[x] {
                        assert(reachable(graph@, v as int, x));
                    }
                    if exists|w: int| 0 <= w < v + 1 && #[trigger] reachable(graph@, w, x) {
                        let w = choose|w: int| 0 <= w < v + 1 && #[trigger] reachable(graph@, w, x);
                        if w < v {
                            assert(before_g[x]);
                        } else {
                            assert(visited@[x]);
                        }
                    }
                }
                assert forall|w: int| 0 <= w < v implies !#[trigger] reachable(graph@, w, v as int) by {
                    if reachable(graph@, w, v as int) {
                        assert(before_g[v as int]);
                    }
                }
            }
            let ghost sm_v = *side_map;
            if set_side == Side::Out || conn_map.sum_of_hint() != 0 {
                let disconn = find_disconn_area(&sums, &visited);
                let mut w: usize = 0;
                while w < disconn.len()
                    invariant
                        w <= disconn@.len(),
                        forall|i: int| 0 <= i < disconn@.len() ==> disconn@[i] < visited@.len(),
                        visited@.len() == graph@.len(),
                        pts@.len() == graph@.len(),
                        forall|i: int| 0 <= i < pts@.len() ==> (#[trigger] pts@[i]).spec_id() < n,
                        n == conn_map.cells(),
                        side_map.wf(),
                        sm0.keeps(&*side_map),
                        sm0.num_cells() == n,
                        conn_map.sound(&*side_map),
                        conn_map.same_areas(&cm_s),
                        synced(cm_s, sm0),
                        sm_v.wf(),
                        sm_v.keeps(&*side_map),
                        sm_v.num_cells() == n,
                        forall|i: int| 0 <= i < w ==> side_map.knows_side(pts@[#[trigger] disconn@[i] as int].spec_id(), exclude_side),
                    decreases disconn@.len() - w,
                {
                    let ghost before = *side_map;
                    side_map.set_side(pts[disconn[w]], exclude_side);
                    proof {
                        sm0.lemma_keeps_transitive(&before, &*side_map);
                        sm_v.lemma_keeps_transitive(&before, &*side_map);
                        lemma_sound_same_reps(*conn_map, *conn_map, before, *side_map);
                        before.lemma_has_cells();
                        assert forall|i: int| 0 <= i < w + 1 implies side_map.knows_side(pts@[#[trigger] disconn@[i] as int].spec_id(), exclude_side) by {
                            if i < w {
                                let c = pts@[disconn@[i] as int].spec_id();
                                assert(c < n);
                                assert(crate::side_map::key0(c) < 2 * before.num_cells());
                                assert(crate::side_map::key0(0) < 2 * before.num_cells());
                                assert(crate::side_map::key1(0) < 2 * before.num_cells());
                            }
                        }
                    }
                    w = w + 1;
                }
                proof {
                    lemma_indices_with(visited@, false);
                    lemma_indices_with(visited@, true);
                    let g = graph@;
                    let dis = indices_with(visited@, false);
                    let con = indices_with(visited@, true);
                    assert forall|x: int| 0 <= x < g.len() implies (visited@[x] == #[trigger] reachable(g, v as int, x)) by {}
                    assert(all_zero(sums@, dis) == (forall|x: int| 0 <= x < g.len() && !#[trigger] reachable(g, v as int, x) ==> zero_area(cm_s, pts@, x))) by {
                        if all_zero(sums@, dis) {
                            assert forall|x: int| 0 <= x < g.len() && !#[trigger] reachable(g, v as int, x) implies zero_area(cm_s, pts@, x) by {
                                assert(dis.contains(x as usize));
                                let k = choose|k: int| 0 <= k < dis.len() && dis[k] == x as usize;
                                assert(sums@[dis[k] as int] == 0);
                            }
                        }
                        if forall|x: int| 0 <= x < g.len() && !#[trigger] reachable(g, v as int, x) ==> zero_area(cm_s, pts@, x) {
                            assert forall|i: int| 0 <= i < dis.len() implies sums@[#[trigger] dis[i] as int] == 0 by {
                                assert(!visited@[dis[i] as int]);
                                assert(zero_area(cm_s, pts@, dis[i] as int));
                            }
                        }
                    }
                    assert(all_zero(sums@, con) == (forall|x: int| 0 <= x < g.len() && #[trigger] reachable(g, v as int, x) ==> zero_area(cm_s, pts@, x))) by {
                        if all_zero(sums@, con) {
                            assert forall|x: int| 0 <= x < g.len() && #[trigger] reachable(g, v as int, x) implies zero_area(cm_s, pts@, x) by {
                                assert(con.contains(x as usize));
                                let k = choose|k: int| 0 <= k < con.len() && con[k] == x as usize;
                                assert(sums@[con[k] as int] == 0);
                            }
                        }
                        if forall|x: int| 0 <= x < g.len() && #[trigger] reachable(g, v as int, x) ==> zero_area(cm_s, pts@, x) {
                            assert forall|i: int| 0 <= i < con.len() implies sums@[#[trigger] con[i] as int] == 0 by {
                                assert(visited@[con[i] as int]);
                                assert(zero_area(cm_s, pts@, con[i] as int));
                            }
                        }
                    }
                    assert((exists|x: int| 0 <= x < g.len() && !#[trigger] reachable(g, v as int, x)) == (dis.len() > 0)) by {
                        if dis.len() > 0 {
                            assert(!visited@[dis[0] as int]);
                            assert(!reachable(g, v as int, dis[0] as int));
                        }
                        if exists|x: int| 0 <= x < g.len() && !#[trigger] reachable(g, v as int, x) {
                            let x = choose|x: int| 0 <= x < g.len() && !#[trigger] reachable(g, v as int, x);
                            assert(dis.contains(x as usize));
                        }
                    }
                    assert forall|x: int| 0 <= x < g.len() && disconn@.contains(x as usize) implies side_map.knows_side(pts@[x].spec_id(), exclude_side) by {
                        let k = choose|k: int| 0 <= k < disconn@.len() && disconn@[k] == x as usize;
                        assert(side_map.knows_side(pts@[disconn@[k] as int].spec_id(), exclude_side));
                    }
                    if dis.len() > 0 && all_zero(sums@, dis) {
                        assert forall|x: int| 0 <= x < g.len() && !#[trigger] reachable(g, v as int, x) implies side_map.knows_side(pts@[x].spec_id(), exclude_side) by {
                            assert(dis.contains(x as usize));
                        }
                    } else if dis.len() > 0 && all_zero(sums@, con) {
                        assert forall|x: int| 0 <= x < g.len() && #[trigger] reachable(g, v as int, x) implies side_map.knows_side(pts@[x].spec_id(), exclude_side) by {
                            assert(con.contains(x as usize));
                        }
                    }
                    assert(cut_decided(cm_s, *side_map, exclude_side, pts@, g, v as int));
                }
            }
            proof {
                assert(sm_v.keeps(&*side_map)) by {
                    if !(set_side == Side::Out || conn_map.spec_sum() != 0) {
                        assert(sm_v.keeps(&sm_v));
                    }
                }
                assert forall|u: int|
                    0 <= u < v + 1 && (forall|w: int| 0 <= w < u ==> !#[trigger] reachable(graph@, w, u)) && (exclude_side == Side::In
                        || cm_s.spec_sum() != 0) implies #[trigger] cut_decided(cm_s, *side_map, exclude_side, pts@, graph@, u) by {
                    if u < v {
                        lemma_cut_decided_keeps(cm_s, sm_v, *side_map, exclude_side, pts@, graph@, u);
                    }
                }
                sm_r.lemma_keeps_transitive(&sm_v, &*side_map);
            }
            v = v + 1;
        }
        let ghost sm_k = *side_map;
        proof {
            assert(sm_k.keeps(&sm_k));
            if symmetric(graph@) {
                assert forall|x: int| 0 <= x < graph@.len() && #[trigger] separated(graph@, x) implies listed(arts@, x) by {
                    lemma_reach_self(graph@, x);
                    assert(exists|w: int| 0 <= w < v && #[trigger] reachable(graph@, w, x));
                }
            }
        }
        let mut k: usize = 0;
        while k < arts.len()
            invariant
                k <= arts@.len(),
                forall|i: int| 0 <= i < arts@.len() ==> arts@[i] < graph@.len(),
                graph_ok(graph@),
                sides@.len() == graph@.len(),
                pts@.len() == graph@.len(),
                forall|i: int| 0 <= i < pts@.len() ==> (#[trigger] pts@[i]).spec_id() < n,
                n == conn_map.cells(),
                side_map.wf(),
                sm0.keeps(&*side_map),
                sm0.num_cells() == n,
                conn_map.sound(&*side_map),
                conn_map.same_areas(&cm_s),
                synced(cm_s, sm0),
                sm_k.wf(),
                sm_k.keeps(&*side_map),
                sm_r.keeps(&sm_k),
                sides@ == sides_of(cm_s, pts@),
                (set_side == Side::Out) == (exclude_side == Side::In),
                set_side != exclude_side,
                symmetric(graph@) ==> forall|x: int| 0 <= x < graph@.len() && #[trigger] separated(graph@, x) ==> listed(arts@, x),
                forall|i: int| 0 <= i < k ==> art_at(cm_s, *side_map, set_side, pts@, graph@, #[trigger] arts@[i] as int),
            decreases arts@.len() - k,
        {
            let a = arts[k];
            let fixed = match sides[a] {
                State::Fixed(s) => s == set_side,
                _ => false,
            };
            let ghost before = *side_map;
            if !fixed && splits(&graph, a, &sides, set_side) {
                side_map.set_side(pts[a], set_side);
                proof {
                    sm0.lemma_keeps_transitive(&before, &*side_map);
                    sm_k.lemma_keeps_transitive(&before, &*side_map);
                    lemma_sound_same_reps(*conn_map, *conn_map, before, *side_map);
                }
            }
            proof {
                before.lemma_has_cells();
                assert(before.keeps(&*side_map)) by {
                    if fixed || !splits_sides(graph@, a as int, sides@, set_side) {
                        assert(before.keeps(&before));
                    }
                }
                assert forall|i: int| 0 <= i < k + 1 implies art_at(cm_s, *side_map, set_side, pts@, graph@, #[trigger] arts@[i] as int) by {
                    let x = arts@[i] as int;
                    assert(pts@[x].spec_id() < n);
                    assert(crate::side_map::key0(pts@[x].spec_id()) < 2 * before.num_cells());
                    assert(crate::side_map::key0(0) < 2 * before.num_cells() && crate::side_map::key1(0) < 2 * before.num_cells());
                    if i == k {
                        assert(sides@[x] == sides_of(cm_s, pts@)[x]);
                    }
                }
            }
            k = k + 1;
        }
        proof {
            sm_r.lemma_keeps_transitive(&sm_k, &*side_map);
            lemma_cuts_decided_keeps(cm_s, sm_k, *side_map, exclude_side, pts@, graph@);
            assert(conn_graph(cm_s, exclude_side, pts@, graph@));
            if symmetric(graph@) {
                assert forall|x: int| 0 <= x < graph@.len() && #[trigger] separated(graph@, x) implies art_at(cm_s, *side_map, set_side, pts@, graph@, x) by {
                    assert(listed(arts@, x));
                    let i = choose|i: int| 0 <= i < arts@.len() && arts@[i] == x;
                    assert(art_at(cm_s, *side_map, set_side, pts@, graph@, arts@[i] as int));
                }
            }
            assert(arts_decided(cm_s, *side_map, set_side, pts@, graph@));
            if round >= 1 {
                let (p1, g1) = choose|pts: Seq<CellId>, g: Seq<Vec<usize>>|
                    #[trigger] conn_graph(cm_s, Side::Out, pts, g) && cuts_decided(cm_s, sm_r, Side::Out, pts, g)
                        && arts_decided(cm_s, sm_r, Side::In, pts, g)
                        && forall|i: int| 0 <= i < pts.len() ==> (#[trigger] pts[i]).spec_id() < n;
                lemma_cuts_decided_keeps(cm_s, sm_r, *side_map, Side::Out, p1, g1);
                lemma_arts_decided_keeps(cm_s, sm_r, *side_map, Side::In, p1, g1);
            }
        }
        round = round + 1;
    }
    proof {
        assert forall|c: int| 0 <= c < cm_s.cells() implies #[trigger] conn_map.closed(c) == cm_s.closed(c) by {}
        crate::connect_map::lemma_count_closed_same(*conn_map, cm_s, cm_s.cells() as int);
        assert forall|c: int| 0 <= c < conn_map.cells() && #[trigger] conn_map.named(c) implies conn_map.area_of(c).spec_side()
            == sm0.side_state(c as nat) by {
            assert(conn_map.area_of(c) == cm_s.area_of(c));
            assert(cm_s.named(c));
        }
        lemma_graph_cells_same(cm_s, *conn_map, Side::Out, n as int);
        lemma_graph_cells_same(cm_s, *conn_map, Side::In, n as int);
        let (p1, g1) = choose|pts: Seq<CellId>, g: Seq<Vec<usize>>|
            #[trigger] conn_graph(cm_s, Side::Out, pts, g) && cuts_decided(cm_s, *side_map, Side::Out, pts, g)
                && arts_decided(cm_s, *side_map, Side::In, pts, g)
                && forall|i: int| 0 <= i < pts.len() ==> (#[trigger] pts[i]).spec_id() < n;
        lemma_decided_same_areas(cm_s, *conn_map, *side_map, Side::Out, p1, g1);
        lemma_arts_same_areas(cm_s, *conn_map, *side_map, Side::In, p1, g1);
        let (p2, g2) = choose|pts: Seq<CellId>, g: Seq<Vec<usize>>|
            #[trigger] conn_graph(cm_s, Side::In, pts, g) && cuts_decided(cm_s, *side_map, Side::In, pts, g)
                && arts_decided(cm_s, *side_map, Side::Out, pts, g)
                && forall|i: int| 0 <= i < pts.len() ==> (#[trigger] pts[i]).spec_id() < n;
        lemma_decided_same_areas(cm_s, *conn_map, *side_map, Side::In, p2, g2);
        lemma_arts_same_areas(cm_s, *conn_map, *side_map, Side::Out, p2, g2);
    }
    Ok(())
}
} // verus!
