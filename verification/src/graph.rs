//! The traversal behind reverse-mode autodiff: the nodes a result depends on,
//! in an order where every node comes after the nodes it was computed from.
//!
//! A computation graph is given by index: `parents[i]` lists the nodes that
//! node `i` was computed from. Gradients flow from the output back to the
//! leaves, so the backward pass walks this order in reverse.
use vstd::prelude::*;

verus! {

/// The graph as plain sequences.
pub open spec fn graph_view(g: Seq<Vec<usize>>) -> Seq<Seq<usize>> {
    g.map_values(|p: Vec<usize>| p@)
}

/// Every parent index names a node of the graph.
pub open spec fn well_formed(g: Seq<Seq<usize>>) -> bool {
    forall|i: int, j: int| 0 <= i < g.len() && 0 <= j < g[i].len() ==> g[i][j] < g.len()
}

/// `b` is one of the nodes `a` was computed from.
pub open spec fn edge(g: Seq<Seq<usize>>, a: int, b: int) -> bool {
    0 <= a < g.len() && exists|j: int| 0 <= j < g[a].len() && g[a][j] == b
}

/// A walk along parent links.
pub open spec fn is_path(g: Seq<Seq<usize>>, p: Seq<int>) -> bool {
    &&& p.len() >= 1
    &&& forall|k: int| 0 <= k < p.len() - 1 ==> edge(g, #[trigger] p[k], p[k + 1])
}

/// `b` is `a` itself or something `a` depends on, directly or not.
pub open spec fn reach(g: Seq<Seq<usize>>, a: int, b: int) -> bool {
    exists|p: Seq<int>| #[trigger] is_path(g, p) && p[0] == a && p.last() == b
}

/// No node depends on itself: no parent link closes a walk.
pub open spec fn acyclic(g: Seq<Seq<usize>>) -> bool {
    forall|a: int, b: int| #![trigger reach(g, a, b), edge(g, b, a)] !(reach(g, a, b) && edge(g, b, a))
}

pub proof fn lemma_reach_refl(g: Seq<Seq<usize>>, a: int)
    ensures
        reach(g, a, a),
{
    assert(is_path(g, seq![a]));
}

pub proof fn lemma_reach_step(g: Seq<Seq<usize>>, a: int, b: int, c: int)
    requires
        reach(g, a, b),
        edge(g, b, c),
    ensures
        reach(g, a, c),
{
    let p = choose|p: Seq<int>| #[trigger] is_path(g, p) && p[0] == a && p.last() == b;
    let q = p.push(c);
    assert forall|k: int| 0 <= k < q.len() - 1 implies edge(g, #[trigger] q[k], q[k + 1]) by {
        if k < p.len() - 1 {
            assert(q[k] == p[k] && q[k + 1] == p[k + 1]);
        } else {
            assert(q[k] == b && q[k + 1] == c);
        }
    }
    assert(is_path(g, q));
}

/// Every parent of a member of `s` is a member of `s`.
pub open spec fn closed_under_parents(g: Seq<Seq<usize>>, s: Seq<usize>) -> bool {
    forall|x: int, y: int|
        #![trigger s.contains(x as usize), edge(g, x, y)]
        0 <= x && s.contains(x as usize) && edge(g, x, y) ==> 0 <= y && s.contains(y as usize)
}

proof fn lemma_closed_holds_path(g: Seq<Seq<usize>>, s: Seq<usize>, p: Seq<int>, k: int)
    requires
        is_path(g, p),
        0 <= k < p.len(),
        0 <= p[0] && s.contains(p[0] as usize),
        closed_under_parents(g, s),
    ensures
        0 <= p[k] && s.contains(p[k] as usize),
    decreases k,
{
    if k > 0 {
        lemma_closed_holds_path(g, s, p, k - 1);
        assert(edge(g, p[k - 1], p[k]));
    }
}

/// A set that holds `a` and is closed under parents holds all that `a`
/// depends on.
proof fn lemma_closed_holds_reach(g: Seq<Seq<usize>>, s: Seq<usize>, a: int, b: int)
    requires
        0 <= a && s.contains(a as usize),
        closed_under_parents(g, s),
        reach(g, a, b),
    ensures
        0 <= b && s.contains(b as usize),
{
    let p = choose|p: Seq<int>| #[trigger] is_path(g, p) && p[0] == a && p.last() == b;
    lemma_closed_holds_path(g, s, p, p.len() - 1);
}

/// The number of nodes not visited yet.
pub open spec fn unvisited(vis: Seq<bool>) -> nat
    decreases vis.len(),
{
    if vis.len() == 0 {
        0
    } else {
        unvisited(vis.drop_last()) + (if vis.last() {
            0nat
        } else {
            1nat
        })
    }
}

proof fn lemma_unvisited_mono(a: Seq<bool>, b: Seq<bool>)
    requires
        a.len() == b.len(),
        forall|i: int| 0 <= i < a.len() && a[i] ==> b[i],
    ensures
        unvisited(b) <= unvisited(a),
    decreases a.len(),
{
    if a.len() > 0 {
        lemma_unvisited_mono(a.drop_last(), b.drop_last());
    }
}

proof fn lemma_unvisited_mark(a: Seq<bool>, i: int)
    requires
        0 <= i < a.len(),
        !a[i],
    ensures
        unvisited(a.update(i, true)) + 1 == unvisited(a),
    decreases a.len(),
{
    if i < a.len() - 1 {
        assert(a.update(i, true).drop_last() =~= a.drop_last().update(i, true));
        lemma_unvisited_mark(a.drop_last(), i);
    } else {
        assert(a.update(i, true).drop_last() =~= a.drop_last());
    }
}

/// What holds between visits: finished nodes are visited and listed once,
/// each visited node is reachable from the root, each finished node's
/// parents are visited, and on an acyclic graph they are listed before it.
pub open spec fn traversal_inv(g: Seq<Seq<usize>>, root: int, vis: Seq<bool>, ord: Seq<usize>) -> bool {
    &&& vis.len() == g.len()
    &&& ord.no_duplicates()
    &&& forall|k: int| 0 <= k < ord.len() ==> #[trigger] ord[k] < g.len() && vis[ord[k] as int]
    &&& forall|x: int| 0 <= x < g.len() && #[trigger] vis[x] ==> reach(g, root, x)
    &&& forall|k: int, y: int|
        #![trigger ord[k], edge(g, ord[k] as int, y)]
        0 <= k < ord.len() && edge(g, ord[k] as int, y) ==> vis[y]
    &&& acyclic(g) ==> forall|k: int, y: int|
        #![trigger ord[k], edge(g, ord[k] as int, y)]
        0 <= k < ord.len() && edge(g, ord[k] as int, y) ==> exists|j: int|
            0 <= j < k && #[trigger] ord[j] == y
}

/// A node visited but not finished: one on the current path of the walk.
pub open spec fn in_progress(vis: Seq<bool>, ord: Seq<usize>, x: int) -> bool {
    0 <= x < vis.len() && vis[x] && !ord.contains(x as usize)
}

fn visit(
    g: &[Vec<usize>],
    v: usize,
    visited: &mut Vec<bool>,
    order: &mut Vec<usize>,
    Ghost(root): Ghost<int>,
)
    requires
        well_formed(graph_view(g@)),
        v < g@.len(),
        traversal_inv(graph_view(g@), root, old(visited)@, old(order)@),
        reach(graph_view(g@), root, v as int),
        forall|u: int| #[trigger]
            in_progress(old(visited)@, old(order)@, u) ==> reach(graph_view(g@), u, v as int),
    ensures
        traversal_inv(graph_view(g@), root, final(visited)@, final(order)@),
        final(visited)@[v as int],
        forall|x: int| 0 <= x < old(visited)@.len() && old(visited)@[x] ==> final(visited)@[x],
        final(order)@.len() >= old(order)@.len(),
        final(order)@.subrange(0, old(order)@.len() as int) == old(order)@,
        forall|k: int|
            old(order)@.len() <= k < final(order)@.len() ==> !old(visited)@[
                #[trigger] final(order)@[k] as int
            ],
        forall|x: int| #[trigger]
            in_progress(final(visited)@, final(order)@, x) == in_progress(
                old(visited)@,
                old(order)@,
                x,
            ),
        !old(visited)@[v as int] ==> final(order)@.len() > 0 && final(order)@.last() == v,
        unvisited(final(visited)@) <= unvisited(old(visited)@),
    decreases unvisited(old(visited)@),
{
    let ghost gv = graph_view(g@);
    if visited[v] {
        return;
    }
    let ghost vis0 = visited@;
    let ghost ord0 = order@;
    proof {
        lemma_unvisited_mark(vis0, v as int);
        assert(!ord0.contains(v)) by {
            if ord0.contains(v) {
                let k = choose|k: int| 0 <= k < ord0.len() && ord0[k] == v;
                assert(ord0[k] < gv.len() && vis0[ord0[k] as int]);
            }
        }
    }
    visited.set(v, true);
    proof {
        assert forall|k: int, y: int|
            #![trigger ord0[k], edge(gv, ord0[k] as int, y)]
            0 <= k < ord0.len() && edge(gv, ord0[k] as int, y) implies visited@[y] by {
            assert(vis0[y]);
        }
        lemma_unvisited_mono(vis0, visited@);
    }
    let ps = &g[v as usize];
    assert(gv[v as int] == ps@);
    let mut i: usize = 0;
    while i < ps.len()
        invariant
            gv == graph_view(g@),
            well_formed(gv),
            v < gv.len(),
            ps@ == gv[v as int],
            0 <= i <= ps@.len(),
            traversal_inv(gv, root, visited@, order@),
            reach(gv, root, v as int),
            visited@[v as int],
            !order@.contains(v),
            !vis0[v as int],
            vis0.len() == gv.len(),
            vis0 == old(visited)@,
            forall|x: int| 0 <= x < vis0.len() && vis0[x] ==> visited@[x],
            order@.len() >= ord0.len(),
            order@.subrange(0, ord0.len() as int) == ord0,
            forall|k: int| ord0.len() <= k < order@.len() ==> !vis0[#[trigger] order@[k] as int],
            forall|x: int| #[trigger]
                in_progress(visited@, order@, x) == (in_progress(vis0, ord0, x) || x == v),
            forall|u: int| #[trigger] in_progress(vis0, ord0, u) ==> reach(gv, u, v as int),
            forall|j: int| 0 <= j < i ==> visited@[#[trigger] ps@[j] as int],
            acyclic(gv) ==> forall|j: int| 0 <= j < i ==> order@.contains(#[trigger] ps@[j]),
            unvisited(visited@) < unvisited(vis0),
        decreases ps@.len() - i,
    {
        let p = ps[i];
        let ghost vis1 = visited@;
        let ghost ord1 = order@;
        proof {
            assert(edge(gv, v as int, p as int));
            lemma_reach_step(gv, root, v as int, p as int);
            assert forall|u: int| #[trigger] in_progress(vis1, ord1, u) implies reach(
                gv,
                u,
                p as int,
            ) by {
                if u == v {
                    lemma_reach_refl(gv, u);
                } else {
                    assert(in_progress(vis0, ord0, u));
                }
                lemma_reach_step(gv, u, v as int, p as int);
            }
        }
        visit(g, p, visited, order, Ghost(root));
        proof {
            let vis2 = visited@;
            let ord2 = order@;
            assert(ord2.subrange(0, ord1.len() as int) == ord1);
            assert forall|k: int| ord0.len() <= k < ord2.len() implies !vis0[#[trigger] ord2[k]
                as int] by {
                if k < ord1.len() {
                    assert(ord2[k] == ord1[k]);
                } else {
                    assert(!vis1[ord2[k] as int]);
                }
            }
            assert(ord2.subrange(0, ord0.len() as int) =~= ord0) by {
                assert forall|k: int| 0 <= k < ord0.len() implies ord2[k] == ord0[k] by {
                    assert(ord2[k] == ord1[k]);
                    assert(ord1.subrange(0, ord0.len() as int)[k] == ord0[k]);
                }
            }
            assert(!ord2.contains(v)) by {
                if ord2.contains(v) {
                    let k = choose|k: int| 0 <= k < ord2.len() && ord2[k] == v;
                    if k < ord1.len() {
                        assert(ord2[k] == ord1[k]);
                    } else {
                        assert(!vis1[ord2[k] as int]);
                    }
                }
            }
            assert forall|j: int| 0 <= j < i + 1 implies vis2[#[trigger] ps@[j] as int] by {
                if j < i {
                    assert(vis1[ps@[j] as int]);
                }
            }
            if acyclic(gv) {
                assert forall|j: int| 0 <= j < i + 1 implies ord2.contains(#[trigger] ps@[j]) by {
                    if j < i {
                        assert(ord1.contains(ps@[j]));
                        let k = choose|k: int| 0 <= k < ord1.len() && ord1[k] == ps@[j];
                        assert(ord2[k] == ord1[k]);
                    } else {
                        if !ord2.contains(p) {
                            assert(in_progress(vis2, ord2, p as int));
                            assert(in_progress(vis1, ord1, p as int));
                            if p == v {
                                lemma_reach_refl(gv, v as int);
                            } else {
                                assert(in_progress(vis0, ord0, p as int));
                            }
                            assert(reach(gv, p as int, v as int) && edge(gv, v as int, p as int));
                        }
                    }
                }
            }
            lemma_unvisited_mono(vis1, vis2);
        }
        i = i + 1;
    }
    let ghost ord3 = order@;
    order.push(v);
    proof {
        let ord4 = order@;
        assert(ord4.no_duplicates()) by {
            assert forall|a: int, b: int| 0 <= a < b < ord4.len() implies ord4[a] != ord4[b] by {
                if b == ord3.len() {
                    assert(ord3[a] == ord4[a]);
                    assert(ord3.contains(ord4[a]));
                } else {
                    assert(ord3[a] == ord4[a] && ord3[b] == ord4[b]);
                }
            }
        }
        assert forall|k: int, y: int|
            #![trigger ord4[k], edge(gv, ord4[k] as int, y)]
            0 <= k < ord4.len() && edge(gv, ord4[k] as int, y) implies visited@[y] by {
            if k < ord3.len() {
                assert(ord4[k] == ord3[k]);
            } else {
                let j = choose|j: int| 0 <= j < gv[v as int].len() && gv[v as int][j] == y;
                assert(visited@[ps@[j] as int]);
            }
        }
        if acyclic(gv) {
            assert forall|k: int, y: int|
                #![trigger ord4[k], edge(gv, ord4[k] as int, y)]
                0 <= k < ord4.len() && edge(gv, ord4[k] as int, y) implies exists|j: int|
                0 <= j < k && #[trigger] ord4[j] == y by {
                if k < ord3.len() {
                    assert(ord4[k] == ord3[k]);
                    let j = choose|j: int| 0 <= j < k && #[trigger] ord3[j] == y;
                    assert(ord4[j] == ord3[j]);
                } else {
                    let jj = choose|jj: int| 0 <= jj < gv[v as int].len() && gv[v as int][jj] == y;
                    assert(order@.contains(ps@[jj]) || ord3.contains(ps@[jj]));
                    assert(ord3.contains(ps@[jj]));
                    let j = choose|j: int| 0 <= j < ord3.len() && ord3[j] == ps@[jj];
                    assert(ord4[j] == ord3[j]);
                }
            }
        }
        assert forall|k: int| 0 <= k < ord4.len() implies #[trigger] ord4[k] < gv.len()
            && visited@[ord4[k] as int] by {
            if k < ord3.len() {
                assert(ord4[k] == ord3[k]);
            }
        }
        assert forall|x: int| #[trigger] in_progress(visited@, ord4, x) == in_progress(
            vis0,
            ord0,
            x,
        ) by {
            assert(in_progress(visited@, ord3, x) == (in_progress(vis0, ord0, x) || x == v));
            if 0 <= x < gv.len() {
                assert(ord4.contains(x as usize) == (ord3.contains(x as usize) || x == v)) by {
                    if ord4.contains(x as usize) && x != v {
                        let k = choose|k: int| 0 <= k < ord4.len() && ord4[k] == x as usize;
                        assert(ord4[k] == ord3[k]);
                    }
                    if ord3.contains(x as usize) {
                        let k = choose|k: int| 0 <= k < ord3.len() && ord3[k] == x as usize;
                        assert(ord4[k] == ord3[k]);
                    }
                    if x == v {
                        assert(ord4[ord3.len() as int] == v);
                    }
                }
                if in_progress(vis0, ord0, x) {
                    assert(x != v);
                }
            }
        }
        assert(ord4.subrange(0, ord0.len() as int) =~= ord0) by {
            assert forall|k: int| 0 <= k < ord0.len() implies ord4[k] == ord0[k] by {
                assert(ord4[k] == ord3[k]);
                assert(ord3.subrange(0, ord0.len() as int)[k] == ord0[k]);
            }
        }
        assert forall|k: int| ord0.len() <= k < ord4.len() implies !vis0[#[trigger] ord4[k]
            as int] by {
            if k < ord3.len() {
                assert(ord4[k] == ord3[k]);
            }
        }
        assert(ord4[ord3.len() as int] == v);
    }
}

/// The nodes `root` depends on (itself included), each listed once, `root`
/// last. On an acyclic graph every node is listed after all of its parents,
/// so walking the list backwards visits each node before the nodes it was
/// computed from.
pub fn topo(parents: &[Vec<usize>], root: usize) -> (res: Vec<usize>)
    requires
        root < parents@.len(),
        well_formed(graph_view(parents@)),
    ensures
        res@.no_duplicates(),
        forall|x: int| 0 <= x < parents@.len() ==> (res@.contains(x as usize) <==> reach(graph_view(parents@), root as int, x)),
        forall|k: int| 0 <= k < res@.len() ==> #[trigger] res@[k] < parents@.len(),
        res@.len() > 0 && res@.last() == root,
        acyclic(graph_view(parents@)) ==> forall|k: int, y: int|
            #![trigger res@[k], edge(graph_view(parents@), res@[k] as int, y)]
            0 <= k < res@.len() && edge(graph_view(parents@), res@[k] as int, y) ==> exists|j: int|
                0 <= j < k && #[trigger] res@[j] == y,
{
    let ghost gv = graph_view(parents@);
    let n = parents.len();
    let mut visited: Vec<bool> = Vec::new();
    let mut i: usize = 0;
    while i < n
        invariant
            n == parents@.len(),
            0 <= i <= n,
            visited@.len() == i,
            forall|x: int| 0 <= x < i ==> !visited@[x],
        decreases n - i,
    {
        visited.push(false);
        i = i + 1;
    }
    let mut order: Vec<usize> = Vec::new();
    proof {
        lemma_reach_refl(gv, root as int);
        assert(order@.no_duplicates());
    }
    let ghost vis_init = visited@;
    let ghost ord_init = order@;
    visit(parents, root, &mut visited, &mut order, Ghost(root as int));
    proof {
        let ord = order@;
        assert forall|x: int| 0 <= x < n implies !in_progress(visited@, ord, x) by {
            assert(!in_progress(vis_init, ord_init, x));
        }
        assert forall|x: int| 0 <= x < n implies (ord.contains(x as usize) <==> reach(gv, root as int, x)) by {
            if ord.contains(x as usize) {
                let k = choose|k: int| 0 <= k < ord.len() && ord[k] == x as usize;
                assert(ord[k] < gv.len() && visited@[ord[k] as int]);
            }
            if reach(gv, root as int, x) {
                assert forall|a: int, b: int|
                    #![trigger ord.contains(a as usize), edge(gv, a, b)]
                    0 <= a && ord.contains(a as usize) && edge(gv, a, b) implies 0 <= b
                    && ord.contains(b as usize) by {
                    assert(a < gv.len());
                    let k = choose|k: int| 0 <= k < ord.len() && ord[k] == a as usize;
                    assert(visited@[b]);
                    assert(!in_progress(visited@, ord, b));
                }
                assert(closed_under_parents(gv, ord));
                lemma_closed_holds_reach(gv, ord, root as int, x);
            }
        }
        assert(ord.len() > 0);
    }
    order
}

} // verus!
