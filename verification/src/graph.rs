//! Reachability in the link graph: every document reachable from a start
//! document within a number of hops, with the fewest hops that reach it.
use vstd::prelude::*;
use crate::search::ReachableNode;
use crate::paths::contains_path;

verus! {

pub type Edge = (Seq<char>, Seq<char>);

pub open spec fn edges_view(v: Seq<(String, String)>) -> Seq<Edge> {
    v.map_values(|e: (String, String)| (e.0@, e.1@))
}

/// The documents that the documents of `from` link to.
pub open spec fn succ(edges: Seq<Edge>, from: Set<Seq<char>>) -> Set<Seq<char>> {
    Set::new(|t: Seq<char>| exists|i: int| 0 <= i < edges.len() && from.contains(#[trigger] edges[i].0) && edges[i].1 == t)
}

/// The documents at the end of a walk of exactly `k` links from `start`.
pub open spec fn reach(edges: Seq<Edge>, start: Seq<char>, k: nat) -> Set<Seq<char>>
    decreases k,
{
    if k == 0 {
        Set::empty().insert(start)
    } else {
        succ(edges, reach(edges, start, (k - 1) as nat))
    }
}

/// The documents at the end of a walk of 1 to `k` links from `start`.
pub open spec fn reach_within(edges: Seq<Edge>, start: Seq<char>, k: nat) -> Set<Seq<char>> {
    Set::new(|t: Seq<char>| exists|j: nat| 1 <= j <= k && #[trigger] reach(edges, start, j).contains(t))
}

/// `d` is the fewest links (at least one) that lead from `start` to `t`.
pub open spec fn min_depth(edges: Seq<Edge>, start: Seq<char>, t: Seq<char>, d: nat) -> bool {
    &&& 1 <= d
    &&& reach(edges, start, d).contains(t)
    &&& forall|j: nat| 1 <= j < d ==> !#[trigger] reach(edges, start, j).contains(t)
}

/// How many hops a traversal with `max_depth` goes: `max_depth`, and none
/// when it is below 1.
pub open spec fn hop_limit(max_depth: i64) -> nat {
    if max_depth < 1 {
        0
    } else {
        max_depth as nat
    }
}

pub open spec fn nodes_view(v: Seq<ReachableNode>) -> Seq<(Seq<char>, i64)> {
    v.map_values(|n: ReachableNode| (n.path@, n.depth))
}

pub open spec fn node_paths(v: Seq<ReachableNode>) -> Seq<Seq<char>> {
    v.map_values(|n: ReachableNode| n.path@)
}

/// The frontier reached at depth `d`: the start for depth 0, else the
/// documents whose fewest hops are exactly `d`.
pub open spec fn frontier_set(edges: Seq<Edge>, start: Seq<char>, d: nat) -> Set<Seq<char>> {
    if d == 0 {
        reach(edges, start, 0)
    } else {
        reach(edges, start, d).difference(reach_within(edges, start, (d - 1) as nat))
    }
}

/// The targets of links from `frontier` that are not in `visited`, each once.
fn next_frontier(edges: &Vec<(String, String)>, frontier: &Vec<String>, visited: &Vec<String>) -> (next: Vec<String>)
    ensures
        next.deep_view().no_duplicates(),
        next.deep_view().to_set() == succ(edges_view(edges@), frontier.deep_view().to_set()).difference(
            visited.deep_view().to_set(),
        ),
{
    let ghost ev = edges_view(edges@);
    let ghost fs = frontier.deep_view().to_set();
    let ghost vs = visited.deep_view().to_set();
    let mut next: Vec<String> = Vec::new();
    let mut i: usize = 0;
    while i < edges.len()
        invariant
            i <= edges.len(),
            ev == edges_view(edges@),
            fs == frontier.deep_view().to_set(),
            vs == visited.deep_view().to_set(),
            next.deep_view().no_duplicates(),
            forall|t: Seq<char>| #[trigger] next.deep_view().contains(t) <==> (!vs.contains(t) && exists|j: int|
                0 <= j < i && fs.contains(#[trigger] ev[j].0) && ev[j].1 == t),
        decreases edges.len() - i,
    {
        let from_ok = contains_path(frontier, &edges[i].0);
        let to = &edges[i].1;
        if from_ok && !contains_path(visited, to) && !contains_path(&next, to) {
            let ghost before = next.deep_view();
            next.push(to.clone());
            proof {
                assert(next.deep_view() =~= before.push(to@));
                assert(ev[i as int] == (edges@[i as int].0@, edges@[i as int].1@));
                assert forall|t: Seq<char>| #[trigger] next.deep_view().contains(t) <==> (!vs.contains(t)
                    && exists|j: int| 0 <= j < i + 1 && fs.contains(#[trigger] ev[j].0) && ev[j].1 == t) by {
                    if t == to@ {
                        assert(next.deep_view()[before.len() as int] == t);
                        assert(fs.contains(ev[i as int].0));
                        assert(!vs.contains(t));
                    } else {
                        if !vs.contains(t) && exists|j: int| 0 <= j < i + 1 && fs.contains(#[trigger] ev[j].0) && ev[j].1 == t {
                            let j = choose|j: int| 0 <= j < i + 1 && fs.contains(#[trigger] ev[j].0) && ev[j].1 == t;
                            assert(j != i);
                            assert(before.contains(t));
                        }
                        if next.deep_view().contains(t) {
                            let k = choose|k: int| 0 <= k < next.deep_view().len() && next.deep_view()[k] == t;
                            assert(before[k] == t);
                        }
                        if before.contains(t) {
                            let k = choose|k: int| 0 <= k < before.len() && before[k] == t;
                            assert(next.deep_view()[k] == t);
                        }
                    }
                }
            }
        } else {
            proof {
                assert(ev[i as int] == (edges@[i as int].0@, edges@[i as int].1@));
                assert forall|t: Seq<char>| #[trigger] next.deep_view().contains(t) <==> (!vs.contains(t)
                    && exists|j: int| 0 <= j < i + 1 && fs.contains(#[trigger] ev[j].0) && ev[j].1 == t) by {
                    if exists|j: int| 0 <= j < i + 1 && fs.contains(#[trigger] ev[j].0) && ev[j].1 == t {
                        if !vs.contains(t) {
                            let j = choose|j: int| 0 <= j < i + 1 && fs.contains(#[trigger] ev[j].0) && ev[j].1 == t;
                            if j == i {
                                assert(t == to@);
                            }
                        }
                    }
                }
            }
        }
        i += 1;
    }
    proof {
        let s = succ(ev, fs).difference(vs);
        assert(next.deep_view().to_set() =~= s) by {
            assert forall|t: Seq<char>| next.deep_view().to_set().contains(t) <==> s.contains(t) by {
                if s.contains(t) {
                    let j = choose|j: int| 0 <= j < ev.len() && fs.contains(#[trigger] ev[j].0) && ev[j].1 == t;
                    assert(next.deep_view().contains(t));
                }
            }
        }
    }
    next
}


proof fn lemma_succ_mono(edges: Seq<Edge>, a: Set<Seq<char>>, b: Set<Seq<char>>, t: Seq<char>)
    requires
        a.subset_of(b),
        succ(edges, a).contains(t),
    ensures
        succ(edges, b).contains(t),
{
    let i = choose|i: int| 0 <= i < edges.len() && a.contains(#[trigger] edges[i].0) && edges[i].1 == t;
    assert(b.contains(edges[i].0));
}

/// The frontier one hop further holds what the links of the frontier reach
/// and was not reached before.
proof fn lemma_frontier_step(edges: Seq<Edge>, start: Seq<char>, d: nat)
    ensures
        succ(edges, frontier_set(edges, start, d)).difference(reach_within(edges, start, d))
            == frontier_set(edges, start, d + 1),
{
    let fs = frontier_set(edges, start, d);
    let rw = reach_within(edges, start, d);
    let lhs = succ(edges, fs).difference(rw);
    let rhs = frontier_set(edges, start, d + 1);
    assert(reach(edges, start, d + 1) == succ(edges, reach(edges, start, d)));
    assert(((d + 1) - 1) as nat == d);
    assert forall|t: Seq<char>| lhs.contains(t) <==> rhs.contains(t) by {
        if lhs.contains(t) {
            assert(fs.subset_of(reach(edges, start, d)));
            lemma_succ_mono(edges, fs, reach(edges, start, d), t);
        }
        if rhs.contains(t) {
            let i = choose|i: int| 0 <= i < edges.len() && reach(edges, start, d).contains(#[trigger] edges[i].0)
                && edges[i].1 == t;
            let n = edges[i].0;
            if d > 0 {
                if reach_within(edges, start, (d - 1) as nat).contains(n) {
                    let j = choose|j: nat| 1 <= j <= (d - 1) as nat && #[trigger] reach(edges, start, j).contains(n);
                    assert(reach(edges, start, j + 1) == succ(edges, reach(edges, start, j)));
                    assert(((j + 1) - 1) as nat == j);
                    assert(reach(edges, start, j + 1).contains(t));
                    assert(rw.contains(t));
                }
                assert(fs.contains(n));
            }
            assert(succ(edges, fs).contains(t));
        }
    }
    assert(lhs =~= rhs);
}

/// Going one hop further adds the new frontier to what is reached.
proof fn lemma_within_step(edges: Seq<Edge>, start: Seq<char>, d: nat)
    ensures
        reach_within(edges, start, d + 1) == reach_within(edges, start, d).union(frontier_set(edges, start, d + 1)),
{
    let a = reach_within(edges, start, d + 1);
    let b = reach_within(edges, start, d).union(frontier_set(edges, start, d + 1));
    assert(((d + 1) - 1) as nat == d);
    assert forall|t: Seq<char>| a.contains(t) <==> b.contains(t) by {
        if a.contains(t) {
            let j = choose|j: nat| 1 <= j <= d + 1 && #[trigger] reach(edges, start, j).contains(t);
            if j <= d {
                assert(reach_within(edges, start, d).contains(t));
            }
        }
        if b.contains(t) {
            if reach_within(edges, start, d).contains(t) {
                let j = choose|j: nat| 1 <= j <= d && #[trigger] reach(edges, start, j).contains(t);
                assert(1 <= j <= d + 1);
            } else {
                assert(reach(edges, start, d + 1).contains(t));
            }
        }
    }
    assert(a =~= b);
}

/// When a hop finds nothing new, no longer walk does either.
proof fn lemma_closed(edges: Seq<Edge>, start: Seq<char>, d: nat, k: nat)
    requires
        frontier_set(edges, start, d + 1).is_empty(),
        1 <= k,
    ensures
        reach(edges, start, k).subset_of(reach_within(edges, start, d)),
    decreases k,
{
    let rw = reach_within(edges, start, d);
    assert(((d + 1) - 1) as nat == d);
    if k <= d {
        assert forall|t: Seq<char>| reach(edges, start, k).contains(t) implies rw.contains(t) by {
            assert(1 <= k <= d);
        }
    } else if k == d + 1 {
        assert forall|t: Seq<char>| reach(edges, start, k).contains(t) implies rw.contains(t) by {
            if !rw.contains(t) {
                assert(frontier_set(edges, start, d + 1).contains(t));
            }
        }
    } else {
        lemma_closed(edges, start, d, (k - 1) as nat);
        assert forall|t: Seq<char>| reach(edges, start, k).contains(t) implies rw.contains(t) by {
            assert(reach(edges, start, k) == succ(edges, reach(edges, start, (k - 1) as nat)));
            let i = choose|i: int| 0 <= i < edges.len() && reach(edges, start, (k - 1) as nat).contains(
                #[trigger] edges[i].0,
            ) && edges[i].1 == t;
            let n = edges[i].0;
            assert(rw.contains(n));
            let j = choose|j: nat| 1 <= j <= d && #[trigger] reach(edges, start, j).contains(n);
            assert(reach(edges, start, j + 1) == succ(edges, reach(edges, start, j)));
            assert(((j + 1) - 1) as nat == j);
            assert(reach(edges, start, j + 1).contains(t));
            if j + 1 <= d {
                assert(rw.contains(t));
            } else {
                lemma_closed(edges, start, d, d + 1);
                assert(reach(edges, start, d + 1).contains(t));
            }
        }
    }
}

/// BFS traversal: get all nodes reachable from a starting node up to max_depth hops.
/// Returns nodes with their minimum depth from the start, shallowest first.
/// Nothing lies within a `max_depth` below 1.
pub fn reachable(edges: &Vec<(String, String)>, from_id: &str, max_depth: i64) -> (nodes: Vec<ReachableNode>)
    ensures
        forall|i: int|
            0 <= i < nodes.len() ==> min_depth(edges_view(edges@), from_id@, (#[trigger] nodes@[i]).path@, nodes@[i].depth as nat)
                && 1 <= nodes@[i].depth <= hop_limit(max_depth),
        forall|k: nat, t: Seq<char>|
            1 <= k <= hop_limit(max_depth) && #[trigger] reach(edges_view(edges@), from_id@, k).contains(t)
                ==> node_paths(nodes@).contains(t),
        node_paths(nodes@).no_duplicates(),
        forall|i: int, j: int| 0 <= i < j < nodes.len() ==> #[trigger] nodes@[i].depth <= #[trigger] nodes@[j].depth,
{
    let ghost ev = edges_view(edges@);
    let ghost s = from_id@;
    let start = from_id.to_owned();
    let mut frontier: Vec<String> = Vec::new();
    frontier.push(start);
    let mut visited: Vec<String> = Vec::new();
    let mut nodes: Vec<ReachableNode> = Vec::new();
    let limit: i64 = if max_depth < 1 { 0 } else { max_depth };
    let mut d: i64 = 0;
    proof {
        assert(frontier.deep_view().to_set() =~= frontier_set(ev, s, 0)) by {
            assert(frontier.deep_view()[0] == s);
            assert forall|t: Seq<char>| frontier.deep_view().to_set().contains(t) <==> frontier_set(ev, s, 0).contains(t) by {
                if t == s {
                    assert(frontier.deep_view()[0] == t);
                }
            }
        }
        assert(visited.deep_view().to_set() =~= reach_within(ev, s, 0));
        assert(visited.deep_view() =~= node_paths(nodes@));
    }
    while d < limit
        invariant
            0 <= d <= limit,
            limit == hop_limit(max_depth),
            ev == edges_view(edges@),
            s == from_id@,
            frontier.deep_view().to_set() == frontier_set(ev, s, d as nat),
            visited.deep_view() == node_paths(nodes@),
            visited.deep_view().to_set() == reach_within(ev, s, d as nat),
            visited.deep_view().no_duplicates(),
            forall|i: int|
                0 <= i < nodes.len() ==> min_depth(ev, s, (#[trigger] nodes@[i]).path@, nodes@[i].depth as nat)
                    && 1 <= nodes@[i].depth <= d,
            forall|i: int, j: int| 0 <= i < j < nodes.len() ==> #[trigger] nodes@[i].depth <= #[trigger] nodes@[j].depth,
        decreases limit - d,
    {
        let next = next_frontier(edges, &frontier, &visited);
        proof {
            lemma_frontier_step(ev, s, d as nat);
            lemma_within_step(ev, s, d as nat);
        }
        if next.len() == 0 {
            proof {
                assert(frontier_set(ev, s, (d + 1) as nat) =~= Set::<Seq<char>>::empty()) by {
                    assert forall|t: Seq<char>| !#[trigger] frontier_set(ev, s, (d + 1) as nat).contains(t) by {
                        if next.deep_view().to_set().contains(t) {
                            let k = choose|k: int| 0 <= k < next.deep_view().len() && next.deep_view()[k] == t;
                        }
                    }
                }
                assert forall|k: nat, t: Seq<char>|
                    1 <= k <= hop_limit(max_depth) && #[trigger] reach(ev, s, k).contains(t)
                        implies node_paths(nodes@).contains(t) by {
                    lemma_closed(ev, s, d as nat, k);
                    assert(visited.deep_view().to_set().contains(t));
                }
            }
            return nodes;
        }
        let ghost v0 = visited.deep_view();
        let ghost n0 = nodes@;
        let ghost nv = next.deep_view();
        let mut m: usize = 0;
        while m < next.len()
            invariant
                m <= next.len(),
                d < limit,
                nv == next.deep_view(),
                nv.no_duplicates(),
                nv.to_set() == frontier_set(ev, s, (d + 1) as nat),
                v0.to_set() == reach_within(ev, s, d as nat),
                v0.no_duplicates(),
                visited.deep_view() == v0 + nv.take(m as int),
                visited.deep_view() == node_paths(nodes@),
                nodes.len() == n0.len() + m,
                forall|i: int| 0 <= i < n0.len() ==> nodes@[i] == #[trigger] n0[i],
                forall|i: int| n0.len() <= i < nodes.len() ==> (#[trigger] nodes@[i]).depth == d + 1,
                forall|i: int|
                    0 <= i < n0.len() ==> min_depth(ev, s, (#[trigger] n0[i]).path@, n0[i].depth as nat)
                        && 1 <= n0[i].depth <= d,
                forall|i: int, j: int| 0 <= i < j < n0.len() ==> #[trigger] n0[i].depth <= #[trigger] n0[j].depth,
            decreases next.len() - m,
        {
            let t = &next[m];
            let ghost bv = visited.deep_view();
            let ghost bn = node_paths(nodes@);
            nodes.push(ReachableNode { path: t.clone(), depth: d + 1 });
            visited.push(t.clone());
            m += 1;
            proof {
                assert(nv.take(m as int) =~= nv.take(m - 1).push(t@));
                assert(visited.deep_view() =~= bv.push(t@));
                assert(node_paths(nodes@) =~= bn.push(t@));
            }
        }
        proof {
            assert(nv.take(next.len() as int) =~= nv);
            let vnew = visited.deep_view();
            assert(vnew == v0 + nv);
            // disjointness of the old visited set and the new frontier
            assert forall|a: int, b: int| 0 <= a < b < vnew.len() implies vnew[a] != vnew[b] by {
                if b >= v0.len() && a < v0.len() {
                    assert(nv.to_set().contains(vnew[b])) by {
                        assert(nv[b - v0.len()] == vnew[b]);
                    }
                    assert(v0.to_set().contains(vnew[a])) by {
                        assert(v0[a] == vnew[a]);
                    }
                } else if a >= v0.len() {
                    assert(nv[a - v0.len()] == vnew[a]);
                    assert(nv[b - v0.len()] == vnew[b]);
                } else {
                    assert(v0[a] == vnew[a]);
                    assert(v0[b] == vnew[b]);
                }
            }
            assert(vnew.to_set() =~= reach_within(ev, s, (d + 1) as nat)) by {
                assert forall|t: Seq<char>| vnew.to_set().contains(t) <==> v0.to_set().union(nv.to_set()).contains(t) by {
                    if vnew.to_set().contains(t) {
                        let k = choose|k: int| 0 <= k < vnew.len() && vnew[k] == t;
                        if k < v0.len() {
                            assert(v0[k] == t);
                        } else {
                            assert(nv[k - v0.len()] == t);
                        }
                    }
                    if v0.to_set().contains(t) {
                        let k = choose|k: int| 0 <= k < v0.len() && v0[k] == t;
                        assert(vnew[k] == t);
                    } else if nv.to_set().contains(t) {
                        let k = choose|k: int| 0 <= k < nv.len() && nv[k] == t;
                        assert(vnew[k + v0.len()] == t);
                    }
                }
            }
            assert forall|i: int|
                0 <= i < nodes.len() implies min_depth(ev, s, (#[trigger] nodes@[i]).path@, nodes@[i].depth as nat)
                    && 1 <= nodes@[i].depth <= d + 1 by {
                if i >= n0.len() {
                    let t = nodes@[i].path@;
                    assert(node_paths(nodes@)[i] == t);
                    assert(vnew[i] == t);
                    assert(nv[i - v0.len()] == t);
                    assert(frontier_set(ev, s, (d + 1) as nat).contains(t));
                    assert(((d + 1) - 1) as nat == d as nat);
                    assert forall|j: nat| 1 <= j < (d + 1) as nat implies !#[trigger] reach(ev, s, j).contains(t) by {
                        if reach(ev, s, j).contains(t) {
                            assert(reach_within(ev, s, d as nat).contains(t));
                        }
                    }
                } else {
                    assert(nodes@[i] == n0[i]);
                }
            }
            assert forall|i: int, j: int| 0 <= i < j < nodes.len() implies #[trigger] nodes@[i].depth <= #[trigger] nodes@[j].depth by {
                if j < n0.len() {
                    assert(nodes@[i] == n0[i]);
                    assert(nodes@[j] == n0[j]);
                } else if i < n0.len() {
                    assert(nodes@[i] == n0[i]);
                }
            }
        }
        frontier = next;
        d = d + 1;
    }
    proof {
        assert forall|k: nat, t: Seq<char>|
            1 <= k <= hop_limit(max_depth) && #[trigger] reach(ev, s, k).contains(t)
                implies node_paths(nodes@).contains(t) by {
            assert(reach_within(ev, s, d as nat).contains(t));
            assert(visited.deep_view().to_set().contains(t));
        }
    }
    nodes
}

} // verus!
