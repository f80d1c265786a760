//! The computation graph of automatic differentiation, as an arena of nodes, and the
//! order in which backpropagation visits it.
use vstd::prelude::*;

verus! {

/// A node of the computation graph: the indices of the nodes it was computed from, and
/// whether it takes part in gradient computation (it requires a gradient, or one of its
/// inputs does).
pub struct GraphNode {
    pub inputs: Vec<usize>,
    pub tracks_grad: bool,
}

/// Every input index names a node, and `rank` strictly decreases along every edge
/// (from a node to its inputs): the graph has no cycle.
pub open spec fn ranked(nodes: Seq<GraphNode>, rank: spec_fn(int) -> int) -> bool {
    forall|i: int, q: int|
        #![trigger nodes[i].inputs@[q]]
        0 <= i < nodes.len() && 0 <= q < nodes[i].inputs@.len() ==> {
            &&& nodes[i].inputs@[q] < nodes.len()
            &&& rank(nodes[i].inputs@[q] as int) < rank(i)
        }
}

/// The graph has no cycle and its edges stay inside it.
pub open spec fn acyclic(nodes: Seq<GraphNode>) -> bool {
    exists|rank: spec_fn(int) -> int| ranked(nodes, rank)
}

/// `order` lists distinct tracked nodes, each after every tracked input it has.
pub open spec fn is_topological(nodes: Seq<GraphNode>, order: Seq<usize>) -> bool {
    &&& forall|a: int, b: int| 0 <= a < b < order.len() ==> order[a] != order[b]
    &&& forall|a: int| 0 <= a < order.len() ==> #[trigger] order[a] < nodes.len()
    &&& forall|a: int| 0 <= a < order.len() ==> nodes[#[trigger] order[a] as int].tracks_grad
    &&& forall|a: int, q: int|
        #![trigger nodes[order[a] as int].inputs@[q]]
        0 <= a < order.len() && 0 <= q < nodes[order[a] as int].inputs@.len() && nodes[nodes[order[a] as int].inputs@[q] as int].tracks_grad
            ==> exists|b: int| 0 <= b < a && order[b] == nodes[order[a] as int].inputs@[q]
}

/// Every tracked input of a listed node is listed too.
pub open spec fn closed_under_inputs(nodes: Seq<GraphNode>, order: Seq<usize>) -> bool {
    forall|a: int, q: int|
        #![trigger nodes[order[a] as int].inputs@[q]]
        0 <= a < order.len() && 0 <= q < nodes[order[a] as int].inputs@.len() && nodes[nodes[order[a] as int].inputs@[q] as int].tracks_grad
            ==> order.contains(nodes[order[a] as int].inputs@[q])
}

/// `path` goes from `root` to `x`, each step from a tracked node to one of its inputs.
pub open spec fn path_to(nodes: Seq<GraphNode>, root: int, x: int, path: Seq<usize>) -> bool {
    &&& path.len() >= 1
    &&& path[0] == root
    &&& path.last() == x
    &&& forall|i: int|
        #![trigger path[i]]
        0 <= i < path.len() - 1 ==> {
            &&& path[i] < nodes.len()
            &&& nodes[path[i] as int].tracks_grad
            &&& nodes[path[i] as int].inputs@.contains(path[i + 1])
        }
}

/// `x` is a tracked node that `root` reaches through tracked nodes.
pub open spec fn reached(nodes: Seq<GraphNode>, root: int, x: int) -> bool {
    &&& 0 <= x < nodes.len()
    &&& nodes[x].tracks_grad
    &&& exists|path: Seq<usize>| path_to(nodes, root, x, path)
}

/// `a` is a prefix of `b`.
pub open spec fn is_prefix(a: Seq<usize>, b: Seq<usize>) -> bool {
    &&& a.len() <= b.len()
    &&& forall|i: int| 0 <= i < a.len() ==> #[trigger] b[i] == a[i]
}

/// Number of nodes not visited yet.
pub open spec fn unvisited(v: Seq<bool>) -> nat
    decreases v.len(),
{
    if v.len() == 0 {
        0
    } else {
        unvisited(v.drop_last()) + if v.last() {
            0nat
        } else {
            1nat
        }
    }
}

proof fn lemma_unvisited_mark(v: Seq<bool>, i: int)
    requires
        0 <= i < v.len(),
        !v[i],
    ensures
        unvisited(v.update(i, true)) + 1 == unvisited(v),
    decreases v.len(),
{
    if i < v.len() - 1 {
        lemma_unvisited_mark(v.drop_last(), i);
        assert(v.update(i, true).drop_last() =~= v.drop_last().update(i, true));
    } else {
        assert(v.update(i, true).drop_last() =~= v.drop_last());
    }
}

/// What the search keeps between steps: sorted nodes are distinct, tracked, listed after
/// their tracked inputs, and their inputs are all visited; every visited node is sorted,
/// not tracked, or still being explored (grey).
pub open spec fn search_inv(
    nodes: Seq<GraphNode>,
    sorted: Seq<usize>,
    visited: Seq<bool>,
    grey: Set<int>,
) -> bool {
    &&& visited.len() == nodes.len()
    &&& is_topological(nodes, sorted)
    &&& forall|a: int| 0 <= a < sorted.len() ==> visited[#[trigger] sorted[a] as int]
    &&& forall|a: int| 0 <= a < sorted.len() ==> !grey.contains(#[trigger] sorted[a] as int)
    &&& forall|a: int, q: int|
        #![trigger nodes[sorted[a] as int].inputs@[q]]
        0 <= a < sorted.len() && 0 <= q < nodes[sorted[a] as int].inputs@.len()
            ==> visited[nodes[sorted[a] as int].inputs@[q] as int]
    &&& forall|i: int|
        0 <= i < nodes.len() && #[trigger] visited[i] ==> (!nodes[i].tracks_grad || grey.contains(i)
            || sorted.contains(i as usize))
    &&& forall|i: int| #[trigger] grey.contains(i) ==> 0 <= i < nodes.len() && visited[i]
}

/// Depth-first search from `node`: its tracked inputs first, then the node itself.
fn topo_sort_dfs(
    nodes: &Vec<GraphNode>,
    node: usize,
    sorted: &mut Vec<usize>,
    visited: &mut Vec<bool>,
    Ghost(rank): Ghost<spec_fn(int) -> int>,
    Ghost(grey): Ghost<Set<int>>,
    Ghost(root): Ghost<int>,
)
    requires
        ranked(nodes@, rank),
        node < nodes@.len(),
        exists|path: Seq<usize>| path_to(nodes@, root, node as int, path),
        forall|a: int| 0 <= a < old(sorted)@.len() ==> reached(nodes@, root, #[trigger] old(sorted)@[a] as int),
        search_inv(nodes@, old(sorted)@, old(visited)@, grey),
        forall|g: int| #[trigger] grey.contains(g) ==> rank(g) > rank(node as int),
    ensures
        search_inv(nodes@, final(sorted)@, final(visited)@, grey),
        final(visited)@[node as int],
        nodes@[node as int].tracks_grad ==> final(sorted)@.contains(node),
        nodes@[node as int].tracks_grad && !old(visited)@[node as int] ==> final(sorted)@.len() > 0
            && final(sorted)@.last() == node,
        is_prefix(old(sorted)@, final(sorted)@),
        final(visited)@.len() == old(visited)@.len(),
        forall|i: int| 0 <= i < old(visited)@.len() && old(visited)@[i] ==> #[trigger] final(visited)@[i],
        unvisited(final(visited)@) <= unvisited(old(visited)@),
        forall|a: int| 0 <= a < final(sorted)@.len() ==> reached(nodes@, root, #[trigger] final(sorted)@[a] as int),
    decreases unvisited(old(visited)@),
{
    if visited[node] {
        proof {
            if nodes@[node as int].tracks_grad {
                assert(!grey.contains(node as int));
            }
        }
        return;
    }
    proof {
        lemma_unvisited_mark(visited@, node as int);
    }
    visited.set(node, true);
    if !nodes[node].tracks_grad {
        return;
    }
    let ghost grey2 = grey.insert(node as int);
    let ghost entry = unvisited(old(visited)@);
    let ghost sorted0 = sorted@;
    let n_inputs = nodes[node].inputs.len();
    let mut q: usize = 0;
    while q < n_inputs
        invariant
            ranked(nodes@, rank),
            node < nodes@.len(),
            n_inputs == nodes@[node as int].inputs@.len(),
            q <= n_inputs,
            nodes@[node as int].tracks_grad,
            grey2 == grey.insert(node as int),
            search_inv(nodes@, sorted@, visited@, grey2),
            forall|g: int| #[trigger] grey.contains(g) ==> rank(g) > rank(node as int),
            visited@[node as int],
            unvisited(visited@) < entry,
            entry == unvisited(old(visited)@),
            is_prefix(sorted0, sorted@),
            sorted0 == old(sorted)@,
            visited@.len() == old(visited)@.len(),
            forall|i: int| 0 <= i < old(visited)@.len() && old(visited)@[i] ==> #[trigger] visited@[i],
            forall|r: int| 0 <= r < q ==> #[trigger] visited@[nodes@[node as int].inputs@[r] as int],
            !sorted@.contains(node),
            exists|path: Seq<usize>| path_to(nodes@, root, node as int, path),
            forall|a: int| 0 <= a < sorted@.len() ==> reached(nodes@, root, #[trigger] sorted@[a] as int),
        decreases n_inputs - q,
    {
        let input = nodes[node].inputs[q];
        let ghost before = sorted@;
        proof {
            assert(nodes@[node as int].inputs@[q as int] == input);
            assert(input < nodes@.len());
            assert(rank(input as int) < rank(node as int));
            assert forall|g: int| #[trigger] grey2.contains(g) implies rank(g) > rank(input as int) by {
                if g != node as int {
                    assert(grey.contains(g));
                }
            }
            let path = choose|path: Seq<usize>| path_to(nodes@, root, node as int, path);
            let path2 = path.push(input);
            assert(nodes@[node as int].inputs@.contains(input));
            assert forall|i: int| #![trigger path2[i]] 0 <= i < path2.len() - 1 implies {
                &&& path2[i] < nodes@.len()
                &&& nodes@[path2[i] as int].tracks_grad
                &&& nodes@[path2[i] as int].inputs@.contains(path2[i + 1])
            } by {
                if i < path.len() - 1 {
                    assert(path2[i] == path[i]);
                    assert(path2[i + 1] == path[i + 1]);
                } else {
                    assert(path2[i] == node);
                }
            }
            assert(path_to(nodes@, root, input as int, path2));
        }
        topo_sort_dfs(nodes, input, sorted, visited, Ghost(rank), Ghost(grey2), Ghost(root));
        proof {
            assert(is_prefix(sorted0, sorted@)) by {
                assert(is_prefix(before, sorted@));
                assert forall|i: int| 0 <= i < sorted0.len() implies #[trigger] sorted@[i] == sorted0[i] by {
                    assert(before[i] == sorted0[i]);
                }
            }
            if sorted@.contains(node) {
                let a = choose|a: int| 0 <= a < sorted@.len() && sorted@[a] == node;
                assert(grey2.contains(node as int));
            }
        }
        q += 1;
    }
    let ghost before_push = sorted@;
    sorted.push(node);
    proof {
        let s = sorted@;
        let last = s.len() - 1;
        assert forall|i: int| 0 <= i < sorted0.len() implies #[trigger] s[i] == sorted0[i] by {
            assert(before_push[i] == sorted0[i]);
        }
        assert(forall|a: int| 0 <= a < before_push.len() ==> s[a] == before_push[a]);
        assert forall|a: int, b: int| 0 <= a < b < s.len() implies s[a] != s[b] by {
            if b == last {
                assert(!before_push.contains(node));
                assert(before_push[a] == s[a]);
            }
        }
        assert forall|a: int, r: int|
            #![trigger nodes@[s[a] as int].inputs@[r]]
            0 <= a < s.len() && 0 <= r < nodes@[s[a] as int].inputs@.len()
                && nodes@[nodes@[s[a] as int].inputs@[r] as int].tracks_grad implies exists|b: int|
            0 <= b < a && s[b] == nodes@[s[a] as int].inputs@[r] by {
            if a == last {
                let y = nodes@[node as int].inputs@[r];
                assert(visited@[y as int]);
                assert(rank(y as int) < rank(node as int));
                assert(!grey2.contains(y as int)) by {
                    if grey2.contains(y as int) {
                        if y as int != node as int {
                            assert(grey.contains(y as int));
                        }
                    }
                }
                assert(before_push.contains(y));
                let b = choose|b: int| 0 <= b < before_push.len() && before_push[b] == y;
                assert(s[b] == y);
            } else {
                assert(s[a] == before_push[a]);
                let b = choose|b: int|
                    0 <= b < a && before_push[b] == nodes@[before_push[a] as int].inputs@[r];
                assert(s[b] == before_push[b]);
            }
        }
        assert forall|i: int| 0 <= i < nodes@.len() && #[trigger] visited@[i] implies (
        !nodes@[i].tracks_grad || grey.contains(i) || s.contains(i as usize)) by {
            if i == node as int {
                assert(s[last] == node);
            } else if before_push.contains(i as usize) {
                let b = choose|b: int| 0 <= b < before_push.len() && before_push[b] == i as usize;
                assert(s[b] == i as usize);
            } else if grey2.contains(i) {
                assert(grey.contains(i));
            }
        }
        assert forall|a: int| 0 <= a < s.len() implies !grey.contains(#[trigger] s[a] as int) by {
            if a == last {
                assert(rank(node as int) > rank(node as int) ==> false);
            } else {
                assert(s[a] == before_push[a]);
            }
        }
        assert(s.contains(node)) by {
            assert(s[last] == node);
        }
        assert forall|g: int| #[trigger] grey.contains(g) implies 0 <= g < nodes@.len() && visited@[g] by {
            assert(grey2.contains(g));
        }
    }
}

/// A list closed under tracked inputs and holding a tracked root holds every node that the
/// root reaches through tracked nodes.
proof fn lemma_reached_listed(nodes: Seq<GraphNode>, order: Seq<usize>, root: int, x: int, path: Seq<usize>)
    requires
        closed_under_inputs(nodes, order),
        0 <= root < nodes.len(),
        nodes[root].tracks_grad ==> order.contains(root as usize),
        path_to(nodes, root, x, path),
        0 <= x < nodes.len(),
        nodes[x].tracks_grad,
    ensures
        order.contains(x as usize),
    decreases path.len(),
{
    if path.len() > 1 {
        let m = path.len() - 1;
        let y = path[m - 1] as int;
        let prev = path.drop_last();
        assert(path[m - 1] < nodes.len());
        assert forall|i: int| #![trigger prev[i]] 0 <= i < prev.len() - 1 implies {
            &&& prev[i] < nodes.len()
            &&& nodes[prev[i] as int].tracks_grad
            &&& nodes[prev[i] as int].inputs@.contains(prev[i + 1])
        } by {
            assert(prev[i] == path[i]);
            assert(prev[i + 1] == path[i + 1]);
        }
        lemma_reached_listed(nodes, order, root, y, prev);
        let a = choose|a: int| 0 <= a < order.len() && order[a] == y as usize;
        assert(nodes[y].inputs@.contains(path[m]));
        let q = choose|q: int| 0 <= q < nodes[y].inputs@.len() && nodes[y].inputs@[q] == path[m];
        assert(nodes[order[a] as int].inputs@[q] == path[m]);
    }
}

/// The tracked nodes reachable from `root` through tracked nodes, in an order where
/// every node comes after its tracked inputs (a topological order of that part of the
/// graph): the order in reverse is the order of backpropagation.
pub fn topo_sort(nodes: &Vec<GraphNode>, root: usize) -> (r: Vec<usize>)
    requires
        acyclic(nodes@),
        root < nodes@.len(),
    ensures
        is_topological(nodes@, r@),
        closed_under_inputs(nodes@, r@),
        nodes@[root as int].tracks_grad ==> r@.contains(root),
        nodes@[root as int].tracks_grad ==> r@.len() > 0 && r@.last() == root,
        forall|a: int| 0 <= a < r@.len() ==> reached(nodes@, root as int, #[trigger] r@[a] as int),
        forall|x: int| reached(nodes@, root as int, x) ==> r@.contains(x as usize),
{
    let ghost rank = choose|rank: spec_fn(int) -> int| ranked(nodes@, rank);
    let mut sorted: Vec<usize> = Vec::new();
    let mut visited: Vec<bool> = Vec::new();
    let mut i: usize = 0;
    while i < nodes.len()
        invariant
            i <= nodes@.len(),
            visited@.len() == i,
            forall|j: int| 0 <= j < i ==> !visited@[j],
        decreases nodes@.len() - i,
    {
        visited.push(false);
        i += 1;
    }
    let ghost empty = Set::<int>::empty();
    proof {
        assert(path_to(nodes@, root as int, root as int, seq![root]));
    }
    topo_sort_dfs(nodes, root, &mut sorted, &mut visited, Ghost(rank), Ghost(empty), Ghost(root as int));
    proof {
        let s = sorted@;
        assert forall|a: int, q: int|
            #![trigger nodes@[s[a] as int].inputs@[q]]
            0 <= a < s.len() && 0 <= q < nodes@[s[a] as int].inputs@.len()
                && nodes@[nodes@[s[a] as int].inputs@[q] as int].tracks_grad implies s.contains(
            nodes@[s[a] as int].inputs@[q],
        ) by {
            let b = choose|b: int| 0 <= b < a && s[b] == nodes@[s[a] as int].inputs@[q];
        }
        assert forall|x: int| reached(nodes@, root as int, x) implies s.contains(x as usize) by {
            let path = choose|path: Seq<usize>| path_to(nodes@, root as int, x, path);
            lemma_reached_listed(nodes@, s, root as int, x, path);
        }
    }
    sorted
}

} // verus!
