use vstd::prelude::*;

use crate::graph::DependencyGraph;

verus! {

/// Mark of a node that the search has not reached.
pub const UNVISITED: u8 = 0;

/// Mark of a node on the current search path.
pub const IN_PROGRESS: u8 = 1;

/// Mark of a node that has been placed in the order.
pub const DONE: u8 = 2;

/// Consecutive entries of `p` are joined by edges.
pub open spec fn is_path(g: DependencyGraph, p: Seq<int>) -> bool {
    forall|i: int| 0 <= i < p.len() - 1 ==> g.has_edge(#[trigger] p[i], p[i + 1])
}

/// `p` is a closed walk: a path whose last node has an edge back to its first.
pub open spec fn is_cycle(g: DependencyGraph, p: Seq<int>) -> bool {
    p.len() > 0 && is_path(g, p) && g.has_edge(p.last(), p[0])
}

/// Node `v` lies on a cycle.
pub open spec fn on_graph_cycle(g: DependencyGraph, v: int) -> bool {
    exists|p: Seq<int>| is_cycle(g, p) && p[0] == v
}

/// The number of entries of `c` equal to `k`.
pub open spec fn count_mark(c: Seq<u8>, k: u8) -> nat
    decreases c.len(),
{
    if c.len() == 0 {
        0
    } else {
        count_mark(c.drop_last(), k) + if c.last() == k {
            1nat
        } else {
            0nat
        }
    }
}

proof fn lemma_count_update(c: Seq<u8>, i: int, x: u8, k: u8)
    requires
        0 <= i < c.len(),
    ensures
        count_mark(c.update(i, x), k) + (if c[i] == k {
            1int
        } else {
            0int
        }) == count_mark(c, k) + (if x == k {
            1int
        } else {
            0int
        }),
    decreases c.len(),
{
    if i == c.len() - 1 {
        assert(c.update(i, x).drop_last() =~= c.drop_last());
    } else {
        assert(c.update(i, x).drop_last() =~= c.drop_last().update(i, x));
        lemma_count_update(c.drop_last(), i, x, k);
    }
}

proof fn lemma_count_unvisited_shrinks(c1: Seq<u8>, c2: Seq<u8>)
    requires
        c1.len() == c2.len(),
        forall|i: int| 0 <= i < c2.len() && #[trigger] c2[i] == UNVISITED ==> c1[i] == UNVISITED,
    ensures
        count_mark(c2, UNVISITED) <= count_mark(c1, UNVISITED),
    decreases c1.len(),
{
    if c1.len() > 0 {
        lemma_count_unvisited_shrinks(c1.drop_last(), c2.drop_last());
    }
}

proof fn lemma_count_all(c: Seq<u8>, k: u8)
    requires
        forall|i: int| 0 <= i < c.len() ==> #[trigger] c[i] == k,
    ensures
        count_mark(c, k) == c.len(),
    decreases c.len(),
{
    if c.len() > 0 {
        lemma_count_all(c.drop_last(), k);
    }
}

/// The bookkeeping of the search: marks, the order placed so far, and the
/// current path.
pub open spec fn search_state(
    g: DependencyGraph,
    marks: Seq<u8>,
    order: Seq<usize>,
    path: Seq<int>,
) -> bool {
    let n = g.names@.len();
    &&& g.wf()
    &&& marks.len() == n
    &&& forall|x: int| 0 <= x < n ==> #[trigger] marks[x] <= DONE
    &&& order.no_duplicates()
    &&& forall|a: int| 0 <= a < order.len() ==> #[trigger] order[a] < n
    &&& forall|x: int|
        0 <= x < n ==> (#[trigger] marks[x] == DONE <==> order.contains(x as usize))
    &&& order.len() == count_mark(marks, DONE)
    &&& path.no_duplicates()
    &&& forall|i: int| 0 <= i < path.len() ==> 0 <= #[trigger] path[i] < n
    &&& forall|x: int| 0 <= x < n ==> (#[trigger] marks[x] == IN_PROGRESS <==> path.contains(x))
    &&& is_path(g, path)
    &&& forall|a: int, b: int|
        0 <= a < order.len() && 0 <= b < order.len() && g.has_edge(
            #[trigger] order[a] as int,
            #[trigger] order[b] as int,
        ) ==> b < a
    &&& forall|a: int, w: int|
        0 <= a < order.len() && #[trigger] g.has_edge(order[a] as int, w) ==> marks[w] == DONE
}

/// What visiting `v` does: the outcome, the marks and the order after it.
/// `fuel` bounds the depth of the search.
pub open spec fn visit_spec(
    adj: Seq<Seq<usize>>,
    v: usize,
    marks: Seq<u8>,
    order: Seq<usize>,
    fuel: nat,
) -> (Result<(), usize>, Seq<u8>, Seq<usize>)
    decreases fuel, 0int, 0int,
{
    if marks[v as int] == DONE {
        (Ok(()), marks, order)
    } else if marks[v as int] == IN_PROGRESS || fuel == 0 {
        (Err(v), marks, order)
    } else {
        let (r, m, o) = visit_edges_spec(
            adj,
            v,
            0,
            marks.update(v as int, IN_PROGRESS),
            order,
            (fuel - 1) as nat,
        );
        match r {
            Ok(()) => (Ok(()), m.update(v as int, DONE), o.push(v)),
            Err(c) => (Err(c), m, o),
        }
    }
}

/// What visiting the targets of `v`'s edges from the `k`-th on does.
pub open spec fn visit_edges_spec(
    adj: Seq<Seq<usize>>,
    v: usize,
    k: nat,
    marks: Seq<u8>,
    order: Seq<usize>,
    fuel: nat,
) -> (Result<(), usize>, Seq<u8>, Seq<usize>)
    decreases fuel, 1int, adj[v as int].len() - k,
{
    if k >= adj[v as int].len() {
        (Ok(()), marks, order)
    } else {
        let (r, m, o) = visit_spec(adj, adj[v as int][k as int], marks, order, fuel);
        match r {
            Ok(()) => visit_edges_spec(adj, v, k + 1, m, o, fuel),
            Err(c) => (Err(c), m, o),
        }
    }
}

/// Depth-first visit of `v`: places `v` after everything it reaches, or
/// reports a node found on a cycle.
#[verifier::rlimit(100)]
fn visit(
    g: &DependencyGraph,
    v: usize,
    marks: &mut Vec<u8>,
    order: &mut Vec<usize>,
    Ghost(path): Ghost<Seq<int>>,
    Ghost(fuel): Ghost<nat>,
) -> (r: Result<(), usize>)
    requires
        v < g.names@.len(),
        fuel >= count_mark(old(marks)@, UNVISITED),
        search_state(*g, old(marks)@, old(order)@, path),
        path.len() > 0 ==> g.has_edge(path.last(), v as int),
    ensures
        match r {
            Ok(()) => {
                &&& search_state(*g, final(marks)@, final(order)@, path)
                &&& final(marks)@[v as int] == DONE
                &&& forall|x: int|
                    0 <= x < g.names@.len() && #[trigger] old(marks)@[x] == DONE
                        ==> final(marks)@[x] == DONE
                &&& forall|x: int|
                    0 <= x < g.names@.len() && #[trigger] final(marks)@[x] == UNVISITED
                        ==> old(marks)@[x] == UNVISITED
            },
            Err(c) => c < g.names@.len() && on_graph_cycle(*g, c as int),
        },
        visit_spec(g.adjacency(), v, old(marks)@, old(order)@, fuel) == (
            r,
            final(marks)@,
            final(order)@,
        ),
    decreases count_mark(old(marks)@, UNVISITED),
{
    let ghost n = g.names@.len();
    let count = g.names.len();
    assert(n == count);
    if marks[v] == DONE {
        return Ok(());
    }
    if marks[v] == IN_PROGRESS {
        proof {
            let i = choose|i: int| 0 <= i < path.len() && path[i] == v as int;
            let p = path.subrange(i, path.len() as int);
            assert(p[0] == v as int);
            assert(p.last() == path.last());
            assert(is_path(*g, p)) by {
                assert forall|j: int| 0 <= j < p.len() - 1 implies g.has_edge(
                    #[trigger] p[j],
                    p[j + 1],
                ) by {
                    assert(p[j] == path[i + j]);
                    assert(p[j + 1] == path[i + j + 1]);
                }
            }
            assert(is_cycle(*g, p));
        }
        return Err(v);
    }
    let ghost entry = marks@;
    proof {
        lemma_count_update(marks@, v as int, IN_PROGRESS, DONE);
        lemma_count_update(marks@, v as int, IN_PROGRESS, UNVISITED);
    }
    marks.set(v, IN_PROGRESS);
    let ghost inner = path.push(v as int);
    proof {
        assert forall|x: int| 0 <= x < n implies (#[trigger] marks@[x] == IN_PROGRESS
            <==> inner.contains(x)) by {
            if x != v {
                if path.contains(x) {
                    let i = choose|i: int| 0 <= i < path.len() && path[i] == x;
                    assert(inner[i] == x);
                }
                if inner.contains(x) {
                    let i = choose|i: int| 0 <= i < inner.len() && inner[i] == x;
                    assert(path[i] == x);
                }
            } else {
                assert(inner[path.len() as int] == x);
            }
        }
        assert(is_path(*g, inner)) by {
            assert forall|j: int| 0 <= j < inner.len() - 1 implies g.has_edge(
                #[trigger] inner[j],
                inner[j + 1],
            ) by {
                if j < path.len() - 1 {
                    assert(inner[j] == path[j] && inner[j + 1] == path[j + 1]);
                }
            }
        }
        assert forall|a: int, w: int|
            0 <= a < order@.len() && #[trigger] g.has_edge(order@[a] as int, w) implies marks@[w]
            == DONE by {
            assert(entry[w] == DONE);
        }
    }
    let ghost after_mark = marks@;
    let ghost order_at_mark = order@;
    let ghost adj = g.adjacency();
    let ghost inner_fuel = (fuel - 1) as nat;
    let deps = &g.edges[v];
    let mut k: usize = 0;
    while k < deps.len()
        invariant
            n == g.names@.len(),
            v < n,
            deps == &g.edges@[v as int],
            k <= deps@.len(),
            search_state(*g, marks@, order@, inner),
            inner == path.push(v as int),
            marks@[v as int] == IN_PROGRESS,
            entry[v as int] == UNVISITED,
            entry.len() == n,
            entry == old(marks)@,
            forall|k2: int| 0 <= k2 < k ==> marks@[#[trigger] deps@[k2] as int] == DONE,
            forall|x: int|
                0 <= x < n && #[trigger] entry[x] == DONE ==> marks@[x] == DONE,
            forall|x: int|
                0 <= x < n && #[trigger] marks@[x] == UNVISITED ==> entry[x] == UNVISITED,
            count_mark(marks@, UNVISITED) < count_mark(entry, UNVISITED),
            fuel >= count_mark(entry, UNVISITED),
            adj == g.adjacency(),
            adj[v as int] == deps@,
            inner_fuel == fuel - 1,
            fuel > 0,
            after_mark == entry.update(v as int, IN_PROGRESS),
            order_at_mark == old(order)@,
            visit_edges_spec(adj, v, k as nat, marks@, order@, inner_fuel) == visit_edges_spec(
                adj,
                v,
                0,
                after_mark,
                order_at_mark,
                inner_fuel,
            ),
        decreases deps@.len() - k,
    {
        let w = deps[k];
        assert(g.has_edge(v as int, w as int)) by {
            assert(g.edges@[v as int]@[k as int] as int == w as int);
        }
        let ghost before = marks@;
        let ghost order_before = order@;
        match visit(g, w, marks, order, Ghost(inner), Ghost(inner_fuel)) {
            Ok(()) => {},
            Err(c) => {
                proof {
                    assert(adj[v as int][k as int] == w);
                    assert(visit_edges_spec(adj, v, k as nat, before, order_before, inner_fuel) == (
                        Err::<(), usize>(c),
                        marks@,
                        order@,
                    ));
                }
                return Err(c);
            },
        }
        proof {
            lemma_count_unvisited_shrinks(before, marks@);
            assert(marks@[v as int] == IN_PROGRESS) by {
                assert(inner.contains(v as int)) by {
                    assert(inner[path.len() as int] == v as int);
                }
            }
        }
        k = k + 1;
    }
    let ghost old_order = order@;
    let ghost before_done = marks@;
    proof {
        lemma_count_update(marks@, v as int, DONE, DONE);
        assert(!old_order.contains(v)) by {
            assert(marks@[v as int] != DONE);
        }
    }
    marks.set(v, DONE);
    order.push(v);
    proof {
        assert(old_order.push(v) == order@);
        assert forall|x: int| 0 <= x < n implies (#[trigger] marks@[x] == DONE
            <==> order@.contains(x as usize)) by {
            if x != v {
                if old_order.contains(x as usize) {
                    let i = choose|i: int| 0 <= i < old_order.len() && old_order[i] == x as usize;
                    assert(order@[i] == x as usize);
                }
                if order@.contains(x as usize) {
                    let i = choose|i: int| 0 <= i < order@.len() && order@[i] == x as usize;
                    assert(order@[old_order.len() as int] == v);
                    assert(x as usize != v);
                    assert(i < old_order.len());
                    assert(old_order[i] == x as usize);
                }
            } else {
                assert(order@[old_order.len() as int] == v);
            }
        }
        assert forall|x: int| 0 <= x < n implies (#[trigger] marks@[x] == IN_PROGRESS
            <==> path.contains(x)) by {
            if path.contains(x) {
                let i = choose|i: int| 0 <= i < path.len() && path[i] == x;
                assert(inner[i] == x);
            }
            if x != v && inner.contains(x) {
                let i = choose|i: int| 0 <= i < inner.len() && inner[i] == x;
                assert(i < path.len());
                assert(path[i] == x);
            }
            if x == v {
                assert(!path.contains(x)) by {
                    if path.contains(x) {
                        let i = choose|i: int| 0 <= i < path.len() && path[i] == x;
                        assert(inner[i] == x);
                        assert(inner[path.len() as int] == x);
                    }
                }
            }
        }
        assert(is_path(*g, path)) by {
            assert forall|j: int| 0 <= j < path.len() - 1 implies g.has_edge(
                #[trigger] path[j],
                path[j + 1],
            ) by {
                assert(inner[j] == path[j] && inner[j + 1] == path[j + 1]);
            }
        }
        assert forall|w: int| g.has_edge(v as int, w) implies marks@[w] == DONE by {
            let k2 = choose|k2: int| 0 <= k2 < deps@.len() && #[trigger] deps@[k2] as int == w;
            assert(before_done[deps@[k2] as int] == DONE);
        }
        assert forall|a: int, w: int|
            0 <= a < order@.len() && #[trigger] g.has_edge(order@[a] as int, w) implies marks@[w]
            == DONE by {
            if a < old_order.len() {
                assert(order@[a] == old_order[a]);
            }
        }
        assert forall|a: int, b: int|
            0 <= a < order@.len() && 0 <= b < order@.len() && g.has_edge(
                #[trigger] order@[a] as int,
                #[trigger] order@[b] as int,
            ) implies b < a by {
            if b == old_order.len() {
                if a < old_order.len() {
                    assert(order@[a] == old_order[a]);
                    assert(before_done[v as int] == DONE);
                } else {
                    let k2 = choose|k2: int| 0 <= k2 < deps@.len() && #[trigger] deps@[k2] as int == v as int;
                    assert(before_done[deps@[k2] as int] == DONE);
                }
            } else if a < old_order.len() {
                assert(order@[a] == old_order[a]);
                assert(order@[b] == old_order[b]);
            }
        }
    }
    Ok(())
}

/// `order` lists every node once, and each edge goes from a later entry to
/// an earlier one.
pub open spec fn is_topological_order(g: DependencyGraph, order: Seq<usize>) -> bool {
    &&& order.len() == g.names@.len()
    &&& order.no_duplicates()
    &&& forall|a: int| 0 <= a < order.len() ==> #[trigger] order[a] < g.names@.len()
    &&& forall|x: int| 0 <= x < g.names@.len() ==> #[trigger] places(order, x)
    &&& forall|a: int, b: int|
        0 <= a < order.len() && 0 <= b < order.len() && g.has_edge(
            #[trigger] order[a] as int,
            #[trigger] order[b] as int,
        ) ==> b < a
}

/// Node `x` has an entry in `order`.
pub open spec fn places(order: Seq<usize>, x: int) -> bool {
    exists|j: int| 0 <= j < order.len() && #[trigger] order[j] as int == x
}

/// No walk of the graph comes back to where it started.
pub open spec fn graph_acyclic(g: DependencyGraph) -> bool {
    forall|p: Seq<int>| !#[trigger] is_cycle(g, p)
}

/// The position of node `x` in `order`.
pub open spec fn position(order: Seq<usize>, x: int) -> int {
    choose|j: int| 0 <= j < order.len() && order[j] as int == x
}

proof fn lemma_position(g: DependencyGraph, order: Seq<usize>, x: int)
    requires
        is_topological_order(g, order),
        0 <= x < g.names@.len(),
    ensures
        0 <= position(order, x) < order.len(),
        order[position(order, x)] as int == x,
{
    assert(places(order, x));
}

proof fn lemma_walk_descends(g: DependencyGraph, order: Seq<usize>, p: Seq<int>, i: int)
    requires
        g.wf(),
        is_topological_order(g, order),
        is_cycle(g, p),
        0 <= i < p.len(),
    ensures
        position(order, p[i]) <= position(order, p[0]) - i,
    decreases i,
{
    if i > 0 {
        lemma_walk_descends(g, order, p, i - 1);
        assert(g.has_edge(p[i - 1], p[i]));
        lemma_position(g, order, p[i - 1]);
        lemma_position(g, order, p[i]);
        let a = position(order, p[i - 1]);
        let b = position(order, p[i]);
        assert(g.has_edge(order[a] as int, order[b] as int));
    }
}

/// A graph with a topological order has no cycle.
pub proof fn lemma_ordered_graph_acyclic(g: DependencyGraph, order: Seq<usize>)
    requires
        g.wf(),
        is_topological_order(g, order),
    ensures
        graph_acyclic(g),
{
    assert forall|p: Seq<int>| !#[trigger] is_cycle(g, p) by {
        if is_cycle(g, p) {
            let last = p.len() - 1;
            lemma_walk_descends(g, order, p, last);
            assert(g.has_edge(p[last], p[0]));
            lemma_position(g, order, p[last]);
            lemma_position(g, order, p[0]);
            let a = position(order, p[last]);
            let b = position(order, p[0]);
            assert(g.has_edge(order[a] as int, order[b] as int));
        }
    }
}

/// What the top-level loop does from node `u` on: visit every node in node
/// order, or with `roots_only` only the nodes without edges.
pub open spec fn start_spec(
    adj: Seq<Seq<usize>>,
    u: nat,
    marks: Seq<u8>,
    order: Seq<usize>,
    roots_only: bool,
) -> (Result<(), usize>, Seq<u8>, Seq<usize>)
    decreases adj.len() - u,
{
    if u >= adj.len() {
        (Ok(()), marks, order)
    } else if roots_only && adj[u as int].len() != 0 {
        start_spec(adj, u + 1, marks, order, roots_only)
    } else {
        let (r, m, o) = visit_spec(adj, u as usize, marks, order, adj.len());
        match r {
            Ok(()) => start_spec(adj, u + 1, m, o, roots_only),
            Err(c) => (Err(c), m, o),
        }
    }
}

/// The construction order of the graph with edge lists `adj`: a depth-first
/// search started from the nodes without edges, in node order, then from
/// every node, in node order; or the node at which it found a cycle.
pub open spec fn construction_order(adj: Seq<Seq<usize>>) -> Result<Seq<usize>, usize> {
    let unmarked = Seq::new(adj.len(), |i: int| UNVISITED);
    let (r1, m1, o1) = start_spec(adj, 0, unmarked, Seq::empty(), true);
    match r1 {
        Err(c) => Err(c),
        Ok(()) => {
            let (r2, m2, o2) = start_spec(adj, 0, m1, o1, false);
            match r2 {
                Err(c) => Err(c),
                Ok(()) => Ok(o2),
            }
        },
    }
}

proof fn lemma_count_bound(c: Seq<u8>, k: u8)
    ensures
        count_mark(c, k) <= c.len(),
    decreases c.len(),
{
    if c.len() > 0 {
        lemma_count_bound(c.drop_last(), k);
    }
}

/// The construction order of `g`: start from the nodes without edges, in
/// node order, then from every node not yet placed, in node order. Fails
/// with a node on a cycle.
pub fn topological_order(g: &DependencyGraph) -> (r: Result<Vec<usize>, usize>)
    requires
        g.wf(),
    ensures
        match r {
            Ok(order) => {
                &&& is_topological_order(*g, order@)
                &&& graph_acyclic(*g)
                &&& construction_order(g.adjacency()) == Ok::<Seq<usize>, usize>(order@)
            },
            Err(c) => {
                &&& c < g.names@.len()
                &&& on_graph_cycle(*g, c as int)
                &&& construction_order(g.adjacency()) == Err::<Seq<usize>, usize>(c)
            },
        },
{
    let ghost adj = g.adjacency();
    let n = g.names.len();
    let mut marks: Vec<u8> = Vec::new();
    let mut i: usize = 0;
    while i < n
        invariant
            n == g.names@.len(),
            i <= n,
            marks@.len() == i,
            forall|x: int| 0 <= x < i ==> #[trigger] marks@[x] == UNVISITED,
        decreases n - i,
    {
        marks.push(UNVISITED);
        i = i + 1;
    }
    let mut order: Vec<usize> = Vec::new();
    proof {
        lemma_count_all(marks@, UNVISITED);
        assert forall|x: int| 0 <= x < n implies #[trigger] marks@[x] != DONE by {}
        lemma_count_zero(marks@, DONE);
        assert(order@ =~= Seq::<usize>::empty());
        assert(marks@ =~= Seq::new(adj.len(), |i: int| UNVISITED));
    }
    let ghost first = start_spec(adj, 0, marks@, order@, true);
    let mut u: usize = 0;
    while u < n
        invariant
            n == g.names@.len(),
            adj == g.adjacency(),
            adj.len() == n,
            u <= n,
            search_state(*g, marks@, order@, Seq::empty()),
            start_spec(adj, u as nat, marks@, order@, true) == first,
        decreases n - u,
    {
        if g.edges[u].len() == 0 {
            proof {
                lemma_count_bound(marks@, UNVISITED);
            }
            match visit(g, u, &mut marks, &mut order, Ghost(Seq::empty()), Ghost(n as nat)) {
                Ok(()) => {},
                Err(c) => {
                    return Err(c);
                },
            }
        }
        u = u + 1;
    }
    let ghost second = start_spec(adj, 0, marks@, order@, false);
    let ghost outcome = match second.0 {
        Ok(()) => Ok::<Seq<usize>, usize>(second.2),
        Err(c) => Err::<Seq<usize>, usize>(c),
    };
    assert(construction_order(adj) == outcome);
    let mut u: usize = 0;
    while u < n
        invariant
            n == g.names@.len(),
            adj == g.adjacency(),
            adj.len() == n,
            u <= n,
            search_state(*g, marks@, order@, Seq::empty()),
            forall|x: int| 0 <= x < u ==> #[trigger] marks@[x] == DONE,
            start_spec(adj, u as nat, marks@, order@, false) == second,
            construction_order(adj) == outcome,
            outcome == match second.0 {
                Ok(()) => Ok::<Seq<usize>, usize>(second.2),
                Err(c) => Err::<Seq<usize>, usize>(c),
            },
        decreases n - u,
    {
        proof {
            lemma_count_bound(marks@, UNVISITED);
        }
        match visit(g, u, &mut marks, &mut order, Ghost(Seq::empty()), Ghost(n as nat)) {
            Ok(()) => {},
            Err(c) => {
                return Err(c);
            },
        }
        u = u + 1;
    }
    proof {
        lemma_count_all(marks@, DONE);
        assert forall|x: int| 0 <= x < n implies #[trigger] places(order@, x) by {
            assert(marks@[x] == DONE);
            assert(order@.contains(x as usize));
        }
        lemma_ordered_graph_acyclic(*g, order@);
    }
    Ok(order)
}

proof fn lemma_count_zero(c: Seq<u8>, k: u8)
    requires
        forall|i: int| 0 <= i < c.len() ==> #[trigger] c[i] != k,
    ensures
        count_mark(c, k) == 0,
    decreases c.len(),
{
    if c.len() > 0 {
        lemma_count_zero(c.drop_last(), k);
    }
}

} // verus!
