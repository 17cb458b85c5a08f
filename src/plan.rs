use vstd::prelude::*;

use crate::declaration::{declaration_dependencies, ResourceDeclaration};
use crate::error::ResolutionError;
use crate::graph::{
    build_outcome, depends_on, first_duplicate, first_unknown, is_declared,
    names_unique, references_known, DependencyGraph,
};
use crate::order::{
    construction_order, is_cycle, is_topological_order, topological_order,
};

verus! {

/// Declarations in construction order.
#[derive(Debug)]
pub struct ResolvedPlan {
    pub declarations: Vec<ResourceDeclaration>,
}

/// Each consecutive pair of positions in `p` is a dependency edge of `ds`.
pub open spec fn is_dependency_path(ds: Seq<ResourceDeclaration>, p: Seq<int>) -> bool {
    forall|i: int| 0 <= i < p.len() - 1 ==> depends_on(ds, #[trigger] p[i], p[i + 1])
}

/// `p` is a closed loop of dependency edges of `ds`.
pub open spec fn is_dependency_cycle(ds: Seq<ResourceDeclaration>, p: Seq<int>) -> bool {
    p.len() > 0 && is_dependency_path(ds, p) && depends_on(ds, p.last(), p[0])
}

/// No declaration of `ds` reaches itself through its dependencies.
pub open spec fn dependencies_acyclic(ds: Seq<ResourceDeclaration>) -> bool {
    forall|p: Seq<int>| !#[trigger] is_dependency_cycle(ds, p)
}

/// A declaration named `n` lies on a dependency cycle of `ds`.
pub open spec fn on_dependency_cycle(ds: Seq<ResourceDeclaration>, n: Seq<char>) -> bool {
    exists|p: Seq<int>| #[trigger] is_dependency_cycle(ds, p) && ds[p[0]].name@ == n
}

/// `plan[i]` is `ds[perm[i]]`, and `perm` takes each position of `ds` once.
pub open spec fn reorders(
    plan: Seq<ResourceDeclaration>,
    ds: Seq<ResourceDeclaration>,
    perm: Seq<int>,
) -> bool {
    &&& plan.len() == ds.len()
    &&& perm.len() == ds.len()
    &&& perm.no_duplicates()
    &&& forall|i: int| 0 <= i < perm.len() ==> 0 <= #[trigger] perm[i] < ds.len()
    &&& forall|i: int| 0 <= i < perm.len() ==> plan[i] == ds[#[trigger] perm[i]]
}

/// `plan` holds the declarations of `ds`, each once, in some order.
pub open spec fn is_reordering(plan: Seq<ResourceDeclaration>, ds: Seq<ResourceDeclaration>) -> bool {
    exists|perm: Seq<int>| #[trigger] reorders(plan, ds, perm)
}

/// Every declaration comes after each declaration it references.
pub open spec fn dependency_ordered(plan: Seq<ResourceDeclaration>) -> bool {
    forall|a: int, b: int| #[trigger] depends_on(plan, a, b) ==> b < a
}

/// The position of the declaration named `n`.
pub open spec fn position_of(ds: Seq<ResourceDeclaration>, n: Seq<char>) -> int {
    choose|i: int| 0 <= i < ds.len() && #[trigger] ds[i].name@ == n
}

/// The edge lists of the graph derived from `ds`: for each declaration, the
/// positions of the declarations it references, in field order.
pub open spec fn dependency_adjacency(ds: Seq<ResourceDeclaration>) -> Seq<Seq<usize>> {
    Seq::new(
        ds.len(),
        |u: int|
            Seq::new(
                declaration_dependencies(ds[u]).len(),
                |k: int| position_of(ds, declaration_dependencies(ds[u])[k]) as usize,
            ),
    )
}

/// The declarations of `ds` at the positions listed in `order`.
pub open spec fn arranged(ds: Seq<ResourceDeclaration>, order: Seq<usize>) -> Seq<
    ResourceDeclaration,
> {
    Seq::new(order.len(), |a: int| ds[order[a] as int])
}

/// What `resolve` returns for a declaration sequence: a plan exactly when
/// the names are unique, every reference is declared and there is no
/// cycle; otherwise the first duplicate, the first undeclared reference, or
/// a declaration on a cycle, checked in that order.
pub open spec fn resolve_outcome(
    ds: Seq<ResourceDeclaration>,
    r: Result<ResolvedPlan, ResolutionError>,
) -> bool {
    match r {
        Ok(plan) => {
            &&& names_unique(ds)
            &&& references_known(ds)
            &&& dependencies_acyclic(ds)
            &&& is_reordering(plan.declarations@, ds)
            &&& dependency_ordered(plan.declarations@)
            &&& construction_order(dependency_adjacency(ds)) matches Ok(order)
                && plan.declarations@ == arranged(ds, order)
        },
        Err(ResolutionError::CycleDetected { name }) => {
            &&& names_unique(ds)
            &&& references_known(ds)
            &&& on_dependency_cycle(ds, name@)
            &&& construction_order(dependency_adjacency(ds)) matches Err(c) && 0 <= c < ds.len()
                && name == ds[c as int].name
        },
        Err(e) => build_outcome(ds, Err(e)),
    }
}

/// The edge lists of the graph built from `ds` are the derived ones.
proof fn lemma_graph_adjacency(g: DependencyGraph, ds: Seq<ResourceDeclaration>)
    requires
        g.wf(),
        g.models(ds),
        names_unique(ds),
    ensures
        g.adjacency() == dependency_adjacency(ds),
{
    let adj = dependency_adjacency(ds);
    assert forall|u: int| 0 <= u < ds.len() implies #[trigger] g.adjacency()[u] == adj[u] by {
        let dd = declaration_dependencies(ds[u]);
        assert forall|k: int| 0 <= k < dd.len() implies #[trigger] g.edges@[u]@[k] == adj[u][k] by {
            let w = g.edges@[u]@[k];
            assert(ds[w as int].name@ == dd[k]);
            let i = position_of(ds, dd[k]);
            assert(ds[i].name@ == dd[k]);
            assert(i == w as int);
        }
        assert(g.edges@[u]@ =~= adj[u]);
    }
    assert(g.adjacency() =~= adj);
}

/// In the graph built from `ds`, the edges are exactly the dependencies.
proof fn lemma_graph_edges(g: DependencyGraph, ds: Seq<ResourceDeclaration>)
    requires
        g.wf(),
        g.models(ds),
        names_unique(ds),
    ensures
        forall|u: int, v: int| #[trigger] g.has_edge(u, v) <==> depends_on(ds, u, v),
{
    assert forall|u: int, v: int| #[trigger] g.has_edge(u, v) <==> depends_on(ds, u, v) by {
        if g.has_edge(u, v) {
            let k = choose|k: int| 0 <= k < g.edges@[u]@.len() && #[trigger] g.edges@[u]@[k] as int == v;
            assert(ds[g.edges@[u]@[k] as int].name@ == declaration_dependencies(ds[u])[k]);
            assert(declaration_dependencies(ds[u])[k] == ds[v].name@);
        }
        if depends_on(ds, u, v) {
            let dd = declaration_dependencies(ds[u]);
            let k = choose|k: int| 0 <= k < dd.len() && dd[k] == ds[v].name@;
            let w = g.edges@[u]@[k];
            assert(ds[w as int].name@ == dd[k]);
            assert(w as int == v);
            assert(g.edges@[u]@[k] as int == v);
        }
    }
}

proof fn lemma_cycles_match(g: DependencyGraph, ds: Seq<ResourceDeclaration>, p: Seq<int>)
    requires
        forall|u: int, v: int| #[trigger] g.has_edge(u, v) <==> depends_on(ds, u, v),
    ensures
        is_cycle(g, p) <==> is_dependency_cycle(ds, p),
{
    if is_cycle(g, p) {
        assert forall|i: int| 0 <= i < p.len() - 1 implies depends_on(ds, #[trigger] p[i], p[i + 1]) by {
            assert(g.has_edge(p[i], p[i + 1]));
        }
    }
    if is_dependency_cycle(ds, p) {
        assert forall|i: int| 0 <= i < p.len() - 1 implies g.has_edge(#[trigger] p[i], p[i + 1]) by {
            assert(depends_on(ds, p[i], p[i + 1]));
        }
    }
}

/// Orders `declarations` so that each comes after every declaration it
/// references; rejects a repeated name, an undeclared reference and a cycle.
pub fn resolve(declarations: Vec<ResourceDeclaration>) -> (r: Result<ResolvedPlan, ResolutionError>)
    ensures
        resolve_outcome(declarations@, r),
{
    let ghost ds = declarations@;
    let g = match DependencyGraph::build(&declarations) {
        Ok(g) => g,
        Err(e) => {
            return Err(e);
        },
    };
    proof {
        lemma_graph_edges(g, ds);
        lemma_graph_adjacency(g, ds);
    }
    let n = declarations.len();
    let order = match topological_order(&g) {
        Ok(order) => order,
        Err(c) => {
            proof {
                let p = choose|p: Seq<int>| is_cycle(g, p) && p[0] == c as int;
                lemma_cycles_match(g, ds, p);
            }
            let name = g.names[c].clone();
            assert(name == ds[c as int].name);
            return Err(ResolutionError::CycleDetected { name });
        },
    };
    proof {
        assert forall|p: Seq<int>| !#[trigger] is_dependency_cycle(ds, p) by {
            lemma_cycles_match(g, ds, p);
            assert(!is_cycle(g, p));
        }
    }
    // Move each declaration into the slot of its position, then take the
    // slots out in construction order: declarations are moved, not copied.
    let mut slots: Vec<Option<ResourceDeclaration>> = Vec::new();
    let mut i: usize = 0;
    while i < n
        invariant
            i <= n,
            slots@.len() == i,
        decreases n - i,
    {
        slots.push(None);
        i = i + 1;
    }
    let mut rest = declarations;
    while rest.len() > 0
        invariant
            n == ds.len(),
            rest@.len() <= n,
            rest@ == ds.take(rest@.len() as int),
            slots@.len() == n,
            forall|x: int| rest@.len() <= x < n ==> #[trigger] slots@[x] == Some(ds[x]),
        decreases rest@.len(),
    {
        let ghost before = rest@;
        let d = rest.pop().unwrap();
        let j = rest.len();
        assert(d == ds[j as int]) by {
            assert(before[j as int] == ds.take(before.len() as int)[j as int]);
        }
        assert(rest@ =~= ds.take(j as int));
        slots.set(j, Some(d));
    }
    let mut plan: Vec<ResourceDeclaration> = Vec::new();
    let mut i: usize = 0;
    while i < n
        invariant
            n == ds.len(),
            is_topological_order(g, order@),
            g.names@.len() == n,
            i <= n,
            slots@.len() == n,
            plan@.len() == i,
            forall|a: int| 0 <= a < i ==> plan@[a] == ds[#[trigger] order@[a] as int],
            forall|a: int|
                i <= a < n ==> #[trigger] slots@[order@[a] as int] == Some(ds[order@[a] as int]),
        decreases n - i,
    {
        let x = order[i];
        let d = slots[x].take().unwrap();
        plan.push(d);
        proof {
            assert forall|a: int| i + 1 <= a < n implies #[trigger] slots@[order@[a] as int] == Some(
                ds[order@[a] as int],
            ) by {
                assert(order@[a] != order@[i as int]);
            }
        }
        i = i + 1;
    }
    let ghost perm = order@.map_values(|y: usize| y as int);
    proof {
        assert(reorders(plan@, ds, perm)) by {
            assert forall|a: int, b: int| 0 <= a < b < perm.len() implies perm[a] != perm[b] by {
                assert(order@[a] != order@[b]);
            }
            assert forall|a: int| 0 <= a < perm.len() implies plan@[a] == ds[#[trigger] perm[a]] by {
                assert(plan@[a] == ds[order@[a] as int]);
            }
        }
        assert(plan@ =~= arranged(ds, order@));
        assert forall|a: int, b: int| #[trigger] depends_on(plan@, a, b) implies b < a by {
            assert(plan@[a] == ds[order@[a] as int]);
            assert(plan@[b] == ds[order@[b] as int]);
            assert(depends_on(ds, order@[a] as int, order@[b] as int));
            assert(g.has_edge(order@[a] as int, order@[b] as int));
        }
    }
    Ok(ResolvedPlan { declarations: plan })
}

/// Two declarations that reference each other have no plan: resolution
/// fails with `CycleDetected`.
pub proof fn law_mutual_reference_is_rejected(
    ds: Seq<ResourceDeclaration>,
    r: Result<ResolvedPlan, ResolutionError>,
)
    requires
        resolve_outcome(ds, r),
        ds.len() == 2,
        ds[0].name@ != ds[1].name@,
        references_known(ds),
        declaration_dependencies(ds[0]).contains(ds[1].name@),
        declaration_dependencies(ds[1]).contains(ds[0].name@),
    ensures
        r matches Err(ResolutionError::CycleDetected { .. }),
{
    let p = seq![0int, 1int];
    assert(is_dependency_cycle(ds, p)) by {
        assert(depends_on(ds, p[0], p[1]));
        assert(depends_on(ds, p.last(), p[0]));
    }
    lemma_no_duplicate_of_two(ds);
    lemma_no_unknown_when_known(ds);
}

/// A declaration that references itself has no plan: resolution fails with
/// `CycleDetected`.
pub proof fn law_self_reference_is_rejected(
    ds: Seq<ResourceDeclaration>,
    r: Result<ResolvedPlan, ResolutionError>,
)
    requires
        resolve_outcome(ds, r),
        ds.len() == 1,
        references_known(ds),
        declaration_dependencies(ds[0]).contains(ds[0].name@),
    ensures
        r matches Err(ResolutionError::CycleDetected { .. }),
{
    let p = seq![0int];
    assert(is_dependency_cycle(ds, p)) by {
        assert(depends_on(ds, p.last(), p[0]));
    }
    assert forall|j: int| !first_duplicate(ds, j) by {
        if first_duplicate(ds, j) {
            let i = choose|i: int| 0 <= i < j && #[trigger] ds[i].name@ == ds[j].name@;
        }
    }
    lemma_no_unknown_when_known(ds);
}

/// With unique names, a reference to an undeclared name makes resolution
/// fail with `UnknownResourceReference`.
pub proof fn law_unknown_reference_is_rejected(
    ds: Seq<ResourceDeclaration>,
    r: Result<ResolvedPlan, ResolutionError>,
    u: int,
    k: int,
)
    requires
        resolve_outcome(ds, r),
        names_unique(ds),
        0 <= u < ds.len(),
        0 <= k < declaration_dependencies(ds[u]).len(),
        !is_declared(ds, declaration_dependencies(ds[u])[k]),
    ensures
        r matches Err(ResolutionError::UnknownResourceReference { .. }),
{
    assert(!references_known(ds));
    assert forall|j: int| !first_duplicate(ds, j) by {
        if first_duplicate(ds, j) {
            let i = choose|i: int| 0 <= i < j && #[trigger] ds[i].name@ == ds[j].name@;
        }
    }
}

/// Every declaration, whether or not it has dependencies, appears exactly
/// once in a resolved plan.
pub proof fn law_each_declaration_planned_once(
    ds: Seq<ResourceDeclaration>,
    plan: ResolvedPlan,
    i: int,
)
    requires
        resolve_outcome(ds, Ok(plan)),
        0 <= i < ds.len(),
    ensures
        exists|j: int|
            0 <= j < plan.declarations@.len() && #[trigger] plan.declarations@[j] == ds[i]
                && forall|j2: int|
                0 <= j2 < plan.declarations@.len() && plan.declarations@[j2].name@ == ds[i].name@
                    ==> j2 == j,
{
    let pl = plan.declarations@;
    let perm = choose|perm: Seq<int>| #[trigger] reorders(pl, ds, perm);
    lemma_permutation_covers(perm, ds.len() as int, i);
    let j = choose|j: int| 0 <= j < perm.len() && #[trigger] perm[j] == i;
    assert(pl[j] == ds[i]);
    assert forall|j2: int| 0 <= j2 < pl.len() && pl[j2].name@ == ds[i].name@ implies j2 == j by {
        assert(pl[j2] == ds[perm[j2]]);
        if perm[j2] != i {
            if perm[j2] < i {
                assert(ds[perm[j2]].name@ != ds[i].name@);
            } else {
                assert(ds[i].name@ != ds[perm[j2]].name@);
            }
        }
    }
}

/// A duplicate-free sequence of `n` positions below `n` takes every position.
pub proof fn lemma_permutation_covers(perm: Seq<int>, n: int, i: int)
    requires
        perm.len() == n,
        perm.no_duplicates(),
        forall|a: int| 0 <= a < perm.len() ==> 0 <= #[trigger] perm[a] < n,
        0 <= i < n,
    ensures
        exists|j: int| 0 <= j < perm.len() && #[trigger] perm[j] == i,
{
    if !perm.contains(i) {
        let s = perm.to_set();
        perm.unique_seq_to_set();
        let r = Set::new(|x: int| 0 <= x < n);
        assert(s.subset_of(r.remove(i)));
        assert(r =~= vstd::set_lib::set_int_range(0, n));
        vstd::set_lib::lemma_int_range(0, n);
        vstd::set_lib::lemma_len_subset(s, r.remove(i));
    }
}

proof fn lemma_no_duplicate_of_two(ds: Seq<ResourceDeclaration>)
    requires
        ds.len() == 2,
        ds[0].name@ != ds[1].name@,
    ensures
        names_unique(ds),
        forall|j: int| !#[trigger] first_duplicate(ds, j),
{
    assert forall|j: int| !#[trigger] first_duplicate(ds, j) by {
        if first_duplicate(ds, j) {
            let i = choose|i: int| 0 <= i < j && #[trigger] ds[i].name@ == ds[j].name@;
        }
    }
}

proof fn lemma_no_unknown_when_known(ds: Seq<ResourceDeclaration>)
    requires
        references_known(ds),
    ensures
        forall|u: int, k: int| !#[trigger] first_unknown(ds, u, k),
{
}

/// Resolving the same declaration sequence twice gives the same plan,
/// entry for entry.
pub proof fn law_resolution_deterministic(
    ds: Seq<ResourceDeclaration>,
    first: ResolvedPlan,
    second: ResolvedPlan,
)
    requires
        resolve_outcome(ds, Ok(first)),
        resolve_outcome(ds, Ok(second)),
    ensures
        first.declarations@ == second.declarations@,
{
}

} // verus!
