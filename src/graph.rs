use vstd::prelude::*;

use crate::declaration::{declaration_dependencies, string_views, ResourceDeclaration};
use crate::error::ResolutionError;

verus! {

/// The names of a declaration sequence, in order.
pub open spec fn declaration_names(ds: Seq<ResourceDeclaration>) -> Seq<Seq<char>> {
    ds.map_values(|d: ResourceDeclaration| d.name@)
}

/// No two declarations share a name.
pub open spec fn names_unique(ds: Seq<ResourceDeclaration>) -> bool {
    forall|i: int, j: int|
        0 <= i < j < ds.len() ==> #[trigger] ds[i].name@ != #[trigger] ds[j].name@
}

/// Some declaration has the name `n`.
pub open spec fn is_declared(ds: Seq<ResourceDeclaration>, n: Seq<char>) -> bool {
    exists|i: int| 0 <= i < ds.len() && #[trigger] ds[i].name@ == n
}

/// Every name that a declaration references is declared.
pub open spec fn references_known(ds: Seq<ResourceDeclaration>) -> bool {
    forall|u: int, k: int|
        0 <= u < ds.len() && 0 <= k < declaration_dependencies(ds[u]).len() ==> is_declared(
            ds,
            #[trigger] declaration_dependencies(ds[u])[k],
        )
}

/// Declaration `u` references declaration `v`: the edge `(u, v)` of the
/// derived graph.
pub open spec fn depends_on(ds: Seq<ResourceDeclaration>, u: int, v: int) -> bool {
    0 <= u < ds.len() && 0 <= v < ds.len() && declaration_dependencies(ds[u]).contains(
        ds[v].name@,
    )
}

/// `j` is the first position whose name already occurred before it.
pub open spec fn first_duplicate(ds: Seq<ResourceDeclaration>, j: int) -> bool {
    &&& 0 <= j < ds.len()
    &&& exists|i: int| 0 <= i < j && #[trigger] ds[i].name@ == ds[j].name@
    &&& names_unique(ds.take(j))
}

/// Dependency `k` of declaration `u` is the first undeclared reference, in
/// declaration order and then field order.
pub open spec fn first_unknown(ds: Seq<ResourceDeclaration>, u: int, k: int) -> bool {
    &&& 0 <= u < ds.len()
    &&& 0 <= k < declaration_dependencies(ds[u]).len()
    &&& !is_declared(ds, declaration_dependencies(ds[u])[k])
    &&& forall|u2: int, k2: int|
        0 <= u2 < u && 0 <= k2 < declaration_dependencies(ds[u2]).len() ==> is_declared(
            ds,
            #[trigger] declaration_dependencies(ds[u2])[k2],
        )
    &&& forall|k2: int|
        0 <= k2 < k ==> is_declared(ds, #[trigger] declaration_dependencies(ds[u])[k2])
}

/// What `DependencyGraph::build` returns for a declaration sequence.
pub open spec fn build_outcome(
    ds: Seq<ResourceDeclaration>,
    r: Result<DependencyGraph, ResolutionError>,
) -> bool {
    match r {
        Ok(g) => g.wf() && g.models(ds) && names_unique(ds) && references_known(ds),
        Err(ResolutionError::DuplicateResourceName { name }) => exists|j: int|
            first_duplicate(ds, j) && name == ds[j].name,
        Err(ResolutionError::UnknownResourceReference { name, referenced_by }) => {
            &&& names_unique(ds)
            &&& exists|u: int, k: int|
                first_unknown(ds, u, k) && name@ == declaration_dependencies(ds[u])[k]
                    && referenced_by@ == ds[u].name@
        },
        Err(ResolutionError::CycleDetected { .. }) => false,
    }
}

/// Nodes are declaration positions; `edges[u]` lists, in field order, the
/// positions of the declarations that declaration `u` references.
pub struct DependencyGraph {
    pub names: Vec<String>,
    pub edges: Vec<Vec<usize>>,
}

impl DependencyGraph {
    /// The edge lists as sequences.
    pub open spec fn adjacency(&self) -> Seq<Seq<usize>> {
        self.edges@.map_values(|e: Vec<usize>| e@)
    }

    /// Every edge list belongs to a node and every edge ends at a node.
    pub open spec fn wf(&self) -> bool {
        &&& self.edges@.len() == self.names@.len()
        &&& forall|u: int, k: int|
            0 <= u < self.edges@.len() && 0 <= k < self.edges@[u]@.len() ==> #[trigger] self.edges@[u]@[k]
                < self.names@.len()
    }

    /// There is an edge from `u` to `v`.
    pub open spec fn has_edge(&self, u: int, v: int) -> bool {
        &&& 0 <= u < self.edges@.len()
        &&& 0 <= v < self.names@.len()
        &&& exists|k: int| 0 <= k < self.edges@[u]@.len() && #[trigger] self.edges@[u]@[k] as int == v
    }

    /// This graph is the one derived from `ds`: one node per declaration, one
    /// edge per extracted dependency.
    pub open spec fn models(&self, ds: Seq<ResourceDeclaration>) -> bool {
        &&& string_views(self.names@) == declaration_names(ds)
        &&& forall|i: int| 0 <= i < ds.len() ==> #[trigger] self.names@[i] == ds[i].name
        &&& self.edges@.len() == ds.len()
        &&& forall|u: int|
            0 <= u < ds.len() ==> (#[trigger] self.edges@[u])@.len()
                == declaration_dependencies(ds[u]).len()
        &&& forall|u: int, k: int|
            0 <= u < ds.len() && 0 <= k < self.edges@[u]@.len() ==> ds[#[trigger] self.edges@[u]@[k] as int].name@
                == declaration_dependencies(ds[u])[k]
    }

    /// Some node named `from` has an edge to a node named `to`.
    pub open spec fn references(&self, from: Seq<char>, to: Seq<char>) -> bool {
        exists|u: int, v: int|
            0 <= u < self.names@.len() && #[trigger] self.names@[u]@ == from && self.has_edge(u, v)
                && #[trigger] self.names@[v]@ == to
    }

    /// The names of all nodes.
    pub fn all_names(&self) -> (r: &Vec<String>)
        ensures
            r@ == self.names@,
    {
        &self.names
    }

    /// The names that the node called `name` references, each once.
    pub fn dependencies_of(&self, name: &String) -> (r: Vec<String>)
        requires
            self.wf(),
        ensures
            string_views(r@).no_duplicates(),
            forall|m: Seq<char>| #[trigger] string_views(r@).contains(m) <==> self.references(name@, m),
    {
        let n = self.names.len();
        let mut r: Vec<String> = Vec::new();
        let mut u: usize = 0;
        while u < n
            invariant
                n == self.names@.len(),
                self.wf(),
                u <= n,
                string_views(r@).no_duplicates(),
                forall|m: Seq<char>| #[trigger] string_views(r@).contains(m) ==> self.references(name@, m),
                forall|u2: int, v: int|
                    0 <= u2 < u && self.names@[u2]@ == name@ && #[trigger] self.has_edge(u2, v)
                        ==> string_views(r@).contains(self.names@[v]@),
            decreases n - u,
        {
            if self.names[u] == *name {
                let targets = &self.edges[u];
                let mut k: usize = 0;
                while k < targets.len()
                    invariant
                        n == self.names@.len(),
                        self.wf(),
                        u < n,
                        self.names@[u as int]@ == name@,
                        targets == &self.edges@[u as int],
                        k <= targets@.len(),
                        string_views(r@).no_duplicates(),
                        forall|m: Seq<char>| #[trigger] string_views(r@).contains(m) ==> self.references(name@, m),
                        forall|u2: int, v: int|
                            0 <= u2 < u && self.names@[u2]@ == name@ && #[trigger] self.has_edge(u2, v)
                                ==> string_views(r@).contains(self.names@[v]@),
                        forall|k2: int|
                            0 <= k2 < k ==> string_views(r@).contains(
                                self.names@[#[trigger] targets@[k2] as int]@,
                            ),
                    decreases targets@.len() - k,
                {
                    let w = targets[k];
                    assert(self.has_edge(u as int, w as int)) by {
                        assert(self.edges@[u as int]@[k as int] as int == w as int);
                    }
                    let ghost before = r@;
                    match find_name(&r, &self.names[w]) {
                        Some(i) => {
                            assert(string_views(r@)[i as int] == r@[i as int]@);
                        },
                        None => {
                            r.push(self.names[w].clone());
                            proof {
                                assert(string_views(r@) =~= string_views(before).push(self.names@[w as int]@));
                                assert forall|a: int, b: int|
                                    0 <= a < b < string_views(r@).len() implies string_views(r@)[a]
                                    != string_views(r@)[b] by {
                                    if b == before.len() {
                                        assert(string_views(before)[a] == before[a]@);
                                    } else {
                                        assert(string_views(before)[a] == string_views(r@)[a]);
                                        assert(string_views(before)[b] == string_views(r@)[b]);
                                    }
                                }
                                assert forall|m: Seq<char>| #[trigger] string_views(r@).contains(m)
                                    implies self.references(name@, m) by {
                                    let j = choose|j: int| 0 <= j < string_views(r@).len() && string_views(r@)[j] == m;
                                    if j < before.len() {
                                        assert(string_views(before)[j] == m);
                                        assert(string_views(before).contains(m));
                                    } else {
                                        assert(string_views(r@)[j] == self.names@[w as int]@);
                                        assert(self.names@[u as int]@ == name@);
                                        assert(self.has_edge(u as int, w as int));
                                        assert(self.names@[w as int]@ == m);
                                    }
                                }
                                assert forall|x: Seq<char>| string_views(before).contains(x) implies #[trigger] string_views(r@).contains(x) by {
                                    let j = choose|j: int| 0 <= j < string_views(before).len() && string_views(before)[j] == x;
                                    assert(string_views(r@)[j] == x);
                                }
                                assert(string_views(r@)[before.len() as int] == self.names@[w as int]@);
                            }
                        },
                    }
                    k = k + 1;
                }
                proof {
                    assert forall|u2: int, v: int|
                        0 <= u2 < u + 1 && self.names@[u2]@ == name@ && #[trigger] self.has_edge(u2, v)
                            implies string_views(r@).contains(self.names@[v]@) by {
                        if u2 == u {
                            let k2 = choose|k2: int| 0 <= k2 < self.edges@[u2]@.len() && #[trigger] self.edges@[u2]@[k2] as int == v;
                            assert(targets@[k2] as int == v);
                        }
                    }
                }
            }
            u = u + 1;
        }
        proof {
            assert forall|m: Seq<char>| self.references(name@, m) implies #[trigger] string_views(r@).contains(m) by {
                let (u2, v) = choose|u2: int, v: int|
                    0 <= u2 < self.names@.len() && #[trigger] self.names@[u2]@ == name@ && self.has_edge(u2, v)
                        && #[trigger] self.names@[v]@ == m;
                assert(self.has_edge(u2, v));
            }
        }
        r
    }

    /// Builds the graph of `declarations`, rejecting a repeated name and a
    /// reference to an undeclared name.
    pub fn build(declarations: &Vec<ResourceDeclaration>) -> (r: Result<
        DependencyGraph,
        ResolutionError,
    >)
        ensures
            build_outcome(declarations@, r),
    {
        let ghost ds = declarations@;
        let n = declarations.len();
        let mut names: Vec<String> = Vec::new();
        let mut j: usize = 0;
        while j < n
            invariant
                n == ds.len(),
                ds == declarations@,
                j <= n,
                names@.len() == j,
                forall|i: int| 0 <= i < j ==> #[trigger] names@[i] == ds[i].name,
                names_unique(ds.take(j as int)),
            decreases n - j,
        {
            let mut i: usize = 0;
            while i < j
                invariant
                    n == ds.len(),
                    ds == declarations@,
                    i <= j < n,
                    names@.len() == j,
                    names_unique(ds.take(j as int)),
                    forall|i2: int| 0 <= i2 < j ==> #[trigger] names@[i2] == ds[i2].name,
                    forall|i2: int| 0 <= i2 < i ==> #[trigger] ds[i2].name@ != ds[j as int].name@,
                decreases j - i,
            {
                if names[i] == declarations[j].name {
                    assert(ds[i as int].name@ == ds[j as int].name@);
                    assert(first_duplicate(ds, j as int));
                    return Err(ResolutionError::DuplicateResourceName { name: declarations[j].name.clone() });
                }
                i = i + 1;
            }
            names.push(declarations[j].name.clone());
            assert forall|a: int, b: int|
                0 <= a < b < j + 1 implies #[trigger] ds.take(j + 1)[a].name@
                    != #[trigger] ds.take(j + 1)[b].name@ by {
                if b < j {
                    assert(ds.take(j as int)[a] == ds[a]);
                    assert(ds.take(j as int)[b] == ds[b]);
                }
            }
            j = j + 1;
        }
        assert(ds.take(n as int) =~= ds);
        assert(string_views(names@) =~= declaration_names(ds));
        assert(names@.len() == n);
        let mut edges: Vec<Vec<usize>> = Vec::new();
        let mut u: usize = 0;
        while u < n
            invariant
                n == ds.len(),
                ds == declarations@,
                u <= n,
                names_unique(ds),
                string_views(names@) == declaration_names(ds),
                names@.len() == n,
                forall|i: int| 0 <= i < n ==> #[trigger] names@[i] == ds[i].name,
                edges@.len() == u,
                forall|u2: int, k2: int|
                    0 <= u2 < u && 0 <= k2 < declaration_dependencies(ds[u2]).len()
                        ==> is_declared(ds, #[trigger] declaration_dependencies(ds[u2])[k2]),
                forall|u2: int, k: int|
                    0 <= u2 < u && 0 <= k < edges@[u2]@.len() ==> #[trigger] edges@[u2]@[k] < n,
                forall|u2: int|
                    0 <= u2 < u ==> (#[trigger] edges@[u2])@.len()
                        == declaration_dependencies(ds[u2]).len(),
                forall|u2: int, k: int|
                    0 <= u2 < u && 0 <= k < edges@[u2]@.len() ==> ds[#[trigger] edges@[u2]@[k] as int].name@
                        == declaration_dependencies(ds[u2])[k],
            decreases n - u,
        {
            let deps = declarations[u].get_dependencies();
            let ghost dd = declaration_dependencies(ds[u as int]);
            assert(deps@.len() == dd.len()) by {
                assert(string_views(deps@).len() == deps@.len());
            }
            let mut targets: Vec<usize> = Vec::new();
            let mut k: usize = 0;
            while k < deps.len()
                invariant
                    n == ds.len(),
                    ds == declarations@,
                    u < n,
                    names_unique(ds),
                    string_views(names@) == declaration_names(ds),
                    names@.len() == n,
                    dd == declaration_dependencies(ds[u as int]),
                    string_views(deps@) == dd,
                    k <= deps@.len(),
                    targets@.len() == k,
                    forall|k2: int| 0 <= k2 < k ==> #[trigger] targets@[k2] < n,
                    forall|k2: int|
                        0 <= k2 < k ==> ds[#[trigger] targets@[k2] as int].name@ == dd[k2],
                    forall|u2: int, k2: int|
                        0 <= u2 < u && 0 <= k2 < declaration_dependencies(ds[u2]).len()
                            ==> is_declared(ds, #[trigger] declaration_dependencies(ds[u2])[k2]),
                    forall|k2: int| 0 <= k2 < k ==> is_declared(ds, #[trigger] dd[k2]),
                decreases deps@.len() - k,
            {
                assert(string_views(deps@)[k as int] == deps@[k as int]@);
                match find_name(&names, &deps[k]) {
                    Some(t) => {
                        assert(string_views(names@)[t as int] == names@[t as int]@);
                        assert(declaration_names(ds)[t as int] == ds[t as int].name@);
                        assert(is_declared(ds, dd[k as int]));
                        targets.push(t);
                    },
                    None => {
                        assert(!is_declared(ds, dd[k as int])) by {
                            assert forall|i: int| 0 <= i < ds.len() implies #[trigger] ds[i].name@
                                != dd[k as int] by {
                                assert(string_views(names@)[i] == names@[i]@);
                                assert(declaration_names(ds)[i] == ds[i].name@);
                            }
                        }
                        assert(first_unknown(ds, u as int, k as int));
                        return Err(
                            ResolutionError::UnknownResourceReference {
                                name: deps[k].clone(),
                                referenced_by: declarations[u].name.clone(),
                            },
                        );
                    },
                }
                k = k + 1;
            }
            edges.push(targets);
            proof {
                assert forall|u2: int, k2: int|
                    0 <= u2 < u + 1 && 0 <= k2 < declaration_dependencies(ds[u2]).len()
                        implies is_declared(ds, #[trigger] declaration_dependencies(ds[u2])[k2]) by {
                    if u2 == u {
                        assert(dd[k2] == declaration_dependencies(ds[u2])[k2]);
                    }
                }
            }
            u = u + 1;
        }
        let g = DependencyGraph { names, edges };
        assert(g.wf());
        assert(g.models(ds));
        Ok(g)
    }
}

/// The position of `n` in `names`, if it occurs there.
pub fn find_name(names: &Vec<String>, n: &String) -> (r: Option<usize>)
    ensures
        match r {
            Some(i) => i < names@.len() && names@[i as int]@ == n@,
            None => forall|i: int| 0 <= i < names@.len() ==> (#[trigger] names@[i])@ != n@,
        },
{
    let mut i: usize = 0;
    while i < names.len()
        invariant
            i <= names@.len(),
            forall|i2: int| 0 <= i2 < i ==> (#[trigger] names@[i2])@ != n@,
        decreases names@.len() - i,
    {
        if names[i] == *n {
            return Some(i);
        }
        i = i + 1;
    }
    None
}

} // verus!
