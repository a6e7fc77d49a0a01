use vstd::prelude::*;
use crate::text::{has_duplicates, contains_text, owned_all, strings, texts};
use crate::{ConfigEntry, catalog_model, entry_deps};

verus! {

/// A node as the graph records it: its identifier and the identifiers it
/// depends on, in the order they were declared.
pub type NodeModel = (Seq<char>, Seq<Seq<char>>);

/// Why a graph operation failed.
#[derive(Debug, Clone, Copy, PartialEq, Eq, Structural)]
pub enum GraphError {
    /// The identifier was already inserted.
    DuplicateNode,
    /// The node lists itself among its dependencies.
    SelfDependency,
    /// The dependency list names an identifier twice.
    DuplicateDependency,
    /// Some dependency names an identifier that was never inserted.
    IncompleteGraph,
    /// The queried identifier is not a node of the graph.
    UnknownNode,
}

/// State of a graph that still accepts insertions.
#[derive(Debug)]
pub struct Incomplete;

/// State of a sealed graph, which answers queries.
#[derive(Debug)]
pub struct Complete;

/// A link from a node to one of its dependencies.
#[derive(Debug)]
enum Parent {
    /// Resolved: the index of the dependency's vertex.
    Vertex(usize),
    /// Not inserted yet: the dependency's identifier.
    Outstanding(String),
}

#[derive(Debug)]
struct Vertex {
    /// Identifier of the node
    value: String,
    /// Links to the nodes this one depends on, in declaration order
    parents: Vec<Parent>,
    /// Indices of the vertices that depend on this one
    children: Vec<usize>,
}

/// Directed dependency graph, built in state `Incomplete` and queried in
/// state `Complete`.
#[derive(Debug)]
pub struct Graph<S> {
    vertices: Vec<Vertex>,
    state: S,
}

/// Identifiers of the nodes of a model, in insertion order.
pub open spec fn names_of(m: Seq<NodeModel>) -> Seq<Seq<char>> {
    m.map_values(|n: NodeModel| n.0)
}

/// The invariants that every graph keeps: identifiers are unique, and no
/// node depends on itself or twice on the same node.
pub open spec fn model_ok(m: Seq<NodeModel>) -> bool {
    &&& names_of(m).no_duplicates()
    &&& forall|i: int| 0 <= i < m.len() ==> (#[trigger] m[i]).1.no_duplicates()
    &&& forall|i: int| 0 <= i < m.len() ==> !(#[trigger] m[i]).1.contains(m[i].0)
}

/// Every declared dependency names a node of the graph.
pub open spec fn all_resolved(m: Seq<NodeModel>) -> bool {
    forall|i: int, j: int|
        0 <= i < m.len() && 0 <= j < m[i].1.len() ==> names_of(m).contains(#[trigger] m[i].1[j])
}

/// What inserting `value` with dependencies `deps` into a graph whose nodes
/// are `names` returns.
pub open spec fn insert_outcome(names: Seq<Seq<char>>, value: Seq<char>, deps: Seq<Seq<char>>) -> Result<(), GraphError> {
    if !deps.no_duplicates() {
        Err(GraphError::DuplicateDependency)
    } else if names.contains(value) {
        Err(GraphError::DuplicateNode)
    } else if deps.contains(value) {
        Err(GraphError::SelfDependency)
    } else {
        Ok(())
    }
}

/// Node `i` declares node `k` among its dependencies.
pub open spec fn depends_directly(m: Seq<NodeModel>, i: int, k: int) -> bool {
    0 <= i < m.len() && 0 <= k < m.len() && m[i].1.contains(m[k].0)
}

/// One step of a walk: towards a dependency when `down`, towards a dependent
/// otherwise.
pub open spec fn edge(m: Seq<NodeModel>, down: bool, x: int, y: int) -> bool {
    if down {
        depends_directly(m, x, y)
    } else {
        depends_directly(m, y, x)
    }
}

/// Step `t` of the walk `p`.
pub open spec fn step(m: Seq<NodeModel>, down: bool, p: Seq<int>, t: int) -> bool {
    edge(m, down, p[t], p[t + 1])
}

/// `p` is a walk of at least one step through the graph.
pub open spec fn is_walk(m: Seq<NodeModel>, down: bool, p: Seq<int>) -> bool {
    &&& p.len() >= 2
    &&& forall|t: int| 0 <= t < p.len() - 1 ==> #[trigger] step(m, down, p, t)
}

/// Some walk of at least one step leads from node `a` to node `b`.
pub open spec fn reaches(m: Seq<NodeModel>, down: bool, a: int, b: int) -> bool {
    exists|p: Seq<int>| #[trigger] is_walk(m, down, p) && p[0] == a && p.last() == b
}

/// Identifiers reached from the node named `x` by walks of at least one step.
pub open spec fn closure(m: Seq<NodeModel>, down: bool, x: Seq<char>) -> Set<Seq<char>> {
    Set::new(
        |y: Seq<char>|
            exists|s: int, k: int|
                0 <= s < m.len() && 0 <= k < m.len() && m[s].0 == x && m[k].0 == y
                    && #[trigger] reaches(m, down, s, k),
    )
}

/// Every node that the node named `x` depends on, directly or not.
pub open spec fn dependency_closure(m: Seq<NodeModel>, x: Seq<char>) -> Set<Seq<char>> {
    closure(m, true, x)
}

/// Every node that depends on the node named `x`, directly or not.
pub open spec fn dependent_closure(m: Seq<NodeModel>, x: Seq<char>) -> Set<Seq<char>> {
    closure(m, false, x)
}

impl<S> Graph<S> {
    spec fn name_at(&self, k: int) -> Seq<char> {
        self.vertices@[k].value@
    }

    spec fn parent_name(&self, p: Parent) -> Seq<char> {
        match p {
            Parent::Vertex(k) => self.name_at(k as int),
            Parent::Outstanding(s) => s@,
        }
    }

    spec fn node(&self, i: int) -> NodeModel {
        (self.name_at(i), self.vertices@[i].parents@.map_values(|p: Parent| self.parent_name(p)))
    }

    spec fn has_name(&self, x: Seq<char>) -> bool {
        exists|t: int| 0 <= t < self.vertices@.len() && #[trigger] self.name_at(t) == x
    }

    spec fn parent_at(&self, i: int, j: int) -> Parent {
        self.vertices@[i].parents@[j]
    }

    spec fn links_to(&self, i: int, k: int) -> bool {
        exists|j: int| 0 <= j < self.vertices@[i].parents@.len() && #[trigger] self.parent_at(i, j) == Parent::Vertex(k as usize)
    }

    /// Internal consistency of the vertex arena.
    pub closed spec fn wf(&self) -> bool {
        let n = self.vertices@.len();
        &&& forall|a: int, b: int| 0 <= a < n && 0 <= b < n && a != b ==> self.name_at(a) != self.name_at(b)
        &&& forall|i: int, j: int| 0 <= i < n && 0 <= j < self.vertices@[i].parents@.len() ==>
            match #[trigger] self.parent_at(i, j) {
                Parent::Vertex(k) => k < n,
                Parent::Outstanding(s) => !self.has_name(s@),
            }
        &&& forall|i: int| 0 <= i < n ==> (#[trigger] self.node(i)).1.no_duplicates()
        &&& forall|i: int| 0 <= i < n ==> !(#[trigger] self.node(i)).1.contains(self.name_at(i))
        &&& forall|k: int, c: int| 0 <= k < n && 0 <= c < self.vertices@[k].children@.len() ==>
            (#[trigger] self.vertices@[k].children@[c]) < n
        &&& forall|k: int, i: int| 0 <= k < n && 0 <= i < n ==>
            (self.vertices@[k].children@.contains(i as usize) <==> #[trigger] self.links_to(i, k))
    }

    /// No dependency link is outstanding.
    pub closed spec fn resolved(&self) -> bool {
        forall|i: int, j: int| 0 <= i < self.vertices@.len() && 0 <= j < self.vertices@[i].parents@.len()
            ==> (#[trigger] self.parent_at(i, j)) is Vertex
    }

    /// Index of the vertex named `x`, if any.
    fn position(&self, x: &String) -> (r: Option<usize>)
        requires
            self.wf(),
        ensures
            r matches Some(k) ==> k < self.vertices@.len() && self.name_at(k as int) == x@,
            r is None ==> !self.has_name(x@),
            r is None <==> !names_of(self@).contains(x@),
    {
        proof {
            self.lemma_names();
        }
        let mut t: usize = 0;
        while t < self.vertices.len()
            invariant
                t <= self.vertices@.len(),
                forall|u: int| 0 <= u < t ==> self.name_at(u) != x@,
            decreases self.vertices@.len() - t,
        {
            if self.vertices[t].value == *x {
                proof {
                    assert(names_of(self@)[t as int] == x@);
                }
                return Some(t);
            }
            t = t + 1;
        }
        None
    }

    proof fn lemma_names(&self)
        ensures
            self@.len() == self.vertices@.len(),
            forall|t: int| 0 <= t < self.vertices@.len() ==> #[trigger] names_of(self@)[t] == self.name_at(t),
            forall|t: int| 0 <= t < self.vertices@.len() ==> #[trigger] self@[t] == self.node(t),
            forall|x: Seq<char>| self.has_name(x) <==> #[trigger] names_of(self@).contains(x),
    {
        assert forall|x: Seq<char>| self.has_name(x) <==> #[trigger] names_of(self@).contains(x) by {
            if self.has_name(x) {
                let t = choose|t: int| 0 <= t < self.vertices@.len() && #[trigger] self.name_at(t) == x;
                assert(names_of(self@)[t] == x);
            }
            if names_of(self@).contains(x) {
                let t = choose|t: int| 0 <= t < names_of(self@).len() && names_of(self@)[t] == x;
                assert(self.name_at(t) == x);
            }
        }
    }

    proof fn lemma_model_ok(&self)
        requires
            self.wf(),
        ensures
            model_ok(self@),
    {
        self.lemma_names();
        assert(names_of(self@).no_duplicates()) by {
            assert forall|a: int, b: int| 0 <= a < names_of(self@).len() && 0 <= b < names_of(self@).len() && a != b
                implies names_of(self@)[a] != names_of(self@)[b] by {
                assert(self.name_at(a) != self.name_at(b));
            }
        }
        assert forall|i: int| 0 <= i < self@.len() implies (#[trigger] self@[i]).1.no_duplicates() by {
            assert(self.node(i).1.no_duplicates());
        }
        assert forall|i: int| 0 <= i < self@.len() implies !(#[trigger] self@[i]).1.contains(self@[i].0) by {
            assert(!self.node(i).1.contains(self.name_at(i)));
        }
    }
}

impl<S> View for Graph<S> {
    type V = Seq<NodeModel>;

    closed spec fn view(&self) -> Seq<NodeModel> {
        Seq::new(self.vertices@.len(), |i: int| self.node(i))
    }
}


impl Graph<Incomplete> {
    proof fn lemma_insert_wf(
        &self,
        g0: Self,
        g1: Self,
        g2: Self,
        parents: Seq<Parent>,
        children: Seq<usize>,
        value: Seq<char>,
        deps: Seq<Seq<char>>,
    )
        requires
            g0.wf(),
            !g0.has_name(value),
            deps.no_duplicates(),
            !deps.contains(value),
            parents.len() == deps.len(),
            forall|j: int| 0 <= j < deps.len() ==>
                match #[trigger] parents[j] {
                    Parent::Vertex(k) => k < g0.vertices@.len() && g0.name_at(k as int) == deps[j],
                    Parent::Outstanding(s) => s@ == deps[j] && !g0.has_name(s@),
                },
            g1.vertices@.len() == g0.vertices@.len(),
            forall|t: int| 0 <= t < g0.vertices@.len() ==> {
                &&& (#[trigger] g1.vertices@[t]).value == g0.vertices@[t].value
                &&& g1.vertices@[t].parents == g0.vertices@[t].parents
                &&& g1.vertices@[t].children@ == if points_to(parents, t) {
                    g0.vertices@[t].children@.push(g0.vertices@.len() as usize)
                } else {
                    g0.vertices@[t].children@
                }
            },
            g2.vertices@.len() == g1.vertices@.len(),
            forall|t: int| 0 <= t < g1.vertices@.len() ==> {
                &&& (#[trigger] g2.vertices@[t]).value == g1.vertices@[t].value
                &&& g2.vertices@[t].children == g1.vertices@[t].children
                &&& g2.vertices@[t].parents@.len() == g1.vertices@[t].parents@.len()
            },
            forall|i: int, j: int| 0 <= i < g1.vertices@.len() && 0 <= j < g1.vertices@[i].parents@.len() ==>
                #[trigger] g2.parent_at(i, j) == if g1.parent_at(i, j) matches Parent::Outstanding(s) && s@ == value {
                    Parent::Vertex(g0.vertices@.len() as usize)
                } else {
                    g1.parent_at(i, j)
                },
            forall|c: int| 0 <= c < children.len() ==> (#[trigger] children[c]) < g1.vertices@.len(),
            forall|i: int| 0 <= i < g1.vertices@.len() ==> (children.contains(i as usize) <==> #[trigger] g1.awaits(i, value)),
            self.vertices@.len() == g0.vertices@.len() + 1,
            self.vertices@.len() <= usize::MAX,
            forall|t: int| 0 <= t < g0.vertices@.len() ==> #[trigger] self.vertices@[t] == g2.vertices@[t],
            self.vertices@[g0.vertices@.len() as int].value@ == value,
            self.vertices@[g0.vertices@.len() as int].parents@ == parents,
            self.vertices@[g0.vertices@.len() as int].children@ == children,
        ensures
            self.wf(),
            self@ == g0@.push((value, deps)),
    {
        let n = g0.vertices@.len();
        assert(n < usize::MAX);
        g0.lemma_names();
        self.lemma_names();
        // names
        assert forall|t: int| 0 <= t < n implies #[trigger] self.name_at(t) == g0.name_at(t) by {
            assert(self.vertices@[t] == g2.vertices@[t]);
            assert(g2.vertices@[t].value == g1.vertices@[t].value);
        }
        assert forall|x: Seq<char>| #[trigger] self.has_name(x) <==> (g0.has_name(x) || x == value) by {
            if self.has_name(x) {
                let t = choose|t: int| 0 <= t < self.vertices@.len() && #[trigger] self.name_at(t) == x;
                if t < n {
                    assert(g0.name_at(t) == x);
                }
            }
            if g0.has_name(x) {
                let t = choose|t: int| 0 <= t < g0.vertices@.len() && #[trigger] g0.name_at(t) == x;
                assert(self.name_at(t) == x);
            }
            if x == value {
                assert(self.name_at(n as int) == x);
            }
        }
        // links of the old vertices
        assert forall|i: int, j: int| 0 <= i < n && 0 <= j < self.vertices@[i].parents@.len() implies
            #[trigger] self.parent_at(i, j) == if g0.parent_at(i, j) matches Parent::Outstanding(s) && s@ == value {
                Parent::Vertex(n as usize)
            } else {
                g0.parent_at(i, j)
            } by {
            assert(self.vertices@[i] == g2.vertices@[i]);
            assert(g2.parent_at(i, j) == self.parent_at(i, j));
            assert(g1.parent_at(i, j) == g0.parent_at(i, j));
        }
        assert forall|i: int| 0 <= i < n implies self.vertices@[i].parents@.len() == #[trigger] g0.vertices@[i].parents@.len() by {
            assert(self.vertices@[i] == g2.vertices@[i]);
        }
        assert forall|i: int| 0 <= i < n implies #[trigger] self.node(i) == g0.node(i) by {
            assert(self.vertices@[i] == g2.vertices@[i]);
            let a = self.node(i).1;
            let b = g0.node(i).1;
            assert(a.len() == b.len());
            assert forall|j: int| 0 <= j < a.len() implies a[j] == b[j] by {
                assert(a[j] == self.parent_name(self.parent_at(i, j)));
                assert(b[j] == g0.parent_name(g0.parent_at(i, j)));
                match g0.parent_at(i, j) {
                    Parent::Vertex(k) => {
                        assert(k < n);
                    },
                    Parent::Outstanding(s) => {},
                }
            }
            assert(a =~= b);
        }
        let nn = n as int;
        assert(self.node(nn).1 =~= deps) by {
            assert forall|j: int| 0 <= j < deps.len() implies self.node(nn).1[j] == deps[j] by {
                assert(self.parent_at(nn, j) == parents[j]);
                match parents[j] {
                    Parent::Vertex(k) => {
                        assert(self.name_at(k as int) == g0.name_at(k as int));
                    },
                    Parent::Outstanding(s) => {},
                }
            }
        }
        // the view
        assert(self@ =~= g0@.push((value, deps))) by {
            assert forall|i: int| 0 <= i < self@.len() implies self@[i] == g0@.push((value, deps))[i] by {
                if i < n {
                    assert(self@[i] == self.node(i));
                    assert(g0@[i] == g0.node(i));
                }
            }
        }
        // unique names
        assert forall|a: int, b: int| 0 <= a < n + 1 && 0 <= b < n + 1 && a != b implies self.name_at(a) != self.name_at(b) by {
            if a < n && b < n {
                assert(g0.name_at(a) != g0.name_at(b));
            } else if a < n {
                assert(g0.has_name(g0.name_at(a)));
            } else {
                assert(g0.has_name(g0.name_at(b)));
            }
        }
        // every link is in range or names an absent node
        assert forall|i: int, j: int| 0 <= i < n + 1 && 0 <= j < self.vertices@[i].parents@.len() implies
            match #[trigger] self.parent_at(i, j) {
                Parent::Vertex(k) => k < n + 1,
                Parent::Outstanding(s) => !self.has_name(s@),
            } by {
            if i < n {
                match g0.parent_at(i, j) {
                    Parent::Vertex(k) => {},
                    Parent::Outstanding(s) => {
                        assert(!g0.has_name(s@));
                    },
                }
            } else {
                assert(self.parent_at(i, j) == parents[j]);
                match parents[j] {
                    Parent::Vertex(k) => {},
                    Parent::Outstanding(s) => {
                        assert(deps.contains(deps[j]));
                    },
                }
            }
        }
        assert forall|i: int| 0 <= i < n + 1 implies (#[trigger] self.node(i)).1.no_duplicates() by {
            if i < n {
                assert(g0.node(i).1.no_duplicates());
            }
        }
        assert forall|i: int| 0 <= i < n + 1 implies !(#[trigger] self.node(i)).1.contains(self.name_at(i)) by {
            if i < n {
                assert(!g0.node(i).1.contains(g0.name_at(i)));
            }
        }
        // children
        assert forall|k: int| 0 <= k < n implies #[trigger] self.vertices@[k].children@ == if points_to(parents, k) {
            g0.vertices@[k].children@.push(n as usize)
        } else {
            g0.vertices@[k].children@
        } by {
            assert(self.vertices@[k] == g2.vertices@[k]);
        }
        assert forall|k: int, c: int| 0 <= k < n + 1 && 0 <= c < self.vertices@[k].children@.len() implies
            (#[trigger] self.vertices@[k].children@[c]) < n + 1 by {
            if k < n {
                if c < g0.vertices@[k].children@.len() {
                    assert(g0.vertices@[k].children@[c] < n);
                }
            }
        }
        assert forall|k: int, i: int| 0 <= k < n + 1 && 0 <= i < n + 1 implies
            (self.vertices@[k].children@.contains(i as usize) <==> #[trigger] self.links_to(i, k)) by {
            if k < n && i < n {
                assert(self.links_to(i, k) == g0.links_to(i, k)) by {
                    if self.links_to(i, k) {
                        let j = choose|j: int| 0 <= j < self.vertices@[i].parents@.len()
                            && #[trigger] self.parent_at(i, j) == Parent::Vertex(k as usize);
                        assert(g0.parent_at(i, j) == Parent::Vertex(k as usize));
                    }
                    if g0.links_to(i, k) {
                        let j = choose|j: int| 0 <= j < g0.vertices@[i].parents@.len()
                            && #[trigger] g0.parent_at(i, j) == Parent::Vertex(k as usize);
                        assert(self.parent_at(i, j) == Parent::Vertex(k as usize));
                    }
                }
                let c0 = g0.vertices@[k].children@;
                if c0.contains(i as usize) {
                    let c = choose|c: int| 0 <= c < c0.len() && c0[c] == i as usize;
                    assert(self.vertices@[k].children@[c] == i as usize);
                }
                if self.vertices@[k].children@.contains(i as usize) {
                    let c = choose|c: int| 0 <= c < self.vertices@[k].children@.len() && self.vertices@[k].children@[c] == i as usize;
                    if c < c0.len() {
                        assert(c0[c] == i as usize);
                    }
                }
            } else if k < n {
                // i is the new vertex
                let c0 = g0.vertices@[k].children@;
                assert(self.links_to(i, k) == points_to(parents, k)) by {
                    if self.links_to(i, k) {
                        let j = choose|j: int| 0 <= j < self.vertices@[i].parents@.len()
                            && #[trigger] self.parent_at(i, j) == Parent::Vertex(k as usize);
                        assert(parents[j] == Parent::Vertex(k as usize));
                    }
                    if points_to(parents, k) {
                        let j = choose|j: int| 0 <= j < parents.len() && #[trigger] parents[j] == Parent::Vertex(k as usize);
                        assert(self.parent_at(i, j) == Parent::Vertex(k as usize));
                    }
                }
                if points_to(parents, k) {
                    assert(self.vertices@[k].children@[c0.len() as int] == i as usize);
                }
                if self.vertices@[k].children@.contains(i as usize) {
                    let c = choose|c: int| 0 <= c < self.vertices@[k].children@.len() && self.vertices@[k].children@[c] == i as usize;
                    if c < c0.len() {
                        assert(c0[c] < n);
                    }
                }
            } else if i < n {
                // k is the new vertex
                assert(self.links_to(i, k) == g1.awaits(i, value)) by {
                    if self.links_to(i, k) {
                        let j = choose|j: int| 0 <= j < self.vertices@[i].parents@.len()
                            && #[trigger] self.parent_at(i, j) == Parent::Vertex(k as usize);
                        match g0.parent_at(i, j) {
                            Parent::Vertex(kk) => {
                                assert(kk < n);
                            },
                            Parent::Outstanding(s) => {
                                assert(g1.vertices@[i].parents@[j] == g0.parent_at(i, j));
                            },
                        }
                    }
                    if g1.awaits(i, value) {
                        let j = choose|j: int| 0 <= j < g1.vertices@[i].parents@.len()
                            && (#[trigger] g1.vertices@[i].parents@[j] matches Parent::Outstanding(s) && s@ == value);
                        assert(g1.parent_at(i, j) == g1.vertices@[i].parents@[j]);
                        assert(self.parent_at(i, j) == Parent::Vertex(k as usize));
                    }
                }
            } else {
                if self.links_to(i, k) {
                    let j = choose|j: int| 0 <= j < self.vertices@[i].parents@.len()
                        && #[trigger] self.parent_at(i, j) == Parent::Vertex(k as usize);
                    assert(parents[j] == Parent::Vertex(k as usize));
                }
                if children.contains(i as usize) {
                    let c = choose|c: int| 0 <= c < children.len() && children[c] == i as usize;
                    assert(children[c] < n);
                }
            }
        }
    }
}

/// `ps` holds a resolved link to vertex `k`.
spec fn points_to(ps: Seq<Parent>, k: int) -> bool {
    exists|j: int| 0 <= j < ps.len() && #[trigger] ps[j] == Parent::Vertex(k as usize)
}

/// `v` holds an outstanding link naming `x`.
spec fn waits_for(v: Vertex, x: Seq<char>) -> bool {
    exists|j: int| 0 <= j < v.parents@.len() && (#[trigger] v.parents@[j] matches Parent::Outstanding(s) && s@ == x)
}

impl<S> Graph<S> {
    /// Vertex `i` holds an outstanding link naming `x`.
    spec fn awaits(&self, i: int, x: Seq<char>) -> bool {
        waits_for(self.vertices@[i], x)
    }

    /// Links for the dependencies `deps`: resolved where a vertex of that name
    /// exists, outstanding otherwise.
    fn find_parent_vertices(&self, deps: &Vec<String>) -> (r: Vec<Parent>)
        requires
            self.wf(),
        ensures
            r@.len() == deps@.len(),
            forall|j: int| 0 <= j < deps@.len() ==>
                match #[trigger] r@[j] {
                    Parent::Vertex(k) => k < self.vertices@.len() && self.name_at(k as int) == deps@[j]@,
                    Parent::Outstanding(s) => s@ == deps@[j]@ && !self.has_name(s@),
                },
    {
        let mut r: Vec<Parent> = Vec::new();
        let mut j: usize = 0;
        while j < deps.len()
            invariant
                self.wf(),
                j <= deps@.len(),
                r@.len() == j,
                forall|jj: int| 0 <= jj < j ==>
                    match #[trigger] r@[jj] {
                        Parent::Vertex(k) => k < self.vertices@.len() && self.name_at(k as int) == deps@[jj]@,
                        Parent::Outstanding(s) => s@ == deps@[jj]@ && !self.has_name(s@),
                    },
            decreases deps@.len() - j,
        {
            match self.position(&deps[j]) {
                Some(k) => r.push(Parent::Vertex(k)),
                None => r.push(Parent::Outstanding(deps[j].clone())),
            }
            j = j + 1;
        }
        r
    }

    /// Records vertex `n` as a child of every vertex that `parents` resolves to.
    fn link_children(&mut self, parents: &Vec<Parent>, n: usize)
        requires
            forall|a: int, b: int| 0 <= a < parents@.len() && 0 <= b < parents@.len() && a != b
                && (#[trigger] parents@[a]) is Vertex ==> parents@[a] != #[trigger] parents@[b],
            forall|a: int| 0 <= a < parents@.len() ==>
                ((#[trigger] parents@[a]) matches Parent::Vertex(k) ==> k < old(self).vertices@.len()),
        ensures
            final(self).vertices@.len() == old(self).vertices@.len(),
            forall|t: int| 0 <= t < old(self).vertices@.len() ==> {
                &&& (#[trigger] final(self).vertices@[t]).value == old(self).vertices@[t].value
                &&& final(self).vertices@[t].parents == old(self).vertices@[t].parents
                &&& final(self).vertices@[t].children@ == if points_to(parents@, t) {
                    old(self).vertices@[t].children@.push(n)
                } else {
                    old(self).vertices@[t].children@
                }
            },
    {
        let ghost v0 = self.vertices@;
        assert(self.vertices.len() == v0.len());
        let mut j: usize = 0;
        while j < parents.len()
            invariant
                v0.len() <= usize::MAX,
                forall|a: int, b: int| 0 <= a < parents@.len() && 0 <= b < parents@.len() && a != b
                    && (#[trigger] parents@[a]) is Vertex ==> parents@[a] != #[trigger] parents@[b],
                forall|a: int| 0 <= a < parents@.len() ==>
                    ((#[trigger] parents@[a]) matches Parent::Vertex(k) ==> k < v0.len()),
                j <= parents@.len(),
                self.vertices@.len() == v0.len(),
                forall|t: int| 0 <= t < v0.len() ==> {
                    &&& (#[trigger] self.vertices@[t]).value == v0[t].value
                    &&& self.vertices@[t].parents == v0[t].parents
                    &&& self.vertices@[t].children@ == if points_to(parents@.take(j as int), t) {
                        v0[t].children@.push(n)
                    } else {
                        v0[t].children@
                    }
                },
            decreases parents@.len() - j,
        {
            let ghost before = self.vertices@;
            if let Parent::Vertex(k) = parents[j] {
                let k = k;
                assert(!points_to(parents@.take(j as int), k as int)) by {
                    if points_to(parents@.take(j as int), k as int) {
                        let jj = choose|jj: int| 0 <= jj < parents@.take(j as int).len()
                            && #[trigger] parents@.take(j as int)[jj] == Parent::Vertex(k as usize);
                        assert(parents@[jj] == parents@[j as int]);
                    }
                }
                self.vertices[k].children.push(n);
                assert forall|t: int| 0 <= t < v0.len() implies
                    points_to(parents@.take(j + 1), t) == (points_to(parents@.take(j as int), t) || t == k) by {
                    if points_to(parents@.take(j as int), t) {
                        let jj = choose|jj: int| 0 <= jj < parents@.take(j as int).len()
                            && #[trigger] parents@.take(j as int)[jj] == Parent::Vertex(t as usize);
                        assert(parents@.take(j + 1)[jj] == Parent::Vertex(t as usize));
                    }
                    if t == k {
                        assert(parents@.take(j + 1)[j as int] == Parent::Vertex(t as usize));
                    }
                    if points_to(parents@.take(j + 1), t) {
                        let jj = choose|jj: int| 0 <= jj < parents@.take(j + 1).len()
                            && #[trigger] parents@.take(j + 1)[jj] == Parent::Vertex(t as usize);
                        if jj < j {
                            assert(parents@.take(j as int)[jj] == Parent::Vertex(t as usize));
                        } else {
                            assert(parents@[j as int] == Parent::Vertex(t as usize));
                            assert(t == k);
                        }
                    }
                }
            } else {
                assert forall|t: int| 0 <= t < v0.len() implies
                    points_to(parents@.take(j + 1), t) == points_to(parents@.take(j as int), t) by {
                    if points_to(parents@.take(j as int), t) {
                        let jj = choose|jj: int| 0 <= jj < parents@.take(j as int).len()
                            && #[trigger] parents@.take(j as int)[jj] == Parent::Vertex(t as usize);
                        assert(parents@.take(j + 1)[jj] == Parent::Vertex(t as usize));
                    }
                    if points_to(parents@.take(j + 1), t) {
                        let jj = choose|jj: int| 0 <= jj < parents@.take(j + 1).len()
                            && #[trigger] parents@.take(j + 1)[jj] == Parent::Vertex(t as usize);
                        if jj < j {
                            assert(parents@.take(j as int)[jj] == Parent::Vertex(t as usize));
                        }
                    }
                }
            }
            j = j + 1;
        }
        assert(parents@.take(j as int) =~= parents@);
    }

    /// Resolves every outstanding link naming `x` to vertex `n`, and returns
    /// the vertices whose links changed.
    fn adopt_children(&mut self, x: &String, n: usize) -> (r: Vec<usize>)
        ensures
            final(self).vertices@.len() == old(self).vertices@.len(),
            forall|t: int| 0 <= t < old(self).vertices@.len() ==> {
                &&& (#[trigger] final(self).vertices@[t]).value == old(self).vertices@[t].value
                &&& final(self).vertices@[t].children == old(self).vertices@[t].children
                &&& final(self).vertices@[t].parents@.len() == old(self).vertices@[t].parents@.len()
            },
            forall|i: int, j: int| 0 <= i < old(self).vertices@.len() && 0 <= j < old(self).vertices@[i].parents@.len() ==>
                #[trigger] final(self).parent_at(i, j) == if old(self).parent_at(i, j) matches Parent::Outstanding(s) && s@ == x@ {
                    Parent::Vertex(n)
                } else {
                    old(self).parent_at(i, j)
                },
            forall|c: int| 0 <= c < r@.len() ==> (#[trigger] r@[c]) < old(self).vertices@.len(),
            forall|i: int| 0 <= i < old(self).vertices@.len() ==> (r@.contains(i as usize) <==> #[trigger] old(self).awaits(i, x@)),
    {
        let ghost g0 = self.vertices@;
        let mut r: Vec<usize> = Vec::new();
        let mut i: usize = 0;
        while i < self.vertices.len()
            invariant
                i <= self.vertices@.len(),
                self.vertices@.len() == g0.len(),
                forall|t: int| 0 <= t < g0.len() ==> {
                    &&& (#[trigger] self.vertices@[t]).value == g0[t].value
                    &&& self.vertices@[t].children == g0[t].children
                    &&& self.vertices@[t].parents@.len() == g0[t].parents@.len()
                },
                forall|t: int, j: int| 0 <= t < g0.len() && 0 <= j < g0[t].parents@.len() ==>
                    #[trigger] self.vertices@[t].parents@[j] == if t < i && (g0[t].parents@[j] matches Parent::Outstanding(s) && s@ == x@) {
                        Parent::Vertex(n)
                    } else {
                        g0[t].parents@[j]
                    },
                forall|c: int| 0 <= c < r@.len() ==> (#[trigger] r@[c]) < i,
                forall|t: int| 0 <= t < g0.len() ==> (r@.contains(t as usize) <==> t < i && #[trigger] waits_for(g0[t], x@)),
            decreases g0.len() - i,
        {
            let mut found = false;
            let mut j: usize = 0;
            while j < self.vertices[i].parents.len()
                invariant
                    i < self.vertices@.len(),
                    j <= self.vertices@[i as int].parents@.len(),
                    self.vertices@.len() == g0.len(),
                    forall|t: int| 0 <= t < g0.len() ==> {
                        &&& (#[trigger] self.vertices@[t]).value == g0[t].value
                        &&& self.vertices@[t].children == g0[t].children
                        &&& self.vertices@[t].parents@.len() == g0[t].parents@.len()
                    },
                    forall|t: int, jj: int| 0 <= t < g0.len() && 0 <= jj < g0[t].parents@.len() ==>
                        #[trigger] self.vertices@[t].parents@[jj] == if (t < i || (t == i && jj < j)) && (g0[t].parents@[jj] matches Parent::Outstanding(s) && s@ == x@) {
                            Parent::Vertex(n)
                        } else {
                            g0[t].parents@[jj]
                        },
                    found <==> exists|jj: int| 0 <= jj < j && (#[trigger] g0[i as int].parents@[jj] matches Parent::Outstanding(s) && s@ == x@),
                decreases self.vertices@[i as int].parents@.len() - j,
            {
                let hit = match &self.vertices[i].parents[j] {
                    Parent::Outstanding(s) => *s == *x,
                    Parent::Vertex(_) => false,
                };
                if hit {
                    self.vertices[i].parents[j] = Parent::Vertex(n);
                    found = true;
                }
                j = j + 1;
            }
            assert(found == waits_for(g0[i as int], x@)) by {
                if waits_for(g0[i as int], x@) {
                    let jj = choose|jj: int| 0 <= jj < g0[i as int].parents@.len()
                        && (#[trigger] g0[i as int].parents@[jj] matches Parent::Outstanding(s) && s@ == x@);
                    assert(jj < j);
                }
            }
            let ghost r0 = r@;
            if found {
                r.push(i);
            }
            assert forall|t: int| 0 <= t < g0.len() implies (r@.contains(t as usize) <==> t < i + 1 && #[trigger] waits_for(g0[t], x@)) by {
                if t < i && r0.contains(t as usize) {
                    let c = choose|c: int| 0 <= c < r0.len() && r0[c] == t as usize;
                    assert(r@[c] == t as usize);
                }
                if r@.contains(t as usize) {
                    let c = choose|c: int| 0 <= c < r@.len() && r@[c] == t as usize;
                    if c < r0.len() {
                        assert(r0[c] == t as usize);
                    }
                }
                if t == i && found {
                    assert(r@[r@.len() - 1] == t as usize);
                }
            }
            i = i + 1;
        }
        r
    }
}

impl Graph<Incomplete> {
    /// An empty graph.
    pub fn new() -> (g: Self)
        ensures
            g.wf(),
            g@ == Seq::<NodeModel>::empty(),
    {
        let g = Graph { vertices: Vec::new(), state: Incomplete };
        assert(g@ =~= Seq::<NodeModel>::empty());
        g
    }

    /// Inserts node `value`, which depends on `depends`.
    ///
    /// Dependencies need not be in the graph yet: a link to an absent node
    /// stays outstanding until that node is inserted, and must be resolved
    /// by the time the graph is sealed.
    pub fn insert(&mut self, value: &str, depends: &[&str]) -> (r: Result<(), GraphError>)
        requires
            old(self).wf(),
        ensures
            final(self).wf(),
            r == insert_outcome(names_of(old(self)@), value@, texts(depends@)),
            r is Ok ==> final(self)@ == old(self)@.push((value@, texts(depends@))),
            r is Err ==> final(self)@ == old(self)@,
    {
        proof {
            self.lemma_names();
        }
        let deps = owned_all(depends);
        if has_duplicates(&deps) {
            return Err(GraphError::DuplicateDependency);
        }
        let name = value.to_owned();
        if self.position(&name).is_some() {
            return Err(GraphError::DuplicateNode);
        }
        if contains_text(&deps, &name) {
            return Err(GraphError::SelfDependency);
        }
        let ghost g0 = *self;
        let n = self.vertices.len();
        let parents = self.find_parent_vertices(&deps);
        assert forall|a: int, b: int| 0 <= a < parents@.len() && 0 <= b < parents@.len() && a != b
            && (#[trigger] parents@[a]) is Vertex implies parents@[a] != #[trigger] parents@[b] by {
            if parents@[a] == parents@[b] {
                assert(strings(deps@)[a] == strings(deps@)[b]);
            }
        }
        self.link_children(&parents, n);
        let ghost g1 = *self;
        let children = self.adopt_children(&name, n);
        let ghost g2 = *self;
        self.vertices.push(Vertex { value: name, parents, children });
        proof {
            assert(self.vertices.len() == self.vertices@.len());
            self.lemma_insert_wf(g0, g1, g2, parents@, children@, value@, texts(depends@));
        }
        Ok(())
    }
}

} // verus!

verus! {

/// A sequence of distinct indices below `n` has at most `n` entries.
proof fn lemma_distinct_bounded(s: Seq<int>, n: int)
    requires
        0 <= n,
        s.no_duplicates(),
        forall|t: int| 0 <= t < s.len() ==> 0 <= #[trigger] s[t] < n,
    ensures
        s.len() <= n,
{
    s.unique_seq_to_set();
    vstd::set_lib::lemma_int_range(0, n);
    assert(s.to_set().subset_of(vstd::set_lib::set_int_range(0, n)));
    vstd::set_lib::lemma_len_subset(s.to_set(), vstd::set_lib::set_int_range(0, n));
}

/// The last node of a walk from `start` lies in `hit`, when `start` lies in
/// `seen`, `hit` is part of `seen`, and every step from `seen` lands in `hit`.
proof fn lemma_walk_stays(m: Seq<NodeModel>, down: bool, p: Seq<int>, start: int, seen: Set<int>, hit: Set<int>)
    requires
        is_walk(m, down, p),
        p[0] == start,
        seen.contains(start),
        hit.subset_of(seen),
        forall|x: int, y: int| #[trigger] seen.contains(x) && #[trigger] edge(m, down, x, y) ==> hit.contains(y),
    ensures
        hit.contains(p.last()),
    decreases p.len(),
{
    assert(step(m, down, p, p.len() - 2));
    if p.len() == 2 {
    } else {
        let q = p.drop_last();
        assert forall|t: int| 0 <= t < q.len() - 1 implies #[trigger] step(m, down, q, t) by {
            assert(step(m, down, p, t));
        }
        lemma_walk_stays(m, down, q, start, seen, hit);
    }
}

/// A walk to `x` followed by a step from `x` to `y` is a walk to `y`.
proof fn lemma_walk_extend(m: Seq<NodeModel>, down: bool, start: int, x: int, y: int)
    requires
        x == start || reaches(m, down, start, x),
        edge(m, down, x, y),
    ensures
        reaches(m, down, start, y),
{
    if x == start {
        let p = seq![start, y];
        assert(step(m, down, p, 0));
        assert(is_walk(m, down, p));
    } else {
        let p = choose|p: Seq<int>| #[trigger] is_walk(m, down, p) && p[0] == start && p.last() == x;
        let q = p.push(y);
        assert forall|t: int| 0 <= t < q.len() - 1 implies #[trigger] step(m, down, q, t) by {
            if t < p.len() - 1 {
                assert(step(m, down, p, t));
            }
        }
        assert(is_walk(m, down, q));
    }
}

impl Graph<Incomplete> {
    /// No link is outstanding.
    fn is_complete(&self) -> (r: bool)
        requires
            self.wf(),
        ensures
            r == self.resolved(),
    {
        let mut i: usize = 0;
        while i < self.vertices.len()
            invariant
                i <= self.vertices@.len(),
                forall|a: int, j: int| 0 <= a < i && 0 <= j < self.vertices@[a].parents@.len()
                    ==> (#[trigger] self.parent_at(a, j)) is Vertex,
            decreases self.vertices@.len() - i,
        {
            let mut j: usize = 0;
            while j < self.vertices[i].parents.len()
                invariant
                    i < self.vertices@.len(),
                    j <= self.vertices@[i as int].parents@.len(),
                    forall|a: int, jj: int| 0 <= a < i && 0 <= jj < self.vertices@[a].parents@.len()
                        ==> (#[trigger] self.parent_at(a, jj)) is Vertex,
                    forall|jj: int| 0 <= jj < j ==> (#[trigger] self.parent_at(i as int, jj)) is Vertex,
                decreases self.vertices@[i as int].parents@.len() - j,
            {
                if let Parent::Outstanding(_) = &self.vertices[i].parents[j] {
                    assert(!(self.parent_at(i as int, j as int) is Vertex));
                    return false;
                }
                j = j + 1;
            }
            i = i + 1;
        }
        true
    }

    /// Seals the graph. Fails with `IncompleteGraph` when some dependency
    /// names a node that was never inserted.
    pub fn into_complete(self) -> (r: Result<Graph<Complete>, GraphError>)
        requires
            self.wf(),
        ensures
            r is Ok <==> all_resolved(self@),
            r matches Ok(g) ==> g.ready() && g@ == self@ && model_ok(g@),
            r matches Err(e) ==> e == GraphError::IncompleteGraph,
    {
        proof {
            self.lemma_resolved();
            self.lemma_model_ok();
        }
        if !self.is_complete() {
            return Err(GraphError::IncompleteGraph);
        }
        let ghost old_g = self;
        let g = Graph { vertices: self.vertices, state: Complete };
        proof {
            lemma_same_arena(old_g, g);
        }
        Ok(g)
    }
}

/// Two graphs over the same arena have the same model and invariants.
proof fn lemma_same_arena<S, T>(a: Graph<S>, b: Graph<T>)
    requires
        a.vertices == b.vertices,
    ensures
        a@ == b@,
        a.wf() == b.wf(),
        a.resolved() == b.resolved(),
{
    assert forall|i: int| 0 <= i < a.vertices@.len() implies a.node(i) == b.node(i) by {
        assert(a.node(i).1 =~= b.node(i).1);
    }
    assert(a@ =~= b@);
    assert forall|x: Seq<char>| a.has_name(x) == b.has_name(x) by {
        if a.has_name(x) {
            let t = choose|t: int| 0 <= t < a.vertices@.len() && #[trigger] a.name_at(t) == x;
            assert(b.name_at(t) == x);
        }
        if b.has_name(x) {
            let t = choose|t: int| 0 <= t < b.vertices@.len() && #[trigger] b.name_at(t) == x;
            assert(a.name_at(t) == x);
        }
    }
    assert forall|i: int, k: int| a.links_to(i, k) == b.links_to(i, k) by {
        if a.links_to(i, k) {
            let j = choose|j: int| 0 <= j < a.vertices@[i].parents@.len() && #[trigger] a.parent_at(i, j) == Parent::Vertex(k as usize);
            assert(b.parent_at(i, j) == Parent::Vertex(k as usize));
        }
        if b.links_to(i, k) {
            let j = choose|j: int| 0 <= j < b.vertices@[i].parents@.len() && #[trigger] b.parent_at(i, j) == Parent::Vertex(k as usize);
            assert(a.parent_at(i, j) == Parent::Vertex(k as usize));
        }
    }
    if a.wf() {
        assert forall|x: int, y: int| 0 <= x < b.vertices@.len() && 0 <= y < b.vertices@.len() && x != y implies b.name_at(x) != b.name_at(y) by {
            assert(a.name_at(x) != a.name_at(y));
        }
        assert forall|i: int, j: int| 0 <= i < b.vertices@.len() && 0 <= j < b.vertices@[i].parents@.len() implies
            match #[trigger] b.parent_at(i, j) {
                Parent::Vertex(k) => k < b.vertices@.len(),
                Parent::Outstanding(s) => !b.has_name(s@),
            } by {
            assert(a.parent_at(i, j) == b.parent_at(i, j));
        }
        assert forall|i: int| 0 <= i < b.vertices@.len() implies (#[trigger] b.node(i)).1.no_duplicates() by {
            assert(a.node(i).1.no_duplicates());
        }
        assert forall|i: int| 0 <= i < b.vertices@.len() implies !(#[trigger] b.node(i)).1.contains(b.name_at(i)) by {
            assert(!a.node(i).1.contains(a.name_at(i)));
        }
        assert forall|k: int, i: int| 0 <= k < b.vertices@.len() && 0 <= i < b.vertices@.len() implies
            (b.vertices@[k].children@.contains(i as usize) <==> #[trigger] b.links_to(i, k)) by {
            assert(a.vertices@[k].children@.contains(i as usize) <==> a.links_to(i, k));
        }
    }
    if b.wf() {
        assert forall|x: int, y: int| 0 <= x < a.vertices@.len() && 0 <= y < a.vertices@.len() && x != y implies a.name_at(x) != a.name_at(y) by {
            assert(b.name_at(x) != b.name_at(y));
        }
        assert forall|i: int, j: int| 0 <= i < a.vertices@.len() && 0 <= j < a.vertices@[i].parents@.len() implies
            match #[trigger] a.parent_at(i, j) {
                Parent::Vertex(k) => k < a.vertices@.len(),
                Parent::Outstanding(s) => !a.has_name(s@),
            } by {
            assert(a.parent_at(i, j) == b.parent_at(i, j));
        }
        assert forall|i: int| 0 <= i < a.vertices@.len() implies (#[trigger] a.node(i)).1.no_duplicates() by {
            assert(b.node(i).1.no_duplicates());
        }
        assert forall|i: int| 0 <= i < a.vertices@.len() implies !(#[trigger] a.node(i)).1.contains(a.name_at(i)) by {
            assert(!b.node(i).1.contains(b.name_at(i)));
        }
        assert forall|k: int, i: int| 0 <= k < a.vertices@.len() && 0 <= i < a.vertices@.len() implies
            (a.vertices@[k].children@.contains(i as usize) <==> #[trigger] a.links_to(i, k)) by {
            assert(b.vertices@[k].children@.contains(i as usize) <==> b.links_to(i, k));
        }
    }
    assert(a.resolved() == b.resolved()) by {
        if a.resolved() {
            assert forall|i: int, j: int| 0 <= i < b.vertices@.len() && 0 <= j < b.vertices@[i].parents@.len()
                implies (#[trigger] b.parent_at(i, j)) is Vertex by {
                assert(a.parent_at(i, j) is Vertex);
            }
        }
        if b.resolved() {
            assert forall|i: int, j: int| 0 <= i < a.vertices@.len() && 0 <= j < a.vertices@[i].parents@.len()
                implies (#[trigger] a.parent_at(i, j)) is Vertex by {
                assert(b.parent_at(i, j) is Vertex);
            }
        }
    }
}

impl<S> Graph<S> {
    proof fn lemma_resolved(&self)
        requires
            self.wf(),
        ensures
            self.resolved() <==> all_resolved(self@),
    {
        self.lemma_names();
        let m = self@;
        if self.resolved() {
            assert forall|i: int, j: int| 0 <= i < m.len() && 0 <= j < m[i].1.len()
                implies names_of(m).contains(#[trigger] m[i].1[j]) by {
                assert(m[i] == self.node(i));
                if let Parent::Vertex(k) = self.parent_at(i, j) {
                    assert(names_of(m)[k as int] == self.name_at(k as int));
                }
            }
        }
        if all_resolved(m) {
            assert forall|i: int, j: int| 0 <= i < self.vertices@.len() && 0 <= j < self.vertices@[i].parents@.len()
                implies (#[trigger] self.parent_at(i, j)) is Vertex by {
                assert(m[i] == self.node(i));
                assert(names_of(m).contains(m[i].1[j]));
            }
        }
    }

    /// For a graph without outstanding links, a resolved link is exactly a
    /// declared dependency of the model.
    proof fn lemma_links(&self)
        requires
            self.wf(),
            self.resolved(),
        ensures
            forall|i: int, k: int| 0 <= i < self.vertices@.len() && 0 <= k < self.vertices@.len() ==>
                (#[trigger] self.links_to(i, k) <==> depends_directly(self@, i, k)),
    {
        self.lemma_names();
        let m = self@;
        assert(self.vertices.len() == self.vertices@.len());
        assert forall|i: int, k: int| 0 <= i < self.vertices@.len() && 0 <= k < self.vertices@.len() implies
            (#[trigger] self.links_to(i, k) <==> depends_directly(self@, i, k)) by {
            assert(m[i] == self.node(i));
            assert(m[k] == self.node(k));
            if self.links_to(i, k) {
                let j = choose|j: int| 0 <= j < self.vertices@[i].parents@.len()
                    && #[trigger] self.parent_at(i, j) == Parent::Vertex(k as usize);
                assert(self.node(i).1[j] == self.parent_name(self.parent_at(i, j)));
                assert(m[i].1[j] == m[k].0);
            }
            if depends_directly(m, i, k) {
                let j = choose|j: int| 0 <= j < m[i].1.len() && m[i].1[j] == m[k].0;
                if let Parent::Vertex(kk) = self.parent_at(i, j) {
                    assert(self.name_at(kk as int) == self.name_at(k));
                    assert(kk == k);
                }
            }
        }
    }
}

impl Graph<Complete> {
    /// The graph is consistent and has no outstanding link.
    pub closed spec fn ready(&self) -> bool {
        self.wf() && self.resolved()
    }

    /// Index of the vertex named `value`.
    fn find_vertex(&self, value: &str) -> (r: Result<usize, GraphError>)
        requires
            self.ready(),
        ensures
            r matches Ok(k) ==> k < self.vertices@.len() && self@[k as int].0 == value@,
            r is Ok <==> names_of(self@).contains(value@),
            r matches Err(e) ==> e == GraphError::UnknownNode,
    {
        proof {
            self.lemma_names();
        }
        let name = value.to_owned();
        match self.position(&name) {
            Some(k) => Ok(k),
            None => Err(GraphError::UnknownNode),
        }
    }

    /// The vertices one step away from `x`: its dependencies when `down`,
    /// its dependents otherwise.
    fn successors(&self, x: usize, down: bool) -> (r: Vec<usize>)
        requires
            self.ready(),
            x < self.vertices@.len(),
        ensures
            forall|c: int| 0 <= c < r@.len() ==> (#[trigger] r@[c]) < self.vertices@.len(),
            forall|k: int| 0 <= k < self.vertices@.len() ==> (r@.contains(k as usize) <==> #[trigger] edge(self@, down, x as int, k)),
    {
        proof {
            self.lemma_links();
        }
        let mut r: Vec<usize> = Vec::new();
        assert(self.vertices.len() == self.vertices@.len());
        if down {
            let mut j: usize = 0;
            while j < self.vertices[x].parents.len()
                invariant
                    self.ready(),
                    self.vertices@.len() <= usize::MAX,
                    x < self.vertices@.len(),
                    j <= self.vertices@[x as int].parents@.len(),
                    forall|c: int| 0 <= c < r@.len() ==> (#[trigger] r@[c]) < self.vertices@.len(),
                    forall|k: int| 0 <= k < self.vertices@.len() ==> (#[trigger] r@.contains(k as usize) <==>
                        exists|jj: int| 0 <= jj < j && #[trigger] self.parent_at(x as int, jj) == Parent::Vertex(k as usize)),
                decreases self.vertices@[x as int].parents@.len() - j,
            {
                let ghost r0 = r@;
                if let Parent::Vertex(k) = &self.vertices[x].parents[j] {
                    r.push(*k);
                }
                assert forall|k: int| 0 <= k < self.vertices@.len() implies (#[trigger] r@.contains(k as usize) <==>
                    exists|jj: int| 0 <= jj < j + 1 && #[trigger] self.parent_at(x as int, jj) == Parent::Vertex(k as usize)) by {
                    if r@.contains(k as usize) {
                        let c = choose|c: int| 0 <= c < r@.len() && r@[c] == k as usize;
                        if c < r0.len() {
                            assert(r0[c] == k as usize);
                            assert(r0.contains(k as usize));
                            let jj = choose|jj: int| 0 <= jj < j && #[trigger] self.parent_at(x as int, jj) == Parent::Vertex(k as usize);
                            assert(self.parent_at(x as int, jj) == Parent::Vertex(k as usize));
                        } else {
                            assert(self.parent_at(x as int, j as int) == Parent::Vertex(k as usize));
                        }
                    }
                    if exists|jj: int| 0 <= jj < j + 1 && #[trigger] self.parent_at(x as int, jj) == Parent::Vertex(k as usize) {
                        let jj = choose|jj: int| 0 <= jj < j + 1 && #[trigger] self.parent_at(x as int, jj) == Parent::Vertex(k as usize);
                        if jj < j {
                            assert(r0.contains(k as usize));
                            let c = choose|c: int| 0 <= c < r0.len() && r0[c] == k as usize;
                            assert(r@[c] == k as usize);
                        } else {
                            assert(r@[r@.len() - 1] == k as usize);
                        }
                    }
                }
                j = j + 1;
            }
            assert forall|k: int| 0 <= k < self.vertices@.len() implies (r@.contains(k as usize) <==> #[trigger] edge(self@, down, x as int, k)) by {
                assert(self.links_to(x as int, k) <==> depends_directly(self@, x as int, k));
                if r@.contains(k as usize) {
                    assert(self.links_to(x as int, k));
                }
            }
        } else {
            let mut c: usize = 0;
            while c < self.vertices[x].children.len()
                invariant
                    self.ready(),
                    x < self.vertices@.len(),
                    c <= self.vertices@[x as int].children@.len(),
                    r@ == self.vertices@[x as int].children@.take(c as int),
            decreases self.vertices@[x as int].children@.len() - c,
            {
                r.push(self.vertices[x].children[c]);
                c = c + 1;
                assert(r@ =~= self.vertices@[x as int].children@.take(c as int));
            }
            assert(r@ =~= self.vertices@[x as int].children@);
            assert forall|k: int| 0 <= k < self.vertices@.len() implies (r@.contains(k as usize) <==> #[trigger] edge(self@, down, x as int, k)) by {
                assert(self.links_to(k, x as int) <==> depends_directly(self@, k, x as int));
            }
        }
        r
    }

    /// Identifiers of the nodes reached from vertex `start` by walks of at
    /// least one step, each once, in traversal order.
    fn reachable(&self, start: usize, down: bool) -> (r: Vec<String>)
        requires
            self.ready(),
            start < self.vertices@.len(),
        ensures
            strings(r@).no_duplicates(),
            forall|y: Seq<char>| strings(r@).contains(y) <==> exists|k: int|
                0 <= k < self@.len() && self@[k].0 == y && #[trigger] reaches(self@, down, start as int, k),
    {
        proof {
            self.lemma_names();
        }
        let ghost m = self@;
        let n = self.vertices.len();
        let mut visited: Vec<bool> = Vec::new();
        while visited.len() < n
            invariant
                visited@.len() <= n,
                forall|k: int| 0 <= k < visited@.len() ==> !(#[trigger] visited@[k]),
            decreases n - visited@.len(),
        {
            visited.push(false);
        }
        let mut stack: Vec<usize> = Vec::new();
        stack.push(start);
        assert(stack@[0] == start);
        let mut found: Vec<String> = Vec::new();
        let ghost mut order: Seq<int> = Seq::empty();
        while stack.len() > 0
            invariant
                self.ready(),
                m == self@,
                n == self.vertices@.len(),
                n == m.len(),
                start < n,
                visited@.len() == n,
                order.len() == found@.len(),
                order.no_duplicates(),
                forall|t: int| 0 <= t < order.len() ==> 0 <= #[trigger] order[t] < n,
                forall|t: int| 0 <= t < order.len() ==> found@[t]@ == m[#[trigger] order[t]].0,
                forall|t: int| 0 <= t < order.len() ==> visited@[#[trigger] order[t]],
                forall|k: int| 0 <= k < n && #[trigger] visited@[k] ==> order.contains(k),
                forall|k: int| 0 <= k < n && #[trigger] visited@[k] ==> reaches(m, down, start as int, k),
                forall|c: int| 0 <= c < stack@.len() ==> (#[trigger] stack@[c]) < n,
                forall|c: int| 0 <= c < stack@.len() ==> (#[trigger] stack@[c]) == start || visited@[stack@[c] as int],
                forall|x: int, k: int| 0 <= x < n && 0 <= k < n && (x == start || visited@[x])
                    && !stack@.contains(x as usize) && #[trigger] edge(m, down, x, k) ==> visited@[k],
            decreases n - order.len(), stack@.len(),
        {
            proof {
                lemma_distinct_bounded(order, n as int);
            }
            let ghost vis_head = visited@;
            let ghost stack_head = stack@;
            let x = stack.pop().unwrap();
            let next = self.successors(x, down);
            let ghost order0 = order;
            let ghost stack0 = stack@;
            let mut c: usize = 0;
            while c < next.len()
                invariant
                    self.ready(),
                    m == self@,
                    n == self.vertices@.len(),
                    n == m.len(),
                    start < n,
                    x < n,
                    x == start || visited@[x as int],
                    visited@.len() == n,
                    c <= next@.len(),
                    forall|cc: int| 0 <= cc < next@.len() ==> (#[trigger] next@[cc]) < n,
                    forall|k: int| 0 <= k < n ==> (next@.contains(k as usize) <==> #[trigger] edge(m, down, x as int, k)),
                    forall|cc: int| 0 <= cc < c ==> visited@[#[trigger] next@[cc] as int],
                    order.len() == found@.len(),
                    order.len() >= order0.len(),
                    order.no_duplicates(),
                    forall|t: int| 0 <= t < order.len() ==> 0 <= #[trigger] order[t] < n,
                    forall|t: int| 0 <= t < order.len() ==> found@[t]@ == m[#[trigger] order[t]].0,
                    forall|t: int| 0 <= t < order.len() ==> visited@[#[trigger] order[t]],
                    forall|k: int| 0 <= k < n && #[trigger] visited@[k] ==> order.contains(k),
                    forall|k: int| 0 <= k < n && #[trigger] visited@[k] ==> reaches(m, down, start as int, k),
                    forall|cc: int| 0 <= cc < stack@.len() ==> (#[trigger] stack@[cc]) < n,
                    forall|cc: int| 0 <= cc < stack@.len() ==> (#[trigger] stack@[cc]) == start || visited@[stack@[cc] as int],
                    stack@.len() - stack0.len() == order.len() - order0.len(),
                    forall|cc: int| 0 <= cc < stack0.len() ==> #[trigger] stack@[cc] == stack0[cc],
                    forall|k: int| 0 <= k < n && visited@[k] && !(#[trigger] order0.contains(k)) ==> stack@.contains(k as usize),
                    forall|k: int| 0 <= k < n && #[trigger] order0.contains(k) ==> visited@[k],
                decreases next@.len() - c,
            {
                let k = next[c];
                if !visited[k] {
                    proof {
                        lemma_walk_extend(m, down, start as int, x as int, k as int);
                        assert(next@.contains(k));
                    }
                    let ghost v0 = visited@;
                    let ghost o0 = order;
                    let ghost s0 = stack@;
                    visited.set(k, true);
                    found.push(self.vertices[k].value.clone());
                    stack.push(k);
                    proof {
                        order = order.push(k as int);
                        assert forall|t: int| 0 <= t < order.len() implies visited@[#[trigger] order[t]] by {
                            if t < o0.len() {
                                assert(v0[o0[t]]);
                            }
                        }
                        assert forall|kk: int| 0 <= kk < n && #[trigger] visited@[kk] implies order.contains(kk) by {
                            if kk != k {
                                assert(v0[kk]);
                                let t = choose|t: int| 0 <= t < o0.len() && o0[t] == kk;
                                assert(order[t] == kk);
                            } else {
                                assert(order[o0.len() as int] == kk);
                            }
                        }
                        assert forall|kk: int| 0 <= kk < n && visited@[kk] && !(#[trigger] order0.contains(kk)) implies stack@.contains(kk as usize) by {
                            if kk != k {
                                assert(v0[kk]);
                                let cc = choose|cc: int| 0 <= cc < s0.len() && s0[cc] == kk as usize;
                                assert(stack@[cc] == kk as usize);
                            } else {
                                assert(stack@[s0.len() as int] == kk as usize);
                            }
                        }
                        assert(order.no_duplicates()) by {
                            assert(!o0.contains(k as int)) by {
                                if o0.contains(k as int) {
                                    let t = choose|t: int| 0 <= t < o0.len() && o0[t] == k as int;
                                    assert(v0[o0[t]]);
                                }
                            }
                        }
                    }
                }
                c = c + 1;
            }
            proof {
                lemma_distinct_bounded(order, n as int);
                assert forall|xx: int, kk: int| 0 <= xx < n && 0 <= kk < n && (xx == start || visited@[xx])
                    && !stack@.contains(xx as usize) && #[trigger] edge(m, down, xx, kk) implies visited@[kk] by {
                    if xx == x as int {
                        assert(next@.contains(kk as usize));
                        let cc = choose|cc: int| 0 <= cc < next@.len() && next@[cc] == kk as usize;
                        assert(visited@[next@[cc] as int]);
                    } else if stack0.contains(xx as usize) {
                        let cc = choose|cc: int| 0 <= cc < stack0.len() && stack0[cc] == xx as usize;
                        assert(stack@[cc] == xx as usize);
                    } else if !(xx == start || order0.contains(xx)) {
                        assert(stack@.contains(xx as usize));
                    } else {
                        assert(stack_head =~= stack0.push(x));
                        assert(!stack_head.contains(xx as usize)) by {
                            if stack_head.contains(xx as usize) {
                                let cc = choose|cc: int| 0 <= cc < stack_head.len() && stack_head[cc] == xx as usize;
                                if cc < stack0.len() {
                                    assert(stack0[cc] == xx as usize);
                                }
                            }
                        }
                        if xx != start {
                            let t = choose|t: int| 0 <= t < order0.len() && order0[t] == xx;
                            assert(vis_head[order0[t]]);
                        }
                        assert(vis_head[kk]);
                        assert(order0.contains(kk));
                    }
                }
            }
        }
        proof {
            let seen = Set::new(|x: int| 0 <= x < n && (x == start || visited@[x]));
            let hit = Set::new(|x: int| 0 <= x < n && visited@[x]);
            assert forall|x: int, y: int| #[trigger] seen.contains(x) && #[trigger] edge(m, down, x, y) implies hit.contains(y) by {
                assert(visited@[y]);
            }
            assert forall|y: Seq<char>| strings(found@).contains(y) <==> exists|k: int|
                0 <= k < m.len() && m[k].0 == y && #[trigger] reaches(m, down, start as int, k) by {
                if strings(found@).contains(y) {
                    let t = choose|t: int| 0 <= t < strings(found@).len() && strings(found@)[t] == y;
                    assert(visited@[order[t]]);
                    assert(reaches(m, down, start as int, order[t]));
                }
                if exists|k: int| 0 <= k < m.len() && m[k].0 == y && #[trigger] reaches(m, down, start as int, k) {
                    let k = choose|k: int| 0 <= k < m.len() && m[k].0 == y && #[trigger] reaches(m, down, start as int, k);
                    let p = choose|p: Seq<int>| #[trigger] is_walk(m, down, p) && p[0] == start as int && p.last() == k;
                    lemma_walk_stays(m, down, p, start as int, seen, hit);
                    assert(visited@[k]);
                    let t = choose|t: int| 0 <= t < order.len() && order[t] == k;
                    assert(strings(found@)[t] == y);
                }
            }
            assert(strings(found@).no_duplicates()) by {
                assert forall|a: int, b: int| 0 <= a < found@.len() && 0 <= b < found@.len() && a != b
                    implies strings(found@)[a] != strings(found@)[b] by {
                    assert(order[a] != order[b]);
                    assert(names_of(m)[order[a]] == m[order[a]].0);
                    assert(names_of(m)[order[b]] == m[order[b]].0);
                }
            }
        }
        found
    }
}

} // verus!

verus! {

impl Graph<Complete> {
    /// Every node that `value` depends on, directly or not, each once, in
    /// traversal order. Fails with `UnknownNode` when `value` is not a node.
    pub fn dependencies_of(&self, value: &str) -> (r: Result<Vec<String>, GraphError>)
        requires
            self.ready(),
        ensures
            r is Ok <==> names_of(self@).contains(value@),
            r matches Err(e) ==> e == GraphError::UnknownNode,
            r matches Ok(deps) ==> strings(deps@).no_duplicates()
                && strings(deps@).to_set() == dependency_closure(self@, value@),
    {
        self.closure_of(value, true)
    }

    /// Every node that depends on `value`, directly or not, each once, in
    /// traversal order. Fails with `UnknownNode` when `value` is not a node.
    pub fn dependent_vertices(&self, value: &str) -> (r: Result<Vec<String>, GraphError>)
        requires
            self.ready(),
        ensures
            r is Ok <==> names_of(self@).contains(value@),
            r matches Err(e) ==> e == GraphError::UnknownNode,
            r matches Ok(deps) ==> strings(deps@).no_duplicates()
                && strings(deps@).to_set() == dependent_closure(self@, value@),
    {
        self.closure_of(value, false)
    }

    fn closure_of(&self, value: &str, down: bool) -> (r: Result<Vec<String>, GraphError>)
        requires
            self.ready(),
        ensures
            r is Ok <==> names_of(self@).contains(value@),
            r matches Err(e) ==> e == GraphError::UnknownNode,
            r matches Ok(deps) ==> strings(deps@).no_duplicates()
                && strings(deps@).to_set() == closure(self@, down, value@),
    {
        let start = match self.find_vertex(value) {
            Ok(k) => k,
            Err(e) => return Err(e),
        };
        let found = self.reachable(start, down);
        proof {
            self.lemma_model_ok();
            self.lemma_names();
            let m = self@;
            assert forall|y: Seq<char>| #[trigger] strings(found@).to_set().contains(y) <==> closure(m, down, value@).contains(y) by {
                if closure(m, down, value@).contains(y) {
                    let (s, k) = choose|s: int, k: int|
                        0 <= s < m.len() && 0 <= k < m.len() && m[s].0 == value@ && m[k].0 == y
                            && #[trigger] reaches(m, down, s, k);
                    assert(names_of(m)[s] == names_of(m)[start as int]);
                    assert(s == start);
                }
                if strings(found@).contains(y) {
                    let k = choose|k: int| 0 <= k < m.len() && m[k].0 == y && #[trigger] reaches(m, down, start as int, k);
                    assert(reaches(m, down, start as int, k));
                }
            }
            assert(strings(found@).to_set() =~= closure(m, down, value@));
        }
        Ok(found)
    }
}

/// Reversing a walk in one direction gives a walk in the other.
proof fn lemma_walk_reverse(m: Seq<NodeModel>, down: bool, p: Seq<int>)
    requires
        is_walk(m, down, p),
    ensures
        is_walk(m, !down, p.reverse()),
{
    let q = p.reverse();
    let up = !down;
    assert forall|t: int| 0 <= t < q.len() - 1 implies #[trigger] step(m, up, q, t) by {
        assert(step(m, down, p, p.len() - 2 - t));
    }
}

/// In a sealed graph, `b` is among the dependencies of `a` exactly when `a`
/// is among the dependents of `b`.
pub proof fn lemma_dependency_duality(g: Graph<Complete>, a: Seq<char>, b: Seq<char>)
    requires
        g.ready(),
    ensures
        dependency_closure(g@, a).contains(b) <==> dependent_closure(g@, b).contains(a),
{
    let m = g@;
    if dependency_closure(m, a).contains(b) {
        let (s, k) = choose|s: int, k: int|
            0 <= s < m.len() && 0 <= k < m.len() && m[s].0 == a && m[k].0 == b && #[trigger] reaches(m, true, s, k);
        let p = choose|p: Seq<int>| #[trigger] is_walk(m, true, p) && p[0] == s && p.last() == k;
        lemma_walk_reverse(m, true, p);
        assert(is_walk(m, false, p.reverse()));
        assert(reaches(m, false, k, s));
    }
    if dependent_closure(m, b).contains(a) {
        let (k, s) = choose|k: int, s: int|
            0 <= k < m.len() && 0 <= s < m.len() && m[k].0 == b && m[s].0 == a && #[trigger] reaches(m, false, k, s);
        let p = choose|p: Seq<int>| #[trigger] is_walk(m, false, p) && p[0] == k && p.last() == s;
        lemma_walk_reverse(m, false, p);
        assert(is_walk(m, true, p.reverse()));
        assert(reaches(m, true, s, k));
    }
}

} // verus!

verus! {

/// What inserting the entries of `es` one by one into an empty graph
/// returns: the first failure, if any.
pub open spec fn build_outcome(es: Seq<ConfigEntry>) -> Result<(), GraphError>
    decreases es.len(),
{
    if es.len() == 0 {
        Ok(())
    } else {
        match build_outcome(es.drop_last()) {
            Err(e) => Err(e),
            Ok(_) => insert_outcome(names_of(catalog_model(es.drop_last())), es.last().name@, entry_deps(es.last())),
        }
    }
}

/// Once inserting a prefix of the catalog fails, the whole catalog fails the
/// same way.
proof fn lemma_build_outcome_prefix(es: Seq<ConfigEntry>, i: int)
    requires
        0 <= i <= es.len(),
        build_outcome(es.take(i)) is Err,
    ensures
        build_outcome(es) == build_outcome(es.take(i)),
    decreases es.len() - i,
{
    if i < es.len() {
        assert(es.take(i + 1).drop_last() =~= es.take(i));
        lemma_build_outcome_prefix(es, i + 1);
    } else {
        assert(es.take(i) =~= es);
    }
}

impl Graph<Incomplete> {
    /// The graph of a catalog: one node per entry, inserted in catalog order.
    pub fn from_entries(entries: &[ConfigEntry]) -> (r: Result<Graph<Incomplete>, GraphError>)
        ensures
            r is Ok <==> build_outcome(entries@) is Ok,
            r matches Err(e) ==> build_outcome(entries@) == Err::<(), GraphError>(e),
            r matches Ok(g) ==> g.wf() && g@ == catalog_model(entries@),
    {
        let mut g = Graph::new();
        let mut i: usize = 0;
        while i < entries.len()
            invariant
                i <= entries@.len(),
                g.wf(),
                build_outcome(entries@.take(i as int)) is Ok,
                g@ == catalog_model(entries@.take(i as int)),
            decreases entries@.len() - i,
        {
            let e = &entries[i];
            let mut deps: Vec<&str> = Vec::new();
            let mut j: usize = 0;
            while j < e.depends.0.len()
                invariant
                    j <= e.depends.0@.len(),
                    deps@.len() == j,
                    forall|t: int| 0 <= t < j ==> (#[trigger] deps@[t])@ == e.depends.0@[t]@,
                decreases e.depends.0@.len() - j,
            {
                deps.push(e.depends.0[j].as_str());
                j = j + 1;
            }
            assert(texts(deps@) =~= entry_deps(*e));
            let ghost prefix = entries@.take(i as int);
            assert(entries@.take(i + 1).drop_last() =~= prefix);
            assert(names_of(catalog_model(prefix)) =~= names_of(g@));
            let res = g.insert(e.name.as_str(), deps.as_slice());
            if let Err(err) = res {
                proof {
                    lemma_build_outcome_prefix(entries@, i + 1);
                }
                return Err(err);
            }
            assert(catalog_model(entries@.take(i + 1)) =~= catalog_model(prefix).push((e.name@, entry_deps(*e))));
            i = i + 1;
        }
        assert(entries@.take(i as int) =~= entries@);
        Ok(g)
    }
}

} // verus!
