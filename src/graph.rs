use vstd::prelude::*;
use vstd::string::*;

verus! {

/// Tallies of the records that ingestion skipped, by reason.
#[derive(Debug, Clone, Copy, PartialEq, Eq, Structural)]
pub struct Diagnostics {
    pub invalid_titles: u32,
    pub invalid_title_records: u32,
    pub invalid_people: u32,
    pub invalid_actor_records: u32,
    pub invalid_actor_refs: u32,
}

impl Diagnostics {
    pub open spec fn is_zero(&self) -> bool {
        &&& self.invalid_titles == 0
        &&& self.invalid_title_records == 0
        &&& self.invalid_people == 0
        &&& self.invalid_actor_records == 0
        &&& self.invalid_actor_refs == 0
    }

    pub fn new() -> (r: Diagnostics)
        ensures
            r.is_zero(),
    {
        Diagnostics {
            invalid_titles: 0,
            invalid_title_records: 0,
            invalid_people: 0,
            invalid_actor_records: 0,
            invalid_actor_refs: 0,
        }
    }
}

/// One vertex: a person (`is_actor`) or a title, with its display name once
/// one was stored, and the indices of its neighbours, which are of the other kind.
struct Node {
    id: String,
    name: Option<String>,
    is_actor: bool,
    edges: Vec<usize>,
}

/// The vertex store and the adjacency store of the person/title graph.
///
/// Vertices live in one arena; an id names at most one vertex of each kind.
/// A vertex exists once its id was given as a vertex or as an edge end.
pub struct ImdbGraph {
    nodes: Vec<Node>,
    diagnostics: Diagnostics,
}

/// The characters of an optional string.
pub open spec fn opt_view(o: Option<String>) -> Option<Seq<char>> {
    match o {
        Some(s) => Some(s@),
        None => None,
    }
}

impl ImdbGraph {
    /// Ids are unique within a kind, and every edge leads to a vertex of the
    /// other kind.
    pub closed spec fn wf(&self) -> bool {
        &&& forall|i: int, j: int|
            0 <= i < self.nodes@.len() && 0 <= j < self.nodes@.len() && i != j
                && self.nodes@[i].is_actor == self.nodes@[j].is_actor ==> #[trigger] self.nodes@[i].id@
                != #[trigger] self.nodes@[j].id@
        &&& forall|i: int, e: int|
            0 <= i < self.nodes@.len() && 0 <= e < self.nodes@[i].edges@.len() ==> {
                let j = #[trigger] self.nodes@[i].edges@[e] as int;
                &&& j < self.nodes@.len()
                &&& self.nodes@[j].is_actor != self.nodes@[i].is_actor
            }
    }

    /// The diagnostic tallies held by the graph.
    pub closed spec fn diag(&self) -> Diagnostics {
        self.diagnostics
    }

    spec fn is_node(&self, i: int, is_actor: bool, id: Seq<char>) -> bool {
        0 <= i < self.nodes@.len() && self.nodes@[i].is_actor == is_actor && self.nodes@[i].id@ == id
    }

    /// The graph holds a vertex of this kind with this id.
    pub closed spec fn has(&self, is_actor: bool, id: Seq<char>) -> bool {
        exists|i: int| self.is_node(i, is_actor, id)
    }

    spec fn index_of(&self, is_actor: bool, id: Seq<char>) -> int {
        choose|i: int| self.is_node(i, is_actor, id)
    }

    /// The display name stored for a vertex, if any.
    pub closed spec fn name_of(&self, is_actor: bool, id: Seq<char>) -> Option<Seq<char>> {
        if self.has(is_actor, id) {
            opt_view(self.nodes@[self.index_of(is_actor, id)].name)
        } else {
            None
        }
    }

    spec fn ids_of(&self, edges: Seq<usize>) -> Seq<Seq<char>> {
        edges.map_values(|j: usize| self.nodes@[j as int].id@)
    }

    /// The neighbour list of a vertex, in the order the edges were added;
    /// empty for an id with no recorded edges.
    pub closed spec fn neighbors(&self, is_actor: bool, id: Seq<char>) -> Seq<Seq<char>> {
        if self.has(is_actor, id) {
            self.ids_of(self.nodes@[self.index_of(is_actor, id)].edges@)
        } else {
            Seq::empty()
        }
    }

    proof fn lemma_index_of(&self, i: int, is_actor: bool, id: Seq<char>)
        requires
            self.wf(),
            self.is_node(i, is_actor, id),
        ensures
            self.has(is_actor, id),
            self.index_of(is_actor, id) == i,
    {
        let k = self.index_of(is_actor, id);
        assert(self.is_node(k, is_actor, id));
        if k != i {
            assert(self.nodes@[i].id@ == self.nodes@[k].id@);
        }
    }

    /// What holds between a graph and the same graph with vertices appended
    /// that have no name and no edges, and with names changed at most at `changed`.
    proof fn lemma_frame(old_g: &Self, new_g: &Self, changed: int)
        requires
            old_g.wf(),
            new_g.wf(),
            old_g.nodes@.len() <= new_g.nodes@.len(),
            forall|i: int|
                0 <= i < old_g.nodes@.len() && i != changed ==> #[trigger] new_g.nodes@[i]
                    == old_g.nodes@[i],
            0 <= changed < old_g.nodes@.len() ==> {
                &&& new_g.nodes@[changed].id == old_g.nodes@[changed].id
                &&& new_g.nodes@[changed].is_actor == old_g.nodes@[changed].is_actor
                &&& new_g.nodes@[changed].edges == old_g.nodes@[changed].edges
            },
            forall|i: int|
                old_g.nodes@.len() <= i < new_g.nodes@.len() ==> {
                    &&& (i != changed ==> (#[trigger] new_g.nodes@[i]).name is None)
                    &&& new_g.nodes@[i].edges@.len() == 0
                },
        ensures
            forall|a: bool, k: Seq<char>|
                #![trigger new_g.has(a, k)]
                old_g.has(a, k) ==> {
                    &&& new_g.has(a, k)
                    &&& new_g.index_of(a, k) == old_g.index_of(a, k)
                    &&& new_g.neighbors(a, k) == old_g.neighbors(a, k)
                    &&& (new_g.index_of(a, k) != changed ==> new_g.name_of(a, k) == old_g.name_of(a, k))
                },
            forall|a: bool, k: Seq<char>|
                #![trigger new_g.has(a, k)]
                !old_g.has(a, k) && new_g.has(a, k) ==> {
                    &&& new_g.neighbors(a, k).len() == 0
                    &&& (new_g.index_of(a, k) != changed ==> new_g.name_of(a, k) is None)
                    &&& new_g.index_of(a, k) >= old_g.nodes@.len()
                },
    {
        assert forall|a: bool, k: Seq<char>|
            #![trigger new_g.has(a, k)]
            old_g.has(a, k) implies {
                &&& new_g.has(a, k)
                &&& new_g.index_of(a, k) == old_g.index_of(a, k)
                &&& new_g.neighbors(a, k) == old_g.neighbors(a, k)
                &&& (new_g.index_of(a, k) != changed ==> new_g.name_of(a, k) == old_g.name_of(a, k))
            } by {
            let i = old_g.index_of(a, k);
            assert(old_g.is_node(i, a, k));
            assert(new_g.is_node(i, a, k));
            new_g.lemma_index_of(i, a, k);
            let es = old_g.nodes@[i].edges@;
            assert(new_g.nodes@[i].edges@ == es);
            assert forall|e: int| 0 <= e < es.len() implies new_g.nodes@[es[e] as int].id
                == old_g.nodes@[es[e] as int].id by {
                assert(old_g.nodes@[i].edges@[e] == es[e]);
            }
            assert(new_g.ids_of(es) =~= old_g.ids_of(es));
        }
        assert forall|a: bool, k: Seq<char>|
            #![trigger new_g.has(a, k)]
            !old_g.has(a, k) && new_g.has(a, k) implies {
                &&& new_g.neighbors(a, k).len() == 0
                &&& (new_g.index_of(a, k) != changed ==> new_g.name_of(a, k) is None)
                &&& new_g.index_of(a, k) >= old_g.nodes@.len()
            } by {
            let i = new_g.index_of(a, k);
            assert(new_g.is_node(i, a, k));
            if i < old_g.nodes@.len() {
                if i != changed {
                    assert(new_g.nodes@[i] == old_g.nodes@[i]);
                }
                assert(old_g.is_node(i, a, k));
                assert(false);
            }
        }
    }

    pub fn new() -> (r: ImdbGraph)
        ensures
            r.wf(),
            r.diag().is_zero(),
            forall|a: bool, k: Seq<char>| !r.has(a, k),
            forall|a: bool, k: Seq<char>| #[trigger] r.name_of(a, k) is None,
            forall|a: bool, k: Seq<char>| #[trigger] r.neighbors(a, k) == Seq::<Seq<char>>::empty(),
    {
        ImdbGraph { nodes: Vec::new(), diagnostics: Diagnostics::new() }
    }

    fn find(&self, is_actor: bool, id: &String) -> (r: Option<usize>)
        requires
            self.wf(),
        ensures
            match r {
                Some(i) => self.is_node(i as int, is_actor, id@),
                None => !self.has(is_actor, id@),
            },
    {
        let mut i: usize = 0;
        while i < self.nodes.len()
            invariant
                i <= self.nodes@.len(),
                forall|j: int| 0 <= j < i ==> !self.is_node(j, is_actor, id@),
            decreases self.nodes@.len() - i,
        {
            let n = &self.nodes[i];
            if n.is_actor == is_actor && n.id == *id {
                return Some(i);
            }
            i += 1;
        }
        None
    }

    /// What holds between a graph and the same graph with one edge appended
    /// to the neighbour list of vertex `i`.
    proof fn lemma_push_edge(old_g: &Self, new_g: &Self, i: int, j: usize)
        requires
            old_g.wf(),
            new_g.wf(),
            0 <= i < old_g.nodes@.len(),
            j < old_g.nodes@.len(),
            new_g.nodes@.len() == old_g.nodes@.len(),
            forall|n: int| 0 <= n < old_g.nodes@.len() && n != i ==> #[trigger] new_g.nodes@[n] == old_g.nodes@[n],
            new_g.nodes@[i].id == old_g.nodes@[i].id,
            new_g.nodes@[i].is_actor == old_g.nodes@[i].is_actor,
            new_g.nodes@[i].name == old_g.nodes@[i].name,
            new_g.nodes@[i].edges@ == old_g.nodes@[i].edges@.push(j),
        ensures
            forall|a: bool, k: Seq<char>| #[trigger] new_g.has(a, k) == old_g.has(a, k),
            forall|a: bool, k: Seq<char>| #[trigger] new_g.name_of(a, k) == old_g.name_of(a, k),
            forall|a: bool, k: Seq<char>|
                #[trigger] new_g.neighbors(a, k) == if a == old_g.nodes@[i].is_actor && k == old_g.nodes@[i].id@ {
                    old_g.neighbors(a, k).push(old_g.nodes@[j as int].id@)
                } else {
                    old_g.neighbors(a, k)
                },
    {
        assert forall|a: bool, k: Seq<char>|
            #![trigger new_g.has(a, k)]
            #![trigger new_g.name_of(a, k)]
            #![trigger new_g.neighbors(a, k)]
            new_g.has(a, k) == old_g.has(a, k) && new_g.name_of(a, k) == old_g.name_of(a, k)
            && new_g.neighbors(a, k) == if a == old_g.nodes@[i].is_actor && k == old_g.nodes@[i].id@ {
                old_g.neighbors(a, k).push(old_g.nodes@[j as int].id@)
            } else {
                old_g.neighbors(a, k)
            } by {
            if a == old_g.nodes@[i].is_actor && k == old_g.nodes@[i].id@ {
                assert(old_g.is_node(i, a, k));
            }
            if old_g.has(a, k) {
                let x = old_g.index_of(a, k);
                assert(old_g.is_node(x, a, k));
                assert(new_g.is_node(x, a, k));
                new_g.lemma_index_of(x, a, k);
                let es = old_g.nodes@[x].edges@;
                assert forall|e: int| 0 <= e < es.len() implies new_g.nodes@[es[e] as int].id
                    == old_g.nodes@[es[e] as int].id by {
                    assert(old_g.nodes@[x].edges@[e] == es[e]);
                }
                if x == i {
                    old_g.lemma_index_of(i, a, k);
                    assert(new_g.nodes@[j as int].id == old_g.nodes@[j as int].id);
                    let ns = es.push(j);
                    assert(new_g.nodes@[x].edges@ == ns);
                    assert forall|e: int| 0 <= e < ns.len() implies new_g.nodes@[ns[e] as int].id@
                        == (#[trigger] old_g.ids_of(es).push(old_g.nodes@[j as int].id@)[e]) by {
                        if e < es.len() {
                            assert(ns[e] == es[e]);
                            assert(new_g.nodes@[es[e] as int].id == old_g.nodes@[es[e] as int].id);
                        } else {
                            assert(ns[e] == j);
                        }
                    }
                    assert(new_g.ids_of(es.push(j)) =~= old_g.ids_of(es).push(old_g.nodes@[j as int].id@));
                } else {
                    if a == old_g.nodes@[i].is_actor && k == old_g.nodes@[i].id@ {
                        assert(old_g.nodes@[x].id@ == old_g.nodes@[i].id@);
                    }
                    assert(new_g.ids_of(es) =~= old_g.ids_of(es));
                }
            } else if new_g.has(a, k) {
                let x = new_g.index_of(a, k);
                assert(new_g.is_node(x, a, k));
                assert(old_g.is_node(x, a, k));
            }
        }
    }

    /// Finds the vertex of this kind and id, appending it without name or
    /// edges if it is absent.
    fn find_or_add(&mut self, is_actor: bool, id: String) -> (r: usize)
        requires
            old(self).wf(),
        ensures
            final(self).wf(),
            final(self).is_node(r as int, is_actor, id@),
            final(self).diagnostics == old(self).diagnostics,
            final(self).nodes@.len() == old(self).nodes@.len() || (final(self).nodes@.len()
                == old(self).nodes@.len() + 1 && r == old(self).nodes@.len()),
            forall|i: int| 0 <= i < old(self).nodes@.len() ==> #[trigger] final(self).nodes@[i] == old(self).nodes@[i],
            forall|i: int|
                old(self).nodes@.len() <= i < final(self).nodes@.len() ==> {
                    &&& (#[trigger] final(self).nodes@[i]).name is None
                    &&& final(self).nodes@[i].edges@.len() == 0
                },
    {
        match self.find(is_actor, &id) {
            Some(i) => i,
            None => {
                let r = self.nodes.len();
                self.nodes.push(Node { id, name: None, is_actor, edges: Vec::new() });
                assert forall|i: int, j: int|
                    0 <= i < self.nodes@.len() && 0 <= j < self.nodes@.len() && i != j
                        && self.nodes@[i].is_actor == self.nodes@[j].is_actor implies #[trigger] self.nodes@[i].id@
                        != #[trigger] self.nodes@[j].id@ by {
                    if i == r as int {
                        assert(!old(self).is_node(j, is_actor, self.nodes@[r as int].id@));
                    } else if j == r as int {
                        assert(!old(self).is_node(i, is_actor, self.nodes@[r as int].id@));
                    }
                }
                assert forall|i: int, e: int|
                    0 <= i < self.nodes@.len() && 0 <= e < self.nodes@[i].edges@.len() implies {
                        let j = #[trigger] self.nodes@[i].edges@[e] as int;
                        &&& j < self.nodes@.len()
                        &&& self.nodes@[j].is_actor != self.nodes@[i].is_actor
                    } by {
                    assert(i < r);
                    assert(self.nodes@[i] == old(self).nodes@[i]);
                    assert(old(self).nodes@[i].edges@[e] == self.nodes@[i].edges@[e]);
                }
                r
            },
        }
    }

    /// Stores `name` as the display name of the vertex `(is_actor, id)`.
    fn set_name(&mut self, is_actor: bool, id: String, name: String)
        requires
            old(self).wf(),
        ensures
            final(self).wf(),
            final(self).diag() == old(self).diag(),
            forall|a: bool, k: Seq<char>|
                #[trigger] final(self).has(a, k) == (old(self).has(a, k) || (a == is_actor && k == id@)),
            forall|a: bool, k: Seq<char>|
                #[trigger] final(self).name_of(a, k) == if a == is_actor && k == id@ {
                    Some(name@)
                } else {
                    old(self).name_of(a, k)
                },
            forall|a: bool, k: Seq<char>| #[trigger] final(self).neighbors(a, k) == old(self).neighbors(a, k),
    {
        let ghost g0 = *self;
        let ghost idv = id@;
        let i = self.find_or_add(is_actor, id);
        let ghost g1 = *self;
        proof { Self::lemma_frame(&g0, &g1, -1); }
        self.nodes[i].name = Some(name);
        assert(self.wf());
        proof { Self::lemma_frame(&g1, self, i as int); }
        assert forall|a: bool, k: Seq<char>|
            #![trigger self.has(a, k)]
            #![trigger self.name_of(a, k)]
            #![trigger self.neighbors(a, k)]
            self.has(a, k) == (g0.has(a, k) || (a == is_actor && k == idv))
            && self.name_of(a, k) == (if a == is_actor && k == idv { Some(name@) } else { g0.name_of(a, k) })
            && self.neighbors(a, k) == g0.neighbors(a, k) by {
            if a == is_actor && k == idv {
                self.lemma_index_of(i as int, a, k);
            } else if self.has(a, k) {
                let x = self.index_of(a, k);
                assert(self.is_node(x, a, k));
                assert(x != i);
                if x < g0.nodes@.len() {
                    assert(g0.is_node(x, a, k));
                } else {
                    assert(g1.is_node(x, a, k));
                }
            }
        }
    }

    /// Appends `to`, a vertex of the other kind, to the neighbour list of
    /// `(is_actor, from)`.
    fn add_edge(&mut self, is_actor: bool, from: String, to: String)
        requires
            old(self).wf(),
        ensures
            final(self).wf(),
            final(self).diag() == old(self).diag(),
            forall|a: bool, k: Seq<char>|
                #[trigger] final(self).has(a, k) == (old(self).has(a, k) || (a == is_actor && k == from@)
                    || (a != is_actor && k == to@)),
            forall|a: bool, k: Seq<char>| #[trigger] final(self).name_of(a, k) == old(self).name_of(a, k),
            forall|a: bool, k: Seq<char>|
                #[trigger] final(self).neighbors(a, k) == if a == is_actor && k == from@ {
                    old(self).neighbors(a, k).push(to@)
                } else {
                    old(self).neighbors(a, k)
                },
    {
        let ghost g0 = *self;
        let ghost fromv = from@;
        let ghost tov = to@;
        let i = self.find_or_add(is_actor, from);
        let ghost g1 = *self;
        let j = self.find_or_add(!is_actor, to);
        let ghost g2 = *self;
        proof {
            Self::lemma_frame(&g0, &g1, -1);
            Self::lemma_frame(&g1, &g2, -1);
        }
        self.nodes[i].edges.push(j);
        assert(self.wf()) by {
            assert forall|x: int, e: int|
                0 <= x < self.nodes@.len() && 0 <= e < self.nodes@[x].edges@.len() implies {
                    let y = #[trigger] self.nodes@[x].edges@[e] as int;
                    &&& y < self.nodes@.len()
                    &&& self.nodes@[y].is_actor != self.nodes@[x].is_actor
                } by {
                if x != i as int {
                    assert(self.nodes@[x] == g2.nodes@[x]);
                } else if e < g2.nodes@[x].edges@.len() {
                    assert(self.nodes@[x].edges@[e] == g2.nodes@[x].edges@[e]);
                }
            }
        }
        proof { Self::lemma_push_edge(&g2, self, i as int, j); }
        assert forall|a: bool, k: Seq<char>|
            #![trigger self.has(a, k)]
            #![trigger self.name_of(a, k)]
            #![trigger self.neighbors(a, k)]
            self.has(a, k) == (g0.has(a, k) || (a == is_actor && k == fromv) || (a != is_actor && k == tov))
            && self.name_of(a, k) == g0.name_of(a, k)
            && self.neighbors(a, k) == (if a == is_actor && k == fromv {
                g0.neighbors(a, k).push(tov)
            } else {
                g0.neighbors(a, k)
            }) by {
            assert(g2.nodes@[i as int] == g1.nodes@[i as int]);
            assert(g2.is_node(i as int, is_actor, fromv));
            assert(g2.is_node(j as int, !is_actor, tov));
            if a == is_actor && k == fromv {
                g2.lemma_index_of(i as int, a, k);
            } else if a != is_actor && k == tov {
                g2.lemma_index_of(j as int, a, k);
            }
            if g2.has(a, k) && !g0.has(a, k) {
                let x = g2.index_of(a, k);
                assert(g2.is_node(x, a, k));
                if x < g1.nodes@.len() {
                    assert(g1.is_node(x, a, k));
                }
            }
        }
    }

    /// Stores the display name of a title, replacing any earlier one.
    pub fn push_title_vertex(self: &mut ImdbGraph, from: String, to: String)
        requires
            old(self).wf(),
        ensures
            final(self).wf(),
            final(self).diag() == old(self).diag(),
            forall|a: bool, k: Seq<char>|
                #[trigger] final(self).has(a, k) == (old(self).has(a, k) || (!a && k == from@)),
            forall|a: bool, k: Seq<char>|
                #[trigger] final(self).name_of(a, k) == if !a && k == from@ {
                    Some(to@)
                } else {
                    old(self).name_of(a, k)
                },
            forall|a: bool, k: Seq<char>| #[trigger] final(self).neighbors(a, k) == old(self).neighbors(a, k),
    {
        self.set_name(false, from, to);
    }

    /// Stores the display name of a person, replacing any earlier one.
    pub fn push_actor_vertex(self: &mut ImdbGraph, from: String, to: String)
        requires
            old(self).wf(),
        ensures
            final(self).wf(),
            final(self).diag() == old(self).diag(),
            forall|a: bool, k: Seq<char>|
                #[trigger] final(self).has(a, k) == (old(self).has(a, k) || (a && k == from@)),
            forall|a: bool, k: Seq<char>|
                #[trigger] final(self).name_of(a, k) == if a && k == from@ {
                    Some(to@)
                } else {
                    old(self).name_of(a, k)
                },
            forall|a: bool, k: Seq<char>| #[trigger] final(self).neighbors(a, k) == old(self).neighbors(a, k),
    {
        self.set_name(true, from, to);
    }

    /// Appends the person `to` to the neighbour list of the title `from`.
    pub fn push_title_edge(self: &mut ImdbGraph, from: String, to: String)
        requires
            old(self).wf(),
        ensures
            final(self).wf(),
            final(self).diag() == old(self).diag(),
            forall|a: bool, k: Seq<char>|
                #[trigger] final(self).has(a, k) == (old(self).has(a, k) || (!a && k == from@) || (a && k == to@)),
            forall|a: bool, k: Seq<char>| #[trigger] final(self).name_of(a, k) == old(self).name_of(a, k),
            forall|a: bool, k: Seq<char>|
                #[trigger] final(self).neighbors(a, k) == if !a && k == from@ {
                    old(self).neighbors(a, k).push(to@)
                } else {
                    old(self).neighbors(a, k)
                },
    {
        self.add_edge(false, from, to);
    }

    /// Appends the title `to` to the neighbour list of the person `from`.
    pub fn push_actor_edge(self: &mut ImdbGraph, from: String, to: String)
        requires
            old(self).wf(),
        ensures
            final(self).wf(),
            final(self).diag() == old(self).diag(),
            forall|a: bool, k: Seq<char>|
                #[trigger] final(self).has(a, k) == (old(self).has(a, k) || (a && k == from@) || (!a && k == to@)),
            forall|a: bool, k: Seq<char>| #[trigger] final(self).name_of(a, k) == old(self).name_of(a, k),
            forall|a: bool, k: Seq<char>|
                #[trigger] final(self).neighbors(a, k) == if a && k == from@ {
                    old(self).neighbors(a, k).push(to@)
                } else {
                    old(self).neighbors(a, k)
                },
    {
        self.add_edge(true, from, to);
    }
}

/// Failures of a query or of rendering.
#[derive(Debug, Clone, Copy, PartialEq, Eq, Structural)]
pub enum GraphError {
    /// A vertex on a path or a neighbour list has no stored display name.
    NotFound,
    /// The source or the destination of a query is not a person of the graph.
    InvalidQuery,
}

/// Position `i` of a chain from a person holds a person; the others hold titles.
pub open spec fn person_at(i: int) -> bool {
    i % 2 == 0
}

/// A chain of ids that starts at a person and alternates person, title,
/// person, ..., each id a vertex of its kind and each adjacent to the next.
pub open spec fn is_chain(g: &ImdbGraph, p: Seq<Seq<char>>) -> bool {
    &&& p.len() >= 1
    &&& forall|i: int| 0 <= i < p.len() ==> g.has(person_at(i), #[trigger] p[i])
    &&& forall|i: int|
        0 <= i < p.len() - 1 ==> #[trigger] g.neighbors(person_at(i), p[i]).contains(p[i + 1])
}

/// `p` is a chain from the person `s` to the person `d`.
pub open spec fn connects(g: &ImdbGraph, p: Seq<Seq<char>>, s: Seq<char>, d: Seq<char>) -> bool {
    is_chain(g, p) && p[0] == s && p.last() == d && person_at(p.len() - 1)
}

/// The trace `t` belongs to `g` and its path is a chain from `s` to `d`
/// no longer than any other.
pub open spec fn shortest(g: &ImdbGraph, t: &PathTrace, s: Seq<char>, d: Seq<char>) -> bool {
    &&& t.wf_for(g)
    &&& connects(g, t.path(g), s, d)
    &&& forall|p: Seq<Seq<char>>| connects(g, p, s, d) ==> t.path(g).len() <= p.len()
}

/// The result of a successful search: for every reached vertex the vertex
/// it was first reached from, and the two ends of the query.
pub struct PathTrace {
    parent: Vec<Option<usize>>,
    source: usize,
    destination: usize,
    dist: Ghost<Seq<nat>>,
}

impl ImdbGraph {
    spec fn iedge(&self, u: int, v: int) -> bool {
        0 <= u < self.nodes@.len() && exists|e: int|
            0 <= e < self.nodes@[u].edges@.len() && #[trigger] self.nodes@[u].edges@[e] as int == v
    }

    spec fn ipath(&self, p: Seq<int>) -> bool {
        &&& p.len() >= 1
        &&& forall|i: int| 0 <= i < p.len() ==> 0 <= #[trigger] p[i] < self.nodes@.len()
        &&& forall|i: int| 0 <= i < p.len() - 1 ==> #[trigger] self.iedge(p[i], p[i + 1])
    }

    spec fn ids(&self, p: Seq<int>) -> Seq<Seq<char>> {
        p.map_values(|i: int| self.nodes@[i].id@)
    }

    proof fn lemma_prefix(&self, p: Seq<int>, i: int)
        requires
            self.ipath(p),
            0 <= i < p.len(),
        ensures
            self.ipath(p.subrange(0, i + 1)),
    {
        let q = p.subrange(0, i + 1);
        assert forall|j: int| 0 <= j < q.len() - 1 implies #[trigger] self.iedge(q[j], q[j + 1]) by {
            assert(self.iedge(p[j], p[j + 1]));
        }
    }

    /// A path that starts inside a set and ends outside it leaves the set
    /// along one of its edges.
    proof fn lemma_crossing(vis: Seq<bool>, p: Seq<int>) -> (i: int)
        requires
            p.len() >= 1,
            forall|j: int| 0 <= j < p.len() ==> 0 <= #[trigger] p[j] < vis.len(),
            vis[p[0]],
            !vis[p.last()],
        ensures
            0 <= i < p.len() - 1,
            vis[p[i]],
            !vis[p[i + 1]],
        decreases p.len(),
    {
        if vis[p[p.len() - 2]] {
            p.len() - 2
        } else {
            let q = p.drop_last();
            assert(q.last() == p[p.len() - 2]);
            let i = Self::lemma_crossing(vis, q);
            assert(q[i] == p[i] && q[i + 1] == p[i + 1]);
            i
        }
    }

    /// An index path from a person reads as a chain of ids.
    proof fn lemma_ipath_chain(&self, p: Seq<int>)
        requires
            self.wf(),
            self.ipath(p),
            self.nodes@[p[0]].is_actor,
        ensures
            is_chain(self, self.ids(p)),
            forall|i: int| 0 <= i < p.len() ==> self.nodes@[#[trigger] p[i]].is_actor == (person_at(i)),
        decreases p.len(),
    {
        if p.len() > 1 {
            let q = p.drop_last();
            assert(self.ipath(q)) by {
                assert forall|j: int| 0 <= j < q.len() - 1 implies #[trigger] self.iedge(q[j], q[j + 1]) by {
                    assert(self.iedge(p[j], p[j + 1]));
                }
            }
            self.lemma_ipath_chain(q);
            let n = p.len() - 1;
            let u = p[n - 1];
            let v = p[n];
            let m = n - 1;
            assert(self.iedge(p[m], p[m + 1]));
            let e = choose|e: int| 0 <= e < self.nodes@[u].edges@.len() && self.nodes@[u].edges@[e] as int == v;
            assert(self.nodes@[q[n - 1]].is_actor == (person_at(n - 1)));
            assert forall|i: int| 0 <= i < p.len() implies self.nodes@[#[trigger] p[i]].is_actor == (person_at(i)) by {
                if i < n {
                    assert(q[i] == p[i]);
                }
            }
            let ids = self.ids(p);
            let qids = self.ids(q);
            assert forall|i: int| 0 <= i < ids.len() implies self.has(person_at(i), #[trigger] ids[i]) by {
                assert(self.is_node(p[i], person_at(i), ids[i]));
            }
            assert forall|i: int|
                0 <= i < ids.len() - 1 implies #[trigger] self.neighbors(person_at(i), ids[i]).contains(ids[i + 1]) by {
                if i < n - 1 {
                    assert(qids[i] == ids[i] && qids[i + 1] == ids[i + 1]);
                    assert(self.neighbors(person_at(i), qids[i]).contains(qids[i + 1]));
                } else {
                    assert(self.is_node(u, person_at(i), ids[i]));
                    self.lemma_index_of(u, person_at(i), ids[i]);
                    let nb = self.neighbors(person_at(i), ids[i]);
                    assert(nb[e] == ids[i + 1]);
                }
            }
        } else {
            let ids = self.ids(p);
            assert(self.is_node(p[0], true, ids[0]));
        }
    }

    /// A chain of ids from the person at index `s` is read by an index path
    /// of the same length.
    proof fn lemma_chain_ipath(&self, s: int, p: Seq<Seq<char>>) -> (q: Seq<int>)
        requires
            self.wf(),
            is_chain(self, p),
            0 <= s < self.nodes@.len(),
            self.nodes@[s].is_actor,
            p[0] == self.nodes@[s].id@,
        ensures
            self.ipath(q),
            q.len() == p.len(),
            q[0] == s,
            forall|i: int| 0 <= i < q.len() ==> self.is_node(#[trigger] q[i], person_at(i), p[i]),
    {
        let q = Seq::new(p.len(), |i: int| self.index_of(person_at(i), p[i]));
        assert forall|i: int| 0 <= i < q.len() implies self.is_node(#[trigger] q[i], person_at(i), p[i]) by {
            assert(self.has(person_at(i), p[i]));
        }
        assert(self.is_node(s, true, p[0]));
        self.lemma_index_of(s, true, p[0]);
        assert forall|i: int| 0 <= i < q.len() - 1 implies #[trigger] self.iedge(q[i], q[i + 1]) by {
            let a = person_at(i);
            assert(self.is_node(q[i], a, p[i]));
            assert(self.is_node(q[i + 1], person_at(i + 1), p[i + 1]));
            self.lemma_index_of(q[i], a, p[i]);
            let es = self.nodes@[q[i]].edges@;
            assert(self.neighbors(a, p[i]).contains(p[i + 1]));
            let e = choose|e: int| 0 <= e < self.ids_of(es).len() && self.ids_of(es)[e] == p[i + 1];
            let w = es[e] as int;
            assert(self.nodes@[q[i]].edges@[e] == es[e]);
            assert(self.is_node(w, person_at(i + 1), p[i + 1]));
            if w != q[i + 1] {
                assert(self.nodes@[w].id@ == self.nodes@[q[i + 1]].id@);
            }
            assert(es[e] as int == q[i + 1]);
        }
        q
    }
}

/// A sequence of distinct indices below `n` has at most `n` items.
proof fn lemma_distinct_bound(q: Seq<usize>, n: usize)
    requires
        q.no_duplicates(),
        forall|k: int| 0 <= k < q.len() ==> #[trigger] q[k] < n,
    ensures
        q.len() <= n,
{
    let qi = q.map_values(|x: usize| x as int);
    assert(qi.no_duplicates()) by {
        assert forall|a: int, b: int| 0 <= a < qi.len() && 0 <= b < qi.len() && a != b implies qi[a] != qi[b] by {
            assert(q[a] != q[b]);
        }
    }
    qi.unique_seq_to_set();
    vstd::set_lib::lemma_int_range(0, n as int);
    assert(qi.to_set().subset_of(vstd::set_lib::set_int_range(0, n as int))) by {
        assert forall|x: int| qi.to_set().contains(x) implies vstd::set_lib::set_int_range(0, n as int).contains(x) by {
            let k = choose|k: int| 0 <= k < qi.len() && qi[k] == x;
            assert(q[k] < n);
        }
    }
    vstd::set_lib::lemma_len_subset(qi.to_set(), vstd::set_lib::set_int_range(0, n as int));
}

impl PathTrace {
    spec fn reached(&self, v: int) -> bool {
        v == self.source || self.parent@[v] is Some
    }

    /// The trace belongs to `g`: parent pointers follow edges of `g`, each
    /// one step nearer the source, and the destination was reached.
    pub closed spec fn wf_for(&self, g: &ImdbGraph) -> bool {
        let n = g.nodes@.len();
        &&& g.wf()
        &&& self.parent@.len() == n
        &&& self.dist@.len() == n
        &&& self.source < n
        &&& self.destination < n
        &&& g.nodes@[self.source as int].is_actor
        &&& self.dist@[self.source as int] == 0
        &&& self.parent@[self.source as int] is None
        &&& self.reached(self.destination as int)
        &&& forall|v: int|
            0 <= v < n && (#[trigger] self.parent@[v]) is Some ==> {
                let u = self.parent@[v]->Some_0 as int;
                &&& u < n
                &&& g.iedge(u, v)
                &&& self.dist@[v] == self.dist@[u] + 1
                &&& self.reached(u)
            }
    }

    spec fn chain(&self, v: int, n: nat) -> Seq<int>
        decreases n,
    {
        if n == 0 {
            seq![v]
        } else {
            match self.parent@[v] {
                Some(u) => self.chain(u as int, (n - 1) as nat).push(v),
                None => seq![v],
            }
        }
    }

    spec fn ichain(&self) -> Seq<int> {
        self.chain(self.destination as int, self.dist@[self.destination as int])
    }

    /// The ids of the traced path, from the source to the destination.
    pub closed spec fn path(&self, g: &ImdbGraph) -> Seq<Seq<char>> {
        g.ids(self.ichain())
    }

    proof fn lemma_chain(&self, g: &ImdbGraph, v: int)
        requires
            self.wf_for(g),
            0 <= v < g.nodes@.len(),
            self.reached(v),
        ensures
            g.ipath(self.chain(v, self.dist@[v])),
            self.chain(v, self.dist@[v])[0] == self.source,
            self.chain(v, self.dist@[v]).last() == v,
            self.chain(v, self.dist@[v]).len() == self.dist@[v] + 1,
        decreases self.dist@[v],
    {
        let c = self.chain(v, self.dist@[v]);
        if v != self.source {
            assert(self.parent@[v] is Some);
            let u = self.parent@[v]->Some_0 as int;
            self.lemma_chain(g, u);
            let cu = self.chain(u, self.dist@[u]);
            assert(c == cu.push(v));
            assert forall|i: int| 0 <= i < c.len() - 1 implies #[trigger] g.iedge(c[i], c[i + 1]) by {
                if i < cu.len() - 1 {
                    assert(g.iedge(cu[i], cu[i + 1]));
                }
            }
        }
    }
}

impl ImdbGraph {
    /// Breadth-first search from the person `source` to the person
    /// `destination`, alternating persons and titles.
    ///
    /// Returns `Err(InvalidQuery)` when either id is not a person of the
    /// graph, `Ok(None)` when no chain connects them, and otherwise a trace
    /// whose path is a shortest chain between them.
    #[verifier::rlimit(40)]
    pub fn traverse(&self, source: &String, destination: &String) -> (r: Result<Option<PathTrace>, GraphError>)
        requires
            self.wf(),
        ensures
            match r {
                Err(e) => e == GraphError::InvalidQuery && !(self.has(true, source@) && self.has(true, destination@)),
                Ok(None) => self.has(true, source@) && self.has(true, destination@)
                    && forall|p: Seq<Seq<char>>| !connects(self, p, source@, destination@),
                Ok(Some(t)) => self.has(true, source@) && self.has(true, destination@) && shortest(
                    self,
                    &t,
                    source@,
                    destination@,
                ),
            },
    {
        let s = match self.find(true, source) {
            Some(i) => i,
            None => return Err(GraphError::InvalidQuery),
        };
        let d = match self.find(true, destination) {
            Some(i) => i,
            None => return Err(GraphError::InvalidQuery),
        };
        proof {
            self.lemma_index_of(s as int, true, source@);
            self.lemma_index_of(d as int, true, destination@);
        }
        let n = self.nodes.len();
        let mut parent: Vec<Option<usize>> = Vec::new();
        let mut visited: Vec<bool> = Vec::new();
        let mut i: usize = 0;
        while i < n
            invariant
                i <= n,
                n == self.nodes@.len(),
                parent@.len() == i,
                visited@.len() == i,
                forall|v: int| 0 <= v < i ==> #[trigger] parent@[v] == None::<usize>,
                forall|v: int| 0 <= v < i ==> !#[trigger] visited@[v],
            decreases n - i,
        {
            parent.push(None);
            visited.push(false);
            assert(parent@[i as int] is None && !visited@[i as int]);
            i += 1;
        }
        let ghost mut dist: Seq<nat> = Seq::new(n as nat, |v: int| 0nat);
        visited.set(s, true);
        assert(parent@[s as int] is None);
        if s == d {
            let t = PathTrace { parent, source: s, destination: d, dist: Ghost(dist) };
            proof {
                assert(t.wf_for(self));
                assert(t.ichain() == seq![s as int]);
                assert(self.ipath(seq![s as int]));
                self.lemma_ipath_chain(t.ichain());
                assert(t.path(self) =~= seq![source@]);
                assert(connects(self, t.path(self), source@, destination@));
            }
            return Ok(Some(t));
        }
        let mut queue: Vec<usize> = Vec::new();
        queue.push(s);
        let mut head: usize = 0;
        assert forall|v: int| 0 <= v < n && #[trigger] visited@[v] implies exists|k: int|
            0 <= k < queue@.len() && queue@[k] == v by {
            assert(queue@[0] == s);
        }
        while head < queue.len()
            invariant
                n == self.nodes@.len(),
                self.wf(),
                parent@.len() == n,
                visited@.len() == n,
                dist.len() == n,
                s < n,
                d < n,
                s != d,
                self.is_node(s as int, true, source@),
                self.is_node(d as int, true, destination@),
                dist[s as int] == 0,
                parent@[s as int] is None,
                !visited@[d as int],
                forall|v: int| 0 <= v < n ==> #[trigger] visited@[v] == (v == s || parent@[v] is Some),
                forall|v: int|
                    0 <= v < n && (#[trigger] parent@[v]) is Some ==> {
                        let u = parent@[v]->Some_0 as int;
                        &&& u < n
                        &&& self.iedge(u, v)
                        &&& dist[v] == dist[u] + 1
                        &&& visited@[u]
                    },
                head <= queue@.len() <= n,
                queue@.no_duplicates(),
                forall|k: int| 0 <= k < queue@.len() ==> #[trigger] queue@[k] < n && visited@[queue@[k] as int],
                forall|v: int| 0 <= v < n && #[trigger] visited@[v] ==> exists|k: int| 0 <= k < queue@.len() && queue@[k] == v,
                forall|a: int, b: int| 0 <= a <= b < queue@.len() ==> dist[#[trigger] queue@[a] as int] <= dist[#[trigger] queue@[b] as int],
                head < queue@.len() ==> forall|k: int| 0 <= k < queue@.len() ==> dist[#[trigger] queue@[k] as int] <= dist[queue@[head as int] as int] + 1,
                forall|k: int, e: int|
                    0 <= k < head && 0 <= e < self.nodes@[queue@[k] as int].edges@.len() ==> visited@[#[trigger] self.nodes@[queue@[k] as int].edges@[e] as int],
                forall|p: Seq<int>|
                    #[trigger] self.ipath(p) && p[0] == s && visited@[p.last()] ==> dist[p.last()] + 1 <= p.len(),
            decreases n - head,
        {
            let cur = queue[head];
            head += 1;
            let ghost dcur = dist[cur as int];
            let edges = &self.nodes[cur].edges;
            let mut e: usize = 0;
            while e < edges.len()
                invariant
                    n == self.nodes@.len(),
                    self.wf(),
                    edges@ == self.nodes@[cur as int].edges@,
                    e <= edges@.len(),
                    parent@.len() == n,
                    visited@.len() == n,
                    dist.len() == n,
                    s < n,
                    d < n,
                    s != d,
                    self.is_node(s as int, true, source@),
                    self.is_node(d as int, true, destination@),
                    dist[s as int] == 0,
                    parent@[s as int] is None,
                    !visited@[d as int],
                    forall|v: int| 0 <= v < n ==> #[trigger] visited@[v] == (v == s || parent@[v] is Some),
                    forall|v: int|
                        0 <= v < n && (#[trigger] parent@[v]) is Some ==> {
                            let u = parent@[v]->Some_0 as int;
                            &&& u < n
                            &&& self.iedge(u, v)
                            &&& dist[v] == dist[u] + 1
                            &&& visited@[u]
                        },
                    1 <= head <= queue@.len() <= n,
                    queue@.no_duplicates(),
                    cur == queue@[head - 1],
                    dcur == dist[cur as int],
                    forall|k: int| 0 <= k < queue@.len() ==> #[trigger] queue@[k] < n && visited@[queue@[k] as int],
                    forall|v: int| 0 <= v < n && #[trigger] visited@[v] ==> exists|k: int| 0 <= k < queue@.len() && queue@[k] == v,
                    forall|a: int, b: int| 0 <= a <= b < queue@.len() ==> dist[#[trigger] queue@[a] as int] <= dist[#[trigger] queue@[b] as int],
                    forall|k: int| 0 <= k < queue@.len() ==> dist[#[trigger] queue@[k] as int] <= dcur + 1,
                    forall|k: int, x: int|
                        0 <= k < head - 1 && 0 <= x < self.nodes@[queue@[k] as int].edges@.len() ==> visited@[#[trigger] self.nodes@[queue@[k] as int].edges@[x] as int],
                    forall|x: int| 0 <= x < e ==> visited@[#[trigger] edges@[x] as int],
                    forall|p: Seq<int>|
                        #[trigger] self.ipath(p) && p[0] == s && visited@[p.last()] ==> dist[p.last()] + 1 <= p.len(),
                decreases edges@.len() - e,
            {
                let v = edges[e];
                proof {
                    assert(self.nodes@[cur as int].edges@[e as int] == v);
                }
                if !visited[v] {
                    proof {
                        assert forall|p: Seq<int>|
                            #[trigger] self.ipath(p) && p[0] == s && p.last() == v implies dcur + 2 <= p.len() by {
                            let i = Self::lemma_crossing(visited@, p);
                            let k = choose|k: int| 0 <= k < queue@.len() && queue@[k] == p[i];
                            if k < head - 1 {
                                assert(self.iedge(p[i], p[i + 1]));
                                let x = choose|x: int|
                                    0 <= x < self.nodes@[p[i]].edges@.len() && #[trigger] self.nodes@[p[i]].edges@[x] as int == p[i + 1];
                                assert(visited@[self.nodes@[queue@[k] as int].edges@[x] as int]);
                            }
                            assert(dist[queue@[head - 1] as int] <= dist[queue@[k] as int]);
                            self.lemma_prefix(p, i);
                            let pre = p.subrange(0, i + 1);
                            assert(pre.last() == p[i]);
                        }
                    }
                    visited.set(v, true);
                    parent.set(v, Some(cur));
                    proof {
                        dist = dist.update(v as int, dcur + 1);
                    }
                    let ghost q0 = queue@;
                    queue.push(v);
                    proof {
                        assert forall|k: int| 0 <= k < q0.len() implies queue@[k] != v by {
                            assert(queue@[k] == q0[k]);
                        }
                        assert forall|w: int| 0 <= w < n && #[trigger] visited@[w] implies exists|k: int|
                            0 <= k < queue@.len() && queue@[k] == w by {
                            if w == v as int {
                                assert(queue@[q0.len() as int] == v);
                            } else {
                                let k = choose|k: int| 0 <= k < q0.len() && q0[k] == w;
                                assert(queue@[k] == q0[k]);
                            }
                        }
                        lemma_distinct_bound(queue@, n);
                    }
                    if v == d {
                        let t = PathTrace { parent, source: s, destination: d, dist: Ghost(dist) };
                        proof {
                            assert(t.wf_for(self));
                            t.lemma_chain(self, d as int);
                            self.lemma_ipath_chain(t.ichain());
                            assert forall|p: Seq<Seq<char>>|
                                connects(self, p, source@, destination@) implies t.path(self).len() <= p.len() by {
                                let q = self.lemma_chain_ipath(s as int, p);
                                let l = q.len() - 1;
                                assert(self.is_node(q[l], true, destination@));
                                self.lemma_index_of(q[l], true, destination@);
                            }
                        }
                        return Ok(Some(t));
                    }
                }
                e += 1;
            }
        }
        proof {
            assert forall|p: Seq<Seq<char>>| !connects(self, p, source@, destination@) by {
                if connects(self, p, source@, destination@) {
                    let q = self.lemma_chain_ipath(s as int, p);
                    let l = q.len() - 1;
                    assert(self.is_node(q[l], true, destination@));
                    self.lemma_index_of(q[l], true, destination@);
                    let i = Self::lemma_crossing(visited@, q);
                    let k = choose|k: int| 0 <= k < queue@.len() && queue@[k] == q[i];
                    assert(self.iedge(q[i], q[i + 1]));
                    let x = choose|x: int|
                        0 <= x < self.nodes@[q[i]].edges@.len() && #[trigger] self.nodes@[q[i]].edges@[x] as int == q[i + 1];
                    assert(visited@[self.nodes@[queue@[k] as int].edges@[x] as int]);
                }
            }
        }
        Ok(None)
    }
}

/// Display names joined with ", ".
pub open spec fn join(names: Seq<Seq<char>>) -> Seq<char>
    decreases names.len(),
{
    if names.len() == 0 {
        Seq::empty()
    } else if names.len() == 1 {
        names[0]
    } else {
        join(names.drop_last()) + seq![',', ' '] + names.last()
    }
}

/// Every id of the chain `p` has a stored display name.
pub open spec fn all_named(g: &ImdbGraph, p: Seq<Seq<char>>) -> bool {
    forall|i: int| 0 <= i < p.len() ==> (#[trigger] g.name_of(person_at(i), p[i])) is Some
}

/// The display names of the ids of the chain `p`.
pub open spec fn names_of(g: &ImdbGraph, p: Seq<Seq<char>>) -> Seq<Seq<char>> {
    Seq::new(p.len(), |i: int| g.name_of(person_at(i), p[i])->Some_0)
}

impl ImdbGraph {
    spec fn inamed(&self, c: Seq<int>) -> bool {
        forall|i: int| 0 <= i < c.len() ==> (#[trigger] self.nodes@[c[i]]).name is Some
    }

    spec fn inames(&self, c: Seq<int>) -> Seq<Seq<char>> {
        c.map_values(|v: int| self.nodes@[v].name->Some_0@)
    }

    fn render_from(&self, t: &PathTrace, v: usize) -> (r: Result<String, GraphError>)
        requires
            t.wf_for(self),
            v < self.nodes@.len(),
            t.reached(v as int),
        ensures
            ({
                let c = t.chain(v as int, t.dist@[v as int]);
                match r {
                    Ok(s) => self.inamed(c) && s@ == join(self.inames(c)),
                    Err(e) => e == GraphError::NotFound && !self.inamed(c),
                }
            }),
        decreases t.dist@[v as int],
    {
        let ghost c = t.chain(v as int, t.dist@[v as int]);
        proof {
            t.lemma_chain(self, v as int);
        }
        let name = match &self.nodes[v].name {
            Some(nm) => nm.clone(),
            None => {
                assert(self.nodes@[c[c.len() - 1]].name is None);
                return Err(GraphError::NotFound);
            },
        };
        if v == t.source {
            proof {
                assert(t.dist@[v as int] == 0);
                assert(c == seq![v as int]);
                assert(self.inames(c) =~= seq![name@]);
            }
            return Ok(name);
        }
        let u = match t.parent[v] {
            Some(u) => u,
            None => {
                return Err(GraphError::NotFound);
            },
        };
        let ghost cu = t.chain(u as int, t.dist@[u as int]);
        assert(c == cu.push(v as int));
        match self.render_from(t, u) {
            Ok(mut s) => {
                proof {
                    t.lemma_chain(self, u as int);
                    reveal_strlit(", ");
                }
                s.append(", ");
                s.append(name.as_str());
                proof {
                    assert forall|i: int| 0 <= i < c.len() implies (#[trigger] self.nodes@[c[i]]).name is Some by {
                        if i < cu.len() {
                            assert(c[i] == cu[i]);
                        }
                    }
                    assert(self.inames(c) =~= self.inames(cu).push(name@));
                    assert(self.inames(c).drop_last() =~= self.inames(cu));
                    assert(seq![',', ' '] =~= ", "@);
                }
                Ok(s)
            },
            Err(e) => {
                proof {
                    let i = choose|i: int| 0 <= i < cu.len() && (#[trigger] self.nodes@[cu[i]]).name is None;
                    assert(c[i] == cu[i]);
                }
                Err(e)
            },
        }
    }

    proof fn lemma_path_names(&self, t: &PathTrace)
        requires
            t.wf_for(self),
        ensures
                        all_named(self, t.path(self)) == self.inamed(t.ichain()),
            self.inamed(t.ichain()) ==> names_of(self, t.path(self)) == self.inames(t.ichain()),
    {
        let c = t.ichain();
        t.lemma_chain(self, t.destination as int);
        self.lemma_ipath_chain(c);
        let p = t.path(self);
        assert forall|i: int| 0 <= i < c.len() implies self.name_of(person_at(i), #[trigger] p[i]) == opt_view(
            self.nodes@[c[i]].name,
        ) by {
            assert(self.is_node(c[i], person_at(i), p[i]));
            self.lemma_index_of(c[i], person_at(i), p[i]);
        }
        if self.inamed(c) {
            assert(names_of(self, p) =~= self.inames(c));
        } else {
            let i = choose|i: int| 0 <= i < c.len() && (#[trigger] self.nodes@[c[i]]).name is None;
            assert(self.name_of(person_at(i), p[i]) is None);
        }
    }

    /// The display names along the traced path, from the source to the
    /// destination, joined with ", "; `NotFound` when one of them has no
    /// stored name.
    pub fn generate_path(&self, trace: &PathTrace) -> (r: Result<String, GraphError>)
        requires
            trace.wf_for(self),
        ensures
            match r {
                Ok(s) => all_named(self, trace.path(self)) && s@ == join(names_of(self, trace.path(self))),
                Err(e) => e == GraphError::NotFound && !all_named(self, trace.path(self)),
            },
    {
        proof {
            self.lemma_path_names(trace);
        }
        self.render_from(trace, trace.destination)
    }
}

/// The display names of a neighbour list of a person: titles.
pub open spec fn title_names(g: &ImdbGraph, ids: Seq<Seq<char>>) -> Seq<Seq<char>> {
    Seq::new(ids.len(), |i: int| g.name_of(false, ids[i])->Some_0)
}

impl ImdbGraph {
    /// The names of the titles of the person `key`, joined with ", ";
    /// `None` when the person has no recorded edges, `NotFound` when one of
    /// the titles has no stored name.
    pub fn print_edges(self: &ImdbGraph, key: &String) -> (r: Result<Option<String>, GraphError>)
        requires
            self.wf(),
        ensures
            ({
                let nb = self.neighbors(true, key@);
                let named = forall|i: int| 0 <= i < nb.len() ==> (#[trigger] self.name_of(false, nb[i])) is Some;
                match r {
                    Ok(None) => nb.len() == 0,
                    Ok(Some(s)) => nb.len() > 0 && named && s@ == join(title_names(self, nb)),
                    Err(e) => e == GraphError::NotFound && nb.len() > 0 && !named,
                }
            }),
    {
        let i = match self.find(true, key) {
            Some(i) => i,
            None => return Ok(None),
        };
        proof {
            self.lemma_index_of(i as int, true, key@);
        }
        let edges = &self.nodes[i].edges;
        let ghost nb = self.neighbors(true, key@);
        if edges.len() == 0 {
            return Ok(None);
        }
        let mut out = String::new();
        let mut e: usize = 0;
        proof {
            reveal_strlit(", ");
            assert(seq![',', ' '] =~= ", "@);
        }
        while e < edges.len()
            invariant
                self.wf(),
                0 <= i < self.nodes@.len(),
                self.nodes@[i as int].is_actor,
                edges@ == self.nodes@[i as int].edges@,
                nb == self.ids_of(edges@),
                nb.len() == edges@.len(),
                nb == self.neighbors(true, key@),
                e <= edges@.len(),
                edges@.len() > 0,
                seq![',', ' '] == ", "@,
                forall|x: int| 0 <= x < e ==> (#[trigger] self.name_of(false, nb[x])) is Some,
                out@ == join(title_names(self, nb.subrange(0, e as int))),
            decreases edges@.len() - e,
        {
            let j = edges[e];
            proof {
                assert(self.nodes@[i as int].edges@[e as int] == j);
                assert(nb[e as int] == self.nodes@[j as int].id@);
                assert(self.is_node(j as int, false, nb[e as int]));
                self.lemma_index_of(j as int, false, nb[e as int]);
            }
            match &self.nodes[j].name {
                Some(nm) => {
                    let ghost before = out@;
                    if e > 0 {
                        out.append(", ");
                    }
                    out.append(nm.as_str());
                    proof {
                        let ns = title_names(self, nb.subrange(0, e + 1));
                        assert(ns.drop_last() =~= title_names(self, nb.subrange(0, e as int)));
                        assert(ns.last() == nm@);
                        if e == 0 {
                            assert(ns.len() == 1);
                        }
                    }
                },
                None => {
                    assert(self.name_of(false, nb[e as int]) is None);
                    return Err(GraphError::NotFound);
                },
            }
            e += 1;
        }
        assert(nb.subrange(0, e as int) =~= nb);
        Ok(Some(out))
    }

    /// The ids of the persons whose display name equals `keyword` exactly,
    /// each once; `None` when there is none.
    pub fn match_actors(self: &ImdbGraph, keyword: &str) -> (r: Option<Vec<String>>)
        requires
            self.wf(),
        ensures
            match r {
                None => forall|k: Seq<char>| self.name_of(true, k) != Some(keyword@),
                Some(v) => {
                    &&& v@.len() > 0
                    &&& v.deep_view().no_duplicates()
                    &&& forall|k: Seq<char>|
                        #[trigger] v.deep_view().contains(k) <==> self.name_of(true, k) == Some(keyword@)
                },
            },
    {
        let kw = keyword.to_owned();
        let mut out: Vec<String> = Vec::new();
        let mut i: usize = 0;
        while i < self.nodes.len()
            invariant
                self.wf(),
                i <= self.nodes@.len(),
                kw@ == keyword@,
                out.deep_view().no_duplicates(),
                forall|k: Seq<char>|
                    #[trigger] out.deep_view().contains(k) <==> exists|j: int|
                        0 <= j < i && self.is_node(j, true, k) && opt_view(self.nodes@[j].name) == Some(keyword@),
            decreases self.nodes@.len() - i,
        {
            let n = &self.nodes[i];
            let hit = n.is_actor && match &n.name {
                Some(nm) => *nm == kw,
                None => false,
            };
            let ghost old_out = out.deep_view();
            if !hit {
                assert(out.deep_view() == old_out);
            }
            if hit {
                let id = n.id.clone();
                proof {
                    assert forall|x: int| 0 <= x < old_out.len() implies old_out[x] != id@ by {
                        assert(old_out.contains(old_out[x]));
                        let j = choose|j: int|
                            0 <= j < i && self.is_node(j, true, old_out[x]) && opt_view(self.nodes@[j].name) == Some(keyword@);
                        assert(self.nodes@[j].id@ != self.nodes@[i as int].id@);
                    }
                }
                out.push(id);
                proof {
                    assert(out.deep_view() =~= old_out.push(id@));
                }
            }
            proof {
                assert forall|k: Seq<char>|
                    #[trigger] out.deep_view().contains(k) <==> exists|j: int|
                        0 <= j < i + 1 && self.is_node(j, true, k) && opt_view(self.nodes@[j].name) == Some(keyword@) by {
                    let ex = exists|j: int|
                        0 <= j < i + 1 && self.is_node(j, true, k) && opt_view(self.nodes@[j].name) == Some(keyword@);
                    if out.deep_view().contains(k) {
                        let x = choose|x: int| 0 <= x < out.deep_view().len() && out.deep_view()[x] == k;
                        if x < old_out.len() {
                            assert(old_out[x] == k);
                            assert(old_out.contains(k));
                        } else {
                            assert(self.is_node(i as int, true, k));
                        }
                        assert(ex);
                    }
                    if ex {
                        let j = choose|j: int|
                            0 <= j < i + 1 && self.is_node(j, true, k) && opt_view(self.nodes@[j].name) == Some(keyword@);
                        if j < i {
                            assert(old_out.contains(k));
                            let x = choose|x: int| 0 <= x < old_out.len() && old_out[x] == k;
                            assert(out.deep_view()[x] == k);
                        } else {
                            assert(hit);
                            assert(out.deep_view()[out.deep_view().len() - 1] == k);
                        }
                        assert(out.deep_view().contains(k));
                    }
                }
            }
            i += 1;
        }
        proof {
            assert forall|k: Seq<char>|
                (exists|j: int| 0 <= j < i && self.is_node(j, true, k) && opt_view(self.nodes@[j].name) == Some(keyword@))
                    <==> self.name_of(true, k) == Some(keyword@) by {
                if exists|j: int| 0 <= j < i && self.is_node(j, true, k) && opt_view(self.nodes@[j].name) == Some(keyword@) {
                    let j = choose|j: int| 0 <= j < i && self.is_node(j, true, k) && opt_view(self.nodes@[j].name) == Some(keyword@);
                    self.lemma_index_of(j, true, k);
                }
                if self.name_of(true, k) == Some(keyword@) {
                    let j = self.index_of(true, k);
                    assert(self.is_node(j, true, k));
                }
            }
        }
        if out.len() == 0 {
            proof {
                assert forall|k: Seq<char>| self.name_of(true, k) != Some(keyword@) by {
                    if self.name_of(true, k) == Some(keyword@) {
                        assert(!out.deep_view().contains(k));
                    }
                }
            }
            None
        } else {
            Some(out)
        }
    }
}

impl ImdbGraph {
    /// Replaces the diagnostic tallies, leaving the vertices and edges alone.
    pub(crate) fn set_diagnostics(&mut self, d: Diagnostics)
        requires
            old(self).wf(),
        ensures
            final(self).wf(),
            final(self).diag() == d,
            forall|a: bool, k: Seq<char>| #[trigger] final(self).has(a, k) == old(self).has(a, k),
            forall|a: bool, k: Seq<char>| #[trigger] final(self).name_of(a, k) == old(self).name_of(a, k),
            forall|a: bool, k: Seq<char>| #[trigger] final(self).neighbors(a, k) == old(self).neighbors(a, k),
    {
        let ghost g0 = *self;
        self.diagnostics = d;
        proof {
            Self::lemma_frame(&g0, self, -1);
            assert forall|a: bool, k: Seq<char>| #[trigger] self.has(a, k) == g0.has(a, k) by {
                if self.has(a, k) && !g0.has(a, k) {
                    assert(self.index_of(a, k) < self.nodes@.len());
                }
            }
        }
    }

    /// The diagnostic tallies.
    pub fn diagnostics(&self) -> (r: Diagnostics)
        ensures
            r == self.diag(),
    {
        self.diagnostics
    }

    /// The ids adjacent to the vertex `(is_actor, id)`, in the order the
    /// edges were added; empty when it has no recorded edges.
    pub fn neighbors_of(&self, id: &String, is_actor: bool) -> (r: Vec<String>)
        requires
            self.wf(),
        ensures
            r.deep_view() == self.neighbors(is_actor, id@),
    {
        let mut out: Vec<String> = Vec::new();
        let i = match self.find(is_actor, id) {
            Some(i) => i,
            None => return out,
        };
        proof {
            self.lemma_index_of(i as int, is_actor, id@);
        }
        let edges = &self.nodes[i].edges;
        let mut e: usize = 0;
        while e < edges.len()
            invariant
                self.wf(),
                0 <= i < self.nodes@.len(),
                edges@ == self.nodes@[i as int].edges@,
                e <= edges@.len(),
                out.deep_view() == self.ids_of(edges@).subrange(0, e as int),
            decreases edges@.len() - e,
        {
            let j = edges[e];
            proof {
                assert(self.nodes@[i as int].edges@[e as int] == j);
            }
            let ghost before = out.deep_view();
            out.push(self.nodes[j].id.clone());
            proof {
                assert(out.deep_view() =~= before.push(self.nodes@[j as int].id@));
                assert(self.ids_of(edges@).subrange(0, e + 1) =~= self.ids_of(edges@).subrange(0, e as int).push(
                    self.nodes@[j as int].id@,
                ));
            }
            e += 1;
        }
        assert(self.ids_of(edges@).subrange(0, e as int) =~= self.ids_of(edges@));
        out
    }

    /// The stored display name of the title `id`.
    pub fn title_name(&self, id: &String) -> (r: Option<String>)
        requires
            self.wf(),
        ensures
            opt_view(r) == self.name_of(false, id@),
    {
        self.name(false, id)
    }

    /// The stored display name of the person `id`.
    pub fn actor_name(&self, id: &String) -> (r: Option<String>)
        requires
            self.wf(),
        ensures
            opt_view(r) == self.name_of(true, id@),
    {
        self.name(true, id)
    }

    fn name(&self, is_actor: bool, id: &String) -> (r: Option<String>)
        requires
            self.wf(),
        ensures
            opt_view(r) == self.name_of(is_actor, id@),
    {
        match self.find(is_actor, id) {
            Some(i) => {
                proof {
                    self.lemma_index_of(i as int, is_actor, id@);
                }
                match &self.nodes[i].name {
                    Some(n) => Some(n.clone()),
                    None => None,
                }
            },
            None => None,
        }
    }
}

} // verus!
