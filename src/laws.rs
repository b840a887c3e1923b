use vstd::prelude::*;
use crate::graph::{connects, is_chain, join, names_of, all_named, person_at, shortest, ImdbGraph, PathTrace};

verus! {

/// Every credit is recorded in both directions: a title lists each person
/// who lists it, and the other way round.
pub open spec fn symmetric(g: &ImdbGraph) -> bool {
    forall|a: bool, x: Seq<char>, y: Seq<char>|
        #[trigger] g.neighbors(a, x).contains(y) ==> g.neighbors(!a, y).contains(x)
}

/// A set of vertices, as (is_actor, id), that no edge leaves.
pub open spec fn closed_under_edges(g: &ImdbGraph, c: Set<(bool, Seq<char>)>) -> bool {
    forall|a: bool, x: Seq<char>, y: Seq<char>|
        c.contains((a, x)) && #[trigger] g.neighbors(a, x).contains(y) ==> c.contains((!a, y))
}

/// A person of the graph is connected to itself by the chain of that one
/// id; every shortest path from a person to itself is that chain, and it
/// renders as the person's name alone.
pub proof fn lemma_reflexive(g: &ImdbGraph, x: Seq<char>)
    requires
        g.has(true, x),
    ensures
        connects(g, seq![x], x, x),
        forall|t: PathTrace| #[trigger] shortest(g, &t, x, x) ==> t.path(g) == seq![x],
        forall|t: PathTrace|
            #[trigger] shortest(g, &t, x, x) && g.name_of(true, x) is Some ==> all_named(g, t.path(g)) && join(
                names_of(g, t.path(g)),
            ) == g.name_of(true, x)->Some_0,
{
    let one = seq![x];
    assert(is_chain(g, one)) by {
        assert(g.has(person_at(0), one[0]));
    }
    assert(connects(g, one, x, x));
    assert forall|t: PathTrace| #[trigger] shortest(g, &t, x, x) implies t.path(g) == seq![x] && (g.name_of(true, x) is Some
        ==> all_named(g, t.path(g)) && join(names_of(g, t.path(g))) == g.name_of(true, x)->Some_0) by {
        let p = t.path(g);
        assert(p.len() == 1);
        assert(p =~= one);
        if g.name_of(true, x) is Some {
            assert(g.name_of(person_at(0), p[0]) is Some);
            assert(names_of(g, p).len() == 1);
        }
    }
}

/// In a graph with every credit recorded both ways, a chain read backwards
/// is a chain between the same two persons.
pub proof fn lemma_reverse_chain(g: &ImdbGraph, p: Seq<Seq<char>>, a: Seq<char>, b: Seq<char>)
    requires
        symmetric(g),
        connects(g, p, a, b),
    ensures
        connects(g, p.reverse(), b, a),
{
    let r = p.reverse();
    let n = p.len();
    assert forall|i: int| 0 <= i < r.len() implies g.has(person_at(i), #[trigger] r[i]) by {
        assert(r[i] == p[n - 1 - i]);
        assert(g.has(person_at(n - 1 - i), p[n - 1 - i]));
        assert(person_at(n - 1 - i) == person_at(i));
    }
    assert forall|i: int| 0 <= i < r.len() - 1 implies #[trigger] g.neighbors(person_at(i), r[i]).contains(r[i + 1]) by {
        let j = n - 2 - i;
        assert(r[i] == p[j + 1] && r[i + 1] == p[j]);
        assert(g.neighbors(person_at(j), p[j]).contains(p[j + 1]));
        assert(person_at(j) == !person_at(i));
    }
}

/// In a graph with every credit recorded both ways, the shortest path from
/// `a` to `b` and the shortest path from `b` to `a` have the same length.
pub proof fn lemma_symmetric_length(g: &ImdbGraph, a: Seq<char>, b: Seq<char>, t1: &PathTrace, t2: &PathTrace)
    requires
        symmetric(g),
        shortest(g, t1, a, b),
        shortest(g, t2, b, a),
    ensures
        t1.path(g).len() == t2.path(g).len(),
{
    lemma_reverse_chain(g, t1.path(g), a, b);
    lemma_reverse_chain(g, t2.path(g), b, a);
}

/// In a graph with every credit recorded both ways, `a` is connected to `b`
/// exactly when `b` is connected to `a`.
pub proof fn lemma_symmetric_reach(g: &ImdbGraph, a: Seq<char>, b: Seq<char>)
    requires
        symmetric(g),
    ensures
        (exists|p: Seq<Seq<char>>| connects(g, p, a, b)) <==> (exists|p: Seq<Seq<char>>| connects(g, p, b, a)),
{
    if exists|p: Seq<Seq<char>>| connects(g, p, a, b) {
        let p = choose|p: Seq<Seq<char>>| connects(g, p, a, b);
        lemma_reverse_chain(g, p, a, b);
    }
    if exists|p: Seq<Seq<char>>| connects(g, p, b, a) {
        let p = choose|p: Seq<Seq<char>>| connects(g, p, b, a);
        lemma_reverse_chain(g, p, b, a);
    }
}

/// No chain leaves a set of vertices that no edge leaves: a person in it is
/// connected to no person outside it.
pub proof fn lemma_disconnected(g: &ImdbGraph, c: Set<(bool, Seq<char>)>, x: Seq<char>, y: Seq<char>)
    requires
        closed_under_edges(g, c),
        c.contains((true, x)),
        !c.contains((true, y)),
    ensures
        forall|p: Seq<Seq<char>>| !connects(g, p, x, y),
{
    assert forall|p: Seq<Seq<char>>| !connects(g, p, x, y) by {
        if connects(g, p, x, y) {
            assert forall|i: int| 0 <= i < p.len() implies c.contains((person_at(i), #[trigger] p[i])) by {
                lemma_chain_stays(g, c, p, i);
            }
            assert(c.contains((person_at(p.len() - 1), p[p.len() - 1])));
        }
    }
}

proof fn lemma_chain_stays(g: &ImdbGraph, c: Set<(bool, Seq<char>)>, p: Seq<Seq<char>>, i: int)
    requires
        closed_under_edges(g, c),
        is_chain(g, p),
        c.contains((true, p[0])),
        0 <= i < p.len(),
    ensures
        c.contains((person_at(i), p[i])),
    decreases i,
{
    if i > 0 {
        lemma_chain_stays(g, c, p, i - 1);
        assert(g.neighbors(person_at(i - 1), p[i - 1]).contains(p[(i - 1) + 1]));
        assert(person_at(i) == !person_at(i - 1));
    }
}

/// A person with no credits is connected to no other person.
pub proof fn lemma_no_credits(g: &ImdbGraph, x: Seq<char>, y: Seq<char>)
    requires
        g.neighbors(true, x).len() == 0,
        x != y,
    ensures
        forall|p: Seq<Seq<char>>| !connects(g, p, x, y),
{
    let c = set![(true, x)];
    assert(closed_under_edges(g, c)) by {
        assert forall|a: bool, u: Seq<char>, v: Seq<char>|
            c.contains((a, u)) && #[trigger] g.neighbors(a, u).contains(v) implies c.contains((!a, v)) by {
            assert(a == true && u == x);
        }
    }
    lemma_disconnected(g, c, x, y);
}

} // verus!
