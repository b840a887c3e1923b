use vstd::prelude::*;
use crate::graph::{Diagnostics, ImdbGraph};

verus! {

/// The records that the tab-separated reader yields for `bytes`: one per
/// row after the header row, with its fields, or `None` for a row it rejected.
pub uninterp spec fn tsv_records(bytes: Seq<u8>) -> Seq<Option<Seq<Seq<char>>>>;

/// Relies on csv::ReaderBuilder with a tab delimiter and its
/// StringRecordsIter: the rows after the header, as fields, each row that
/// the reader rejects as `None`.
#[verifier::external_body]
fn read_records(bytes: &[u8]) -> (r: Vec<Option<Vec<String>>>)
    ensures
        r.deep_view() == tsv_records(bytes@),
{
    let mut rdr = csv::ReaderBuilder::new().delimiter(b'\t').from_reader(bytes);
    rdr.records().map(|rec| rec.ok().map(|rec| rec.iter().map(|f| f.to_string()).collect())).collect()
}

/// The pieces of `s` between commas, in order; one empty piece for an
/// empty `s`.
pub open spec fn comma_fields(s: Seq<char>) -> Seq<Seq<char>>
    decreases s.len(),
{
    if s.len() == 0 {
        seq![Seq::empty()]
    } else {
        let rest = comma_fields(s.drop_last());
        if s.last() == ',' {
            rest.push(Seq::empty())
        } else {
            rest.update(rest.len() - 1, rest.last().push(s.last()))
        }
    }
}

proof fn lemma_comma_fields_len(s: Seq<char>)
    ensures
        comma_fields(s).len() >= 1,
    decreases s.len(),
{
    if s.len() > 0 {
        lemma_comma_fields_len(s.drop_last());
    }
}

/// Relies on str::split with a ',' pattern: the pieces between commas.
#[verifier::external_body]
fn split_commas(s: &str) -> (r: Vec<String>)
    ensures
        r.deep_view() == comma_fields(s@),
{
    s.split(',').map(|f| f.to_string()).collect()
}

/// A tally raised by one, staying at the largest value.
pub open spec fn bump(x: u32) -> u32 {
    if x == u32::MAX {
        x
    } else {
        (x + 1) as u32
    }
}

fn bumped(x: u32) -> (r: u32)
    ensures
        r == bump(x),
{
    if x < u32::MAX {
        x + 1
    } else {
        x
    }
}

/// `g1` has the vertices, names and edges of `g0`.
pub open spec fn same_graph(g0: &ImdbGraph, g1: &ImdbGraph) -> bool {
    &&& g1.wf()
    &&& forall|a: bool, k: Seq<char>| #[trigger] g1.has(a, k) == g0.has(a, k)
    &&& forall|a: bool, k: Seq<char>| #[trigger] g1.name_of(a, k) == g0.name_of(a, k)
    &&& forall|a: bool, k: Seq<char>| #[trigger] g1.neighbors(a, k) == g0.neighbors(a, k)
}

/// `g1` is `g0` with `name` stored for the vertex `(is_actor, id)`.
pub open spec fn vertex_added(g0: &ImdbGraph, g1: &ImdbGraph, is_actor: bool, id: Seq<char>, name: Seq<char>) -> bool {
    &&& g1.wf()
    &&& g1.diag() == g0.diag()
    &&& forall|a: bool, k: Seq<char>| #[trigger] g1.has(a, k) == (g0.has(a, k) || (a == is_actor && k == id))
    &&& forall|a: bool, k: Seq<char>|
        #[trigger] g1.name_of(a, k) == if a == is_actor && k == id {
            Some(name)
        } else {
            g0.name_of(a, k)
        }
    &&& forall|a: bool, k: Seq<char>| #[trigger] g1.neighbors(a, k) == g0.neighbors(a, k)
}

/// The category of a title row that becomes a title vertex.
pub open spec fn movie() -> Seq<char> {
    seq!['m', 'o', 'v', 'i', 'e']
}

/// The first roles of a person row that becomes a person vertex.
pub open spec fn actor() -> Seq<char> {
    seq!['a', 'c', 't', 'o', 'r']
}

pub open spec fn actress() -> Seq<char> {
    seq!['a', 'c', 't', 'r', 'e', 's', 's']
}

/// The effect of one title row (id, category, name, ...): a movie stores
/// its name; another category raises `invalid_titles`; a rejected or short
/// row raises `invalid_title_records`.
pub open spec fn title_step(g0: &ImdbGraph, g1: &ImdbGraph, rec: Option<Seq<Seq<char>>>) -> bool {
    let d = g0.diag();
    match rec {
        Some(f) => if f.len() < 3 {
            same_graph(g0, g1) && g1.diag() == Diagnostics { invalid_title_records: bump(d.invalid_title_records), ..d }
        } else if f[1] == movie() {
            vertex_added(g0, g1, false, f[0], f[2])
        } else {
            same_graph(g0, g1) && g1.diag() == Diagnostics { invalid_titles: bump(d.invalid_titles), ..d }
        },
        None => same_graph(g0, g1) && g1.diag() == Diagnostics {
            invalid_title_records: bump(d.invalid_title_records),
            ..d
        },
    }
}

/// `g1` follows from `g0` by the title rows `recs`, one after the other.
pub open spec fn titles_ingested(g0: &ImdbGraph, g1: &ImdbGraph, recs: Seq<Option<Seq<Seq<char>>>>) -> bool {
    exists|gs: Seq<ImdbGraph>|
        {
            &&& gs.len() == recs.len() + 1
            &&& gs[0] == *g0
            &&& gs.last() == *g1
            &&& forall|i: int| 0 <= i < recs.len() ==> title_step(&gs[i], &#[trigger] gs[i + 1], recs[i])
        }
}

fn eq_literal(s: &String, lit: &str) -> (r: bool)
    ensures
        r == (s@ == lit@),
{
    let l = String::from_str(lit);
    *s == l
}

/// Applies one title row to the graph.
pub fn ingest_title_record(graph: &mut ImdbGraph, rec: &Option<Vec<String>>)
    requires
        old(graph).wf(),
    ensures
        title_step(old(graph), final(graph), rec.deep_view()),
{
    let d = graph.diagnostics();
    match rec {
        Some(f) => {
            if f.len() < 3 {
                let r = bumped(d.invalid_title_records);
                graph.set_diagnostics(Diagnostics { invalid_title_records: r, ..d });
            } else if eq_literal(&f[1], "movie") {
                proof {
                    reveal_strlit("movie");
                    assert("movie"@ =~= movie());
                }
                graph.push_title_vertex(f[0].clone(), f[2].clone());
            } else {
                proof {
                    reveal_strlit("movie");
                    assert("movie"@ =~= movie());
                }
                let r = bumped(d.invalid_titles);
                graph.set_diagnostics(Diagnostics { invalid_titles: r, ..d });
            }
        },
        None => {
            let r = bumped(d.invalid_title_records);
            graph.set_diagnostics(Diagnostics { invalid_title_records: r, ..d });
        },
    }
}

/// Applies the title rows, in order, to the graph.
pub fn ingest_titles(graph: &mut ImdbGraph, recs: &Vec<Option<Vec<String>>>)
    requires
        old(graph).wf(),
    ensures
        final(graph).wf(),
        titles_ingested(old(graph), final(graph), recs.deep_view()),
{
    let ghost mut gs: Seq<ImdbGraph> = seq![*graph];
    let mut i: usize = 0;
    while i < recs.len()
        invariant
            graph.wf(),
            i <= recs@.len(),
            gs.len() == i + 1,
            gs[0] == *old(graph),
            gs.last() == *graph,
            forall|j: int| 0 <= j < i ==> title_step(&gs[j], &#[trigger] gs[j + 1], recs.deep_view()[j]),
        decreases recs@.len() - i,
    {
        let ghost before = gs;
        ingest_title_record(graph, &recs[i]);
        proof {
            gs = gs.push(*graph);
            assert forall|j: int| 0 <= j < i + 1 implies title_step(&gs[j], &#[trigger] gs[j + 1], recs.deep_view()[j]) by {
                if j < i {
                    assert(gs[j] == before[j] && gs[j + 1] == before[j + 1]);
                }
            }
        }
        i += 1;
    }
    assert(recs.deep_view().len() == recs@.len());
}

/// Reads the title rows of a tab-separated text with a header row and
/// applies them to the graph: each movie row stores the title's name.
pub fn process_titles(graph: &mut ImdbGraph, bytes: &[u8])
    requires
        old(graph).wf(),
    ensures
        final(graph).wf(),
        titles_ingested(old(graph), final(graph), tsv_records(bytes@)),
{
    let recs = read_records(bytes);
    ingest_titles(graph, &recs);
}

/// The effect of one credit of the person `id` in the title `title`: when
/// the title has a stored name, an edge in each direction; otherwise
/// `invalid_actor_refs` is raised.
pub open spec fn credit_step(g0: &ImdbGraph, g1: &ImdbGraph, id: Seq<char>, title: Seq<char>) -> bool {
    let d = g0.diag();
    if g0.name_of(false, title) is Some {
        &&& g1.wf()
        &&& g1.diag() == d
        &&& forall|a: bool, k: Seq<char>|
            #[trigger] g1.has(a, k) == (g0.has(a, k) || (a && k == id) || (!a && k == title))
        &&& forall|a: bool, k: Seq<char>| #[trigger] g1.name_of(a, k) == g0.name_of(a, k)
        &&& forall|a: bool, k: Seq<char>|
            #[trigger] g1.neighbors(a, k) == if a && k == id {
                g0.neighbors(a, k).push(title)
            } else if !a && k == title {
                g0.neighbors(a, k).push(id)
            } else {
                g0.neighbors(a, k)
            }
    } else {
        same_graph(g0, g1) && g1.diag() == Diagnostics { invalid_actor_refs: bump(d.invalid_actor_refs), ..d }
    }
}

/// `g1` follows from `g0` by the credits of the person `id` in the titles
/// `ts`, one after the other, and then by storing the person's name.
pub open spec fn credited(g0: &ImdbGraph, g1: &ImdbGraph, id: Seq<char>, name: Seq<char>, ts: Seq<Seq<char>>) -> bool {
    exists|gs: Seq<ImdbGraph>|
        {
            &&& gs.len() == ts.len() + 1
            &&& gs[0] == *g0
            &&& forall|i: int| 0 <= i < ts.len() ==> credit_step(&gs[i], &#[trigger] gs[i + 1], id, ts[i])
            &&& vertex_added(&gs.last(), g1, true, id, name)
        }
}

/// The effect of one person row (id, name, ..., roles, titles): when the
/// first of the comma-separated roles is "actor" or "actress", a credit for
/// each of the comma-separated titles and then the person's name; with
/// another first role, `invalid_people` is raised; a rejected or short row
/// raises `invalid_actor_records`.
pub open spec fn actor_step(g0: &ImdbGraph, g1: &ImdbGraph, rec: Option<Seq<Seq<char>>>) -> bool {
    let d = g0.diag();
    match rec {
        Some(f) => if f.len() < 6 {
            same_graph(g0, g1) && g1.diag() == Diagnostics { invalid_actor_records: bump(d.invalid_actor_records), ..d }
        } else if comma_fields(f[4])[0] == actor() || comma_fields(f[4])[0] == actress() {
            credited(g0, g1, f[0], f[1], comma_fields(f[5]))
        } else {
            same_graph(g0, g1) && g1.diag() == Diagnostics { invalid_people: bump(d.invalid_people), ..d }
        },
        None => same_graph(g0, g1) && g1.diag() == Diagnostics {
            invalid_actor_records: bump(d.invalid_actor_records),
            ..d
        },
    }
}

/// `g1` follows from `g0` by the person rows `recs`, one after the other.
pub open spec fn actors_ingested(g0: &ImdbGraph, g1: &ImdbGraph, recs: Seq<Option<Seq<Seq<char>>>>) -> bool {
    exists|gs: Seq<ImdbGraph>|
        {
            &&& gs.len() == recs.len() + 1
            &&& gs[0] == *g0
            &&& gs.last() == *g1
            &&& forall|i: int| 0 <= i < recs.len() ==> actor_step(&gs[i], &#[trigger] gs[i + 1], recs[i])
        }
}

fn ingest_credit(graph: &mut ImdbGraph, id: &String, title: &String)
    requires
        old(graph).wf(),
    ensures
        credit_step(old(graph), final(graph), id@, title@),
{
    let d = graph.diagnostics();
    match graph.title_name(title) {
        Some(_) => {
            graph.push_title_edge(title.clone(), id.clone());
            graph.push_actor_edge(id.clone(), title.clone());
        },
        None => {
            let r = bumped(d.invalid_actor_refs);
            graph.set_diagnostics(Diagnostics { invalid_actor_refs: r, ..d });
        },
    }
}

/// Applies one person row to the graph.
pub fn ingest_actor_record(graph: &mut ImdbGraph, rec: &Option<Vec<String>>)
    requires
        old(graph).wf(),
    ensures
        final(graph).wf(),
        actor_step(old(graph), final(graph), rec.deep_view()),
{
    let d = graph.diagnostics();
    match rec {
        Some(f) => {
            if f.len() < 6 {
                let r = bumped(d.invalid_actor_records);
                graph.set_diagnostics(Diagnostics { invalid_actor_records: r, ..d });
                return;
            }
            let roles = split_commas(f[4].as_str());
            proof {
                lemma_comma_fields_len(f[4]@);
                reveal_strlit("actor");
                reveal_strlit("actress");
                assert("actor"@ =~= actor());
                assert("actress"@ =~= actress());
            }
            assert(roles.deep_view()[0] == roles@[0]@);
            if eq_literal(&roles[0], "actor") || eq_literal(&roles[0], "actress") {
                let titles = split_commas(f[5].as_str());
                let ghost ts = titles.deep_view();
                let ghost mut gs: Seq<ImdbGraph> = seq![*graph];
                let mut i: usize = 0;
                while i < titles.len()
                    invariant
                        graph.wf(),
                        i <= titles@.len(),
                        f@.len() >= 6,
                        ts == titles.deep_view(),
                        ts.len() == titles@.len(),
                        gs.len() == i + 1,
                        gs[0] == *old(graph),
                        gs.last() == *graph,
                        forall|j: int| 0 <= j < i ==> credit_step(&gs[j], &#[trigger] gs[j + 1], f@[0]@, ts[j]),
                    decreases titles@.len() - i,
                {
                    let ghost before = gs;
                    ingest_credit(graph, &f[0], &titles[i]);
                    proof {
                        gs = gs.push(*graph);
                        assert(ts[i as int] == titles@[i as int]@);
                        assert forall|j: int| 0 <= j < i + 1 implies credit_step(&gs[j], &#[trigger] gs[j + 1], f@[0]@, ts[j]) by {
                            if j < i {
                                assert(gs[j] == before[j] && gs[j + 1] == before[j + 1]);
                            }
                        }
                    }
                    i += 1;
                }
                graph.push_actor_vertex(f[0].clone(), f[1].clone());
                proof {
                    assert(f.deep_view()[0] == f@[0]@ && f.deep_view()[1] == f@[1]@);
                    assert(f.deep_view()[5] == f@[5]@ && f.deep_view()[4] == f@[4]@);
                }
            } else {
                let r = bumped(d.invalid_people);
                graph.set_diagnostics(Diagnostics { invalid_people: r, ..d });
                proof {
                    assert(f.deep_view()[4] == f@[4]@);
                }
            }
        },
        None => {
            let r = bumped(d.invalid_actor_records);
            graph.set_diagnostics(Diagnostics { invalid_actor_records: r, ..d });
        },
    }
}

/// Applies the person rows, in order, to the graph.
pub fn ingest_actors(graph: &mut ImdbGraph, recs: &Vec<Option<Vec<String>>>)
    requires
        old(graph).wf(),
    ensures
        final(graph).wf(),
        actors_ingested(old(graph), final(graph), recs.deep_view()),
{
    let ghost mut gs: Seq<ImdbGraph> = seq![*graph];
    let mut i: usize = 0;
    while i < recs.len()
        invariant
            graph.wf(),
            i <= recs@.len(),
            gs.len() == i + 1,
            gs[0] == *old(graph),
            gs.last() == *graph,
            forall|j: int| 0 <= j < i ==> actor_step(&gs[j], &#[trigger] gs[j + 1], recs.deep_view()[j]),
        decreases recs@.len() - i,
    {
        let ghost before = gs;
        ingest_actor_record(graph, &recs[i]);
        proof {
            gs = gs.push(*graph);
            assert forall|j: int| 0 <= j < i + 1 implies actor_step(&gs[j], &#[trigger] gs[j + 1], recs.deep_view()[j]) by {
                if j < i {
                    assert(gs[j] == before[j] && gs[j + 1] == before[j + 1]);
                }
            }
        }
        i += 1;
    }
    assert(recs.deep_view().len() == recs@.len());
}

/// Reads the person rows of a tab-separated text with a header row and
/// applies them to the graph: each actor or actress row adds an edge in
/// each direction for every credited title already named, and stores the
/// person's name.
pub fn process_actors(graph: &mut ImdbGraph, bytes: &[u8])
    requires
        old(graph).wf(),
    ensures
        final(graph).wf(),
        actors_ingested(old(graph), final(graph), tsv_records(bytes@)),
{
    let recs = read_records(bytes);
    ingest_actors(graph, &recs);
}

} // verus!
