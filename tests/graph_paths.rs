use imdb_graph::graph::{Diagnostics, GraphError, ImdbGraph};

fn s(x: &str) -> String {
    x.to_string()
}

fn credit(g: &mut ImdbGraph, person: &str, title: &str) {
    g.push_title_edge(s(title), s(person));
    g.push_actor_edge(s(person), s(title));
}

fn fixture() -> ImdbGraph {
    let mut g = ImdbGraph::new();
    g.push_actor_vertex(s("nm1"), s("Alice"));
    g.push_actor_vertex(s("nm2"), s("Bob"));
    g.push_actor_vertex(s("nm3"), s("Carol"));
    g.push_title_vertex(s("tt1"), s("Movie A"));
    g.push_title_vertex(s("tt2"), s("Movie B"));
    credit(&mut g, "nm1", "tt1");
    credit(&mut g, "nm2", "tt1");
    credit(&mut g, "nm2", "tt2");
    credit(&mut g, "nm3", "tt2");
    g
}

fn render(g: &ImdbGraph, a: &str, b: &str) -> Option<String> {
    match g.traverse(&s(a), &s(b)).unwrap() {
        Some(t) => Some(g.generate_path(&t).unwrap()),
        None => None,
    }
}

#[test]
fn diagnostics_start_at_zero() {
    let d = Diagnostics::new();
    assert_eq!(d.invalid_titles, 0);
    assert_eq!(d.invalid_title_records, 0);
    assert_eq!(d.invalid_people, 0);
    assert_eq!(d.invalid_actor_records, 0);
    assert_eq!(d.invalid_actor_refs, 0);
    assert_eq!(ImdbGraph::new().diagnostics(), d);
}

#[test]
fn end_to_end_four_hops() {
    let g = fixture();
    assert_eq!(render(&g, "nm1", "nm3"), Some(s("Alice, Movie A, Bob, Movie B, Carol")));
}

#[test]
fn end_to_end_two_hops() {
    let g = fixture();
    assert_eq!(render(&g, "nm1", "nm2"), Some(s("Alice, Movie A, Bob")));
}

#[test]
fn reflexive_path_is_the_name_alone() {
    let g = fixture();
    assert_eq!(render(&g, "nm1", "nm1"), Some(s("Alice")));
    assert_eq!(render(&g, "nm3", "nm3"), Some(s("Carol")));
}

#[test]
fn reverse_query_has_same_length() {
    let g = fixture();
    let there = render(&g, "nm1", "nm3").unwrap();
    let back = render(&g, "nm3", "nm1").unwrap();
    assert_eq!(back, s("Carol, Movie B, Bob, Movie A, Alice"));
    assert_eq!(there.split(", ").count(), back.split(", ").count());
}

#[test]
fn shortest_path_beats_a_longer_chain() {
    // A long chain from A to D and a shortcut through one title: the minimum is two hops.
    let mut g = ImdbGraph::new();
    for (id, name) in [("A", "Ann"), ("B", "Ben"), ("C", "Cid"), ("D", "Dee")] {
        g.push_actor_vertex(s(id), s(name));
    }
    for (id, name) in [("tt1", "One"), ("tt2", "Two"), ("tt3", "Three"), ("tt4", "Four")] {
        g.push_title_vertex(s(id), s(name));
    }
    credit(&mut g, "A", "tt1");
    credit(&mut g, "B", "tt1");
    credit(&mut g, "B", "tt2");
    credit(&mut g, "C", "tt2");
    credit(&mut g, "C", "tt3");
    credit(&mut g, "D", "tt3");
    credit(&mut g, "A", "tt4");
    credit(&mut g, "D", "tt4");
    assert_eq!(render(&g, "A", "D"), Some(s("Ann, Four, Dee")));
    assert_eq!(render(&g, "D", "A"), Some(s("Dee, Four, Ann")));
    assert_eq!(render(&g, "A", "C"), Some(s("Ann, One, Ben, Two, Cid")));
}

#[test]
fn path_alternates_persons_and_titles() {
    let g = fixture();
    let path = render(&g, "nm1", "nm3").unwrap();
    let names: Vec<&str> = path.split(", ").collect();
    for (i, n) in names.iter().enumerate() {
        let is_title = n.starts_with("Movie");
        assert_eq!(is_title, i % 2 == 1);
    }
}

#[test]
fn person_without_credits_has_no_path() {
    let mut g = fixture();
    g.push_actor_vertex(s("nm4"), s("Dan"));
    assert_eq!(render(&g, "nm4", "nm1"), None);
    assert_eq!(render(&g, "nm1", "nm4"), None);
}

#[test]
fn disjoint_components_have_no_path() {
    let mut g = fixture();
    g.push_actor_vertex(s("nq1"), s("Eve"));
    g.push_actor_vertex(s("nq2"), s("Fay"));
    g.push_title_vertex(s("tu1"), s("Other"));
    credit(&mut g, "nq1", "tu1");
    credit(&mut g, "nq2", "tu1");
    assert_eq!(render(&g, "nm1", "nq2"), None);
    assert_eq!(render(&g, "nq1", "nq2"), Some(s("Eve, Other, Fay")));
}

#[test]
fn unknown_person_is_an_invalid_query() {
    let g = fixture();
    assert!(matches!(g.traverse(&s("nm9"), &s("nm1")), Err(GraphError::InvalidQuery)));
    assert!(matches!(g.traverse(&s("nm1"), &s("nm9")), Err(GraphError::InvalidQuery)));
    // A title id is not a person.
    assert!(matches!(g.traverse(&s("tt1"), &s("nm1")), Err(GraphError::InvalidQuery)));
}

#[test]
fn unnamed_vertex_on_path_is_not_found() {
    let mut g = ImdbGraph::new();
    g.push_actor_vertex(s("nm1"), s("Alice"));
    g.push_actor_vertex(s("nm2"), s("Bob"));
    credit(&mut g, "nm1", "tt1");
    credit(&mut g, "nm2", "tt1");
    let t = g.traverse(&s("nm1"), &s("nm2")).unwrap().unwrap();
    assert_eq!(g.generate_path(&t), Err(GraphError::NotFound));
}

#[test]
fn match_actors_is_exact() {
    let mut g = fixture();
    g.push_actor_vertex(s("nm5"), s("Bob"));
    let mut m = g.match_actors("Bob").unwrap();
    m.sort();
    assert_eq!(m, vec![s("nm2"), s("nm5")]);
    assert_eq!(g.match_actors("Carol"), Some(vec![s("nm3")]));
    assert_eq!(g.match_actors("Bo"), None);
    assert_eq!(g.match_actors("Movie A"), None);
}

#[test]
fn print_edges_lists_title_names() {
    let mut g = fixture();
    assert_eq!(g.print_edges(&s("nm2")), Ok(Some(s("Movie A, Movie B"))));
    assert_eq!(g.print_edges(&s("nm1")), Ok(Some(s("Movie A"))));
    g.push_actor_vertex(s("nm4"), s("Dan"));
    assert_eq!(g.print_edges(&s("nm4")), Ok(None));
    assert_eq!(g.print_edges(&s("nm9")), Ok(None));
    g.push_actor_edge(s("nm4"), s("tt7"));
    assert_eq!(g.print_edges(&s("nm4")), Err(GraphError::NotFound));
}

#[test]
fn vertex_names_are_replaced() {
    let mut g = ImdbGraph::new();
    g.push_title_vertex(s("tt1"), s("Old"));
    g.push_title_vertex(s("tt1"), s("New"));
    assert_eq!(g.title_name(&s("tt1")), Some(s("New")));
    assert_eq!(g.actor_name(&s("tt1")), None);
    g.push_actor_vertex(s("tt1"), s("Person"));
    assert_eq!(g.actor_name(&s("tt1")), Some(s("Person")));
    assert_eq!(g.title_name(&s("tt1")), Some(s("New")));
}

#[test]
fn neighbors_keep_order_and_direction() {
    let mut g = ImdbGraph::new();
    g.push_actor_edge(s("nm1"), s("tt2"));
    g.push_actor_edge(s("nm1"), s("tt1"));
    g.push_actor_edge(s("nm1"), s("tt2"));
    assert_eq!(g.neighbors_of(&s("nm1"), true), vec![s("tt2"), s("tt1"), s("tt2")]);
    assert_eq!(g.neighbors_of(&s("tt1"), false), Vec::<String>::new());
    assert_eq!(g.neighbors_of(&s("nm1"), false), Vec::<String>::new());
    assert_eq!(g.neighbors_of(&s("zz"), true), Vec::<String>::new());
    g.push_title_edge(s("tt1"), s("nm2"));
    assert_eq!(g.neighbors_of(&s("tt1"), false), vec![s("nm2")]);
}

#[test]
fn one_way_edges_do_not_connect() {
    let mut g = ImdbGraph::new();
    g.push_actor_vertex(s("nm1"), s("Alice"));
    g.push_actor_vertex(s("nm2"), s("Bob"));
    g.push_title_vertex(s("tt1"), s("Movie A"));
    g.push_actor_edge(s("nm1"), s("tt1"));
    g.push_actor_edge(s("nm2"), s("tt1"));
    assert_eq!(render(&g, "nm1", "nm2"), None);
}
