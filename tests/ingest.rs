use imdb_graph::graph::ImdbGraph;
use imdb_graph::tsv::{ingest_title_record, process_actors, process_titles};

fn s(x: &str) -> String {
    x.to_string()
}

const TITLES: &str = "tconst\ttitleType\tprimaryTitle\n\
t1\tmovie\tMovie A\n\
t2\tshort\tA Short\n\
t3\tmovie\tMovie B\n";

const PEOPLE: &str = "nconst\tprimaryName\tbirthYear\tdeathYear\tprimaryProfession\tknownForTitles\n\
n1\tAlice\t1970\t\\N\tactress,producer\tt1,t9\n\
n2\tBob\t1960\t\\N\tactor\tt1,t3\n\
n3\tCarol\t1980\t\\N\tactor\tt3\n\
n4\tDirk\t1950\t\\N\tdirector,actor\tt1\n";

#[test]
fn non_movie_title_is_rejected_once() {
    let mut g = ImdbGraph::new();
    process_titles(&mut g, TITLES.as_bytes());
    assert_eq!(g.title_name(&s("t1")), Some(s("Movie A")));
    assert_eq!(g.title_name(&s("t3")), Some(s("Movie B")));
    assert_eq!(g.title_name(&s("t2")), None);
    assert_eq!(g.diagnostics().invalid_titles, 1);
    assert_eq!(g.diagnostics().invalid_title_records, 0);
}

#[test]
fn header_row_is_not_a_title() {
    let mut g = ImdbGraph::new();
    process_titles(&mut g, TITLES.as_bytes());
    assert_eq!(g.title_name(&s("tconst")), None);
}

#[test]
fn malformed_title_rows_are_counted() {
    let mut g = ImdbGraph::new();
    process_titles(&mut g, "a\tb\tc\nt1\tmovie\n".as_bytes());
    assert_eq!(g.diagnostics().invalid_title_records, 1);
    assert_eq!(g.title_name(&s("t1")), None);
    ingest_title_record(&mut g, &None);
    ingest_title_record(&mut g, &Some(vec![s("t5"), s("movie")]));
    assert_eq!(g.diagnostics().invalid_title_records, 3);
    ingest_title_record(&mut g, &Some(vec![s("t5"), s("movie"), s("Five")]));
    assert_eq!(g.title_name(&s("t5")), Some(s("Five")));
}

#[test]
fn actors_are_linked_to_known_movies() {
    let mut g = ImdbGraph::new();
    process_titles(&mut g, TITLES.as_bytes());
    process_actors(&mut g, PEOPLE.as_bytes());
    let d = g.diagnostics();
    assert_eq!(d.invalid_actor_refs, 1);
    assert_eq!(d.invalid_people, 1);
    assert_eq!(d.invalid_actor_records, 0);
    assert_eq!(g.actor_name(&s("n1")), Some(s("Alice")));
    assert_eq!(g.actor_name(&s("n4")), None);
    assert_eq!(g.print_edges(&s("n2")), Ok(Some(s("Movie A, Movie B"))));
    assert_eq!(g.print_edges(&s("n1")), Ok(Some(s("Movie A"))));
    let t = g.traverse(&s("n1"), &s("n3")).unwrap().unwrap();
    assert_eq!(g.generate_path(&t), Ok(s("Alice, Movie A, Bob, Movie B, Carol")));
}

#[test]
fn short_person_rows_are_counted() {
    let mut g = ImdbGraph::new();
    process_actors(&mut g, "a\tb\tc\nn1\tAlice\tx\nn2\tBob\n".as_bytes());
    assert_eq!(g.diagnostics().invalid_actor_records, 2);
}
