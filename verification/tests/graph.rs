use mu::coqc::sort_dependencies;
use mu::dependencies::Dependencies;
use mu::error::Error;

fn names(list: &[&str]) -> Vec<String> {
    list.iter().map(|s| s.to_string()).collect()
}

#[test]
fn nothing_depends_in_the_empty_graph() {
    let graph = Dependencies::empty();
    assert!(!graph.is_dependent("a.v", "b.v"));
    assert!(!graph.is_dependent("a.v", "a.v"));
}

#[test]
fn a_product_depends_on_what_it_was_recorded_to_need() {
    let mut graph = Dependencies::empty();
    graph.record("a.v", "b.v");
    assert!(graph.is_dependent("a.v", "b.v"));
    assert!(!graph.is_dependent("b.v", "a.v"));
}

#[test]
fn dependence_goes_through_other_units() {
    let mut graph = Dependencies::empty();
    graph.record("a.v", "b.v");
    graph.record("b.v", "c.v");
    graph.record("c.v", "d.v");
    assert!(graph.is_dependent("a.v", "c.v"));
    assert!(graph.is_dependent("a.v", "d.v"));
    assert!(graph.is_dependent("b.v", "d.v"));
    assert!(!graph.is_dependent("c.v", "a.v"));
    assert!(!graph.is_dependent("d.v", "a.v"));
}

#[test]
fn no_unit_depends_on_itself() {
    let mut graph = Dependencies::empty();
    graph.record("a.v", "b.v");
    graph.record("b.v", "a.v");
    graph.record("c.v", "c.v");
    for unit in ["a.v", "b.v", "c.v", "unknown.v"] {
        assert!(!graph.is_dependent(unit, unit));
    }
}

#[test]
fn a_unit_recorded_to_need_itself_changes_no_dependence() {
    let mut graph = Dependencies::empty();
    graph.record("a.v", "a.v");
    graph.record("b.v", "a.v");
    assert!(graph.is_dependent("b.v", "a.v"));
    assert!(!graph.is_dependent("a.v", "b.v"));
    assert!(!graph.is_dependent("a.v", "a.v"));
}

#[test]
fn the_search_ends_on_a_circle() {
    let mut graph = Dependencies::empty();
    graph.record("a.v", "b.v");
    graph.record("b.v", "c.v");
    graph.record("c.v", "a.v");
    graph.record("d.v", "a.v");
    assert!(graph.is_dependent("a.v", "c.v"));
    assert!(graph.is_dependent("c.v", "a.v"));
    assert!(graph.is_dependent("d.v", "b.v"));
    assert!(!graph.is_dependent("a.v", "d.v"));
    assert!(!graph.is_dependent("a.v", "e.v"));
}

#[test]
fn a_relation_recorded_twice_is_the_same_dependence() {
    let mut graph = Dependencies::empty();
    graph.record("a.v", "b.v");
    graph.record("a.v", "b.v");
    assert!(graph.is_dependent("a.v", "b.v"));
    assert!(!graph.is_dependent("b.v", "a.v"));
}

#[test]
fn unknown_units_depend_on_nothing() {
    let mut graph = Dependencies::empty();
    graph.record("a.v", "b.v");
    assert!(!graph.is_dependent("x.v", "b.v"));
    assert!(!graph.is_dependent("a.v", "x.v"));
    assert!(!graph.is_dependent("x.v", "y.v"));
}

#[test]
fn merging_records_every_product_with_every_dependency() {
    let mut graph = Dependencies::empty();
    graph.merge(&vec![
        (names(&["a.v", "b.v"]), names(&["c.v", "d.v"])),
        (names(&["e.v"]), vec![]),
        (names(&["c.v"]), names(&["f.v"])),
    ]);
    assert!(graph.is_dependent("a.v", "c.v"));
    assert!(graph.is_dependent("a.v", "d.v"));
    assert!(graph.is_dependent("b.v", "c.v"));
    assert!(graph.is_dependent("b.v", "d.v"));
    assert!(graph.is_dependent("a.v", "f.v"));
    assert!(!graph.is_dependent("a.v", "b.v"));
    assert!(!graph.is_dependent("e.v", "c.v"));
    assert!(!graph.is_dependent("d.v", "f.v"));
}

#[test]
fn the_table_says_which_file_depends_on_which() {
    let mut graph = Dependencies::empty();
    graph.record("a.v", "b.v");
    graph.record("b.v", "c.v");
    let table = graph.dependents_among(&names(&["a.v", "c.v", "x.v"]));
    assert_eq!(
        table,
        vec![
            vec![false, false, false],
            vec![true, false, false],
            vec![false, false, false],
        ]
    );
}

#[test]
fn a_file_is_compiled_behind_the_file_it_needs() {
    let mut graph = Dependencies::empty();
    graph.record("a.v", "b.v");
    let mut files = names(&["a.v", "b.v"]);
    assert!(sort_dependencies(&mut files, &graph).is_ok());
    assert_eq!(files, names(&["b.v", "a.v"]));
}

#[test]
fn files_that_need_nothing_keep_their_order() {
    let graph = Dependencies::empty();
    let mut files = names(&["c.v", "a.v", "b.v", "a.v"]);
    assert!(sort_dependencies(&mut files, &graph).is_ok());
    assert_eq!(files, names(&["c.v", "a.v", "b.v", "a.v"]));
    let mut none: Vec<String> = vec![];
    assert!(sort_dependencies(&mut none, &graph).is_ok());
    assert!(none.is_empty());
}

#[test]
fn the_order_follows_dependence_through_files_of_other_directories() {
    let mut graph = Dependencies::empty();
    graph.record("a.v", "lib/m.v");
    graph.record("lib/m.v", "c.v");
    graph.record("b.v", "a.v");
    let mut files = names(&["b.v", "a.v", "d.v", "c.v"]);
    assert!(sort_dependencies(&mut files, &graph).is_ok());
    assert_eq!(files, names(&["d.v", "c.v", "a.v", "b.v"]));
}

#[test]
fn a_chain_given_backwards_is_turned_round() {
    let mut graph = Dependencies::empty();
    graph.record("d.v", "c.v");
    graph.record("c.v", "b.v");
    graph.record("b.v", "a.v");
    let mut files = names(&["d.v", "c.v", "b.v", "a.v"]);
    assert!(sort_dependencies(&mut files, &graph).is_ok());
    assert_eq!(files, names(&["a.v", "b.v", "c.v", "d.v"]));
}

#[test]
fn a_circle_among_the_files_is_an_error() {
    let mut graph = Dependencies::empty();
    graph.record("a.v", "b.v");
    graph.record("b.v", "a.v");
    let mut files = names(&["c.v", "a.v", "b.v"]);
    assert!(matches!(sort_dependencies(&mut files, &graph), Err(Error::Cycle)));
    assert_eq!(files, names(&["c.v", "a.v", "b.v"]));
}

#[test]
fn a_circle_through_a_file_elsewhere_is_an_error_too() {
    let mut graph = Dependencies::empty();
    graph.record("a.v", "x/m.v");
    graph.record("x/m.v", "b.v");
    graph.record("b.v", "a.v");
    let mut files = names(&["a.v", "b.v"]);
    assert!(matches!(sort_dependencies(&mut files, &graph), Err(Error::Cycle)));
}

#[test]
fn a_circle_that_holds_one_of_the_files_only_is_none() {
    let mut graph = Dependencies::empty();
    graph.record("a.v", "x/m.v");
    graph.record("x/m.v", "a.v");
    graph.record("b.v", "a.v");
    let mut files = names(&["b.v", "a.v"]);
    assert!(sort_dependencies(&mut files, &graph).is_ok());
    assert_eq!(files, names(&["a.v", "b.v"]));
}

#[test]
fn recording_makes_both_units_known() {
    let mut graph = Dependencies::empty();
    assert!(!graph.contains("a.v"));
    graph.record("a.v", "b.v");
    assert!(graph.contains("a.v"));
    assert!(graph.contains("b.v"));
    assert!(!graph.contains("c.v"));
    graph.record("c.v", "c.v");
    assert!(graph.contains("c.v"));
}

#[test]
fn dependents_stand_in_the_order_of_their_recording() {
    let mut graph = Dependencies::empty();
    graph.record("b.v", "a.v");
    graph.record("c.v", "a.v");
    graph.record("b.v", "a.v");
    graph.record("a.v", "a.v");
    graph.record("a.v", "d.v");
    assert_eq!(graph.dependents("a.v"), names(&["b.v", "c.v", "b.v"]));
    assert_eq!(graph.dependents("d.v"), names(&["a.v"]));
    assert!(graph.dependents("b.v").is_empty());
    assert!(graph.dependents("unknown.v").is_empty());
}

#[test]
fn a_rule_without_dependencies_records_nothing() {
    let mut graph = Dependencies::empty();
    graph.merge(&vec![(names(&["a.v"]), vec![])]);
    assert!(!graph.contains("a.v"));
}

#[test]
fn merging_appends_to_what_was_recorded() {
    let mut graph = Dependencies::empty();
    graph.merge(&vec![(names(&["b.v"]), names(&["a.v"]))]);
    graph.merge(&vec![(names(&["c.v", "d.v"]), names(&["a.v", "b.v"]))]);
    assert_eq!(graph.dependents("a.v"), names(&["b.v", "c.v", "d.v"]));
    assert_eq!(graph.dependents("b.v"), names(&["c.v", "d.v"]));
}
