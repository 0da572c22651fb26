use mu::coqdep::{CoqDep, Extraction};
use mu::dependencies::Dependencies;
use mu::error::Error;
use mu::invocation::{Action, Output};
use mu::package::{Entry, Package};

fn names(list: &[&str]) -> Vec<String> {
    list.iter().map(|s| s.to_string()).collect()
}

fn file(name: &str) -> Entry {
    Entry::File(name.to_string())
}

fn directory(name: &str, entries: Vec<Entry>) -> Entry {
    Entry::Directory(name.to_string(), entries)
}

fn project(entries: Vec<Entry>) -> Package {
    Package::new("/p", "demo".to_string(), "0.1.0".to_string(), &entries)
}

fn answer(text: &str) -> Output {
    Output { success: true, stdout: text.to_string(), stderr: String::new() }
}

#[test]
fn a_line_gives_its_products_and_their_dependencies() {
    let rules = CoqDep::parse_output("a.v : b.v c.v\n").unwrap();
    assert_eq!(rules, vec![(names(&["a.v"]), names(&["b.v", "c.v"]))]);
}

#[test]
fn objects_are_named_by_their_sources() {
    let rules = CoqDep::parse_output("a.vo a.glob a.v.beautified: a.v b.vo dir/c.vo\n").unwrap();
    assert_eq!(rules, vec![(names(&["a.v"]), names(&["a.v", "b.v", "dir/c.v"]))]);
}

#[test]
fn the_rules_come_in_the_order_of_the_lines() {
    let text = "a.vo: a.v\nb.vo b.glob: b.v a.vo\nc.vo: c.v b.vo a.vo";
    let rules = CoqDep::parse_output(text).unwrap();
    assert_eq!(
        rules,
        vec![
            (names(&["a.v"]), names(&["a.v"])),
            (names(&["b.v"]), names(&["b.v", "a.v"])),
            (names(&["c.v"]), names(&["c.v", "b.v", "a.v"])),
        ]
    );
}

#[test]
fn words_are_parted_by_any_run_of_blanks() {
    let rules = CoqDep::parse_output("  a.vo\t\tb.vo :\tc.v   d.v \r\n").unwrap();
    assert_eq!(rules, vec![(names(&["a.v", "b.v"]), names(&["c.v", "d.v"]))]);
}

#[test]
fn a_line_without_a_product_says_nothing() {
    let rules = CoqDep::parse_output("a.glob : a.v\n: b.v\nc.vo :\n").unwrap();
    assert_eq!(rules, vec![(names(&["c.v"]), vec![])]);
}

#[test]
fn the_empty_answer_has_no_rule() {
    assert_eq!(CoqDep::parse_output("").unwrap(), vec![]);
}

#[test]
fn two_colons_in_a_line_are_malformed() {
    assert!(matches!(CoqDep::parse_output("a.vo : b.v : c.v\n"), Err(Error::MalformedLine(0))));
    assert!(matches!(
        CoqDep::parse_output("a.vo : b.v\nc.vo :: d.v\ne.vo : : f.v\n"),
        Err(Error::MalformedLine(1))
    ));
}

#[test]
fn a_line_without_a_colon_is_malformed() {
    assert!(matches!(CoqDep::parse_output("a.vo b.v\n"), Err(Error::MalformedLine(0))));
    assert!(matches!(CoqDep::parse_output("a.vo : b.v\n\n"), Err(Error::MalformedLine(1))));
    assert!(matches!(CoqDep::parse_output("\n"), Err(Error::MalformedLine(0))));
}

#[test]
fn a_word_without_an_extension_is_malformed() {
    assert!(matches!(CoqDep::parse_output("a.vo : Makefile\n"), Err(Error::MalformedLine(0))));
    assert!(matches!(
        CoqDep::parse_output("a.vo : a.v\nb.vo : b.v\nWarning : b.v\n"),
        Err(Error::MalformedLine(2))
    ));
}

#[test]
fn the_error_names_the_first_malformed_line() {
    assert!(matches!(
        CoqDep::parse_output("a.vo: a.v\nb.vo: b\nc.vo: c.v : d.v\n"),
        Err(Error::MalformedLine(1))
    ));
}

#[test]
fn the_analyzer_is_given_the_files_of_the_root() {
    let package = project(vec![file("x.v"), file("notes.txt"), file("y.v")]);
    let call = CoqDep::invoke(&package, 0);
    assert_eq!(call.program, "coqdep");
    assert_eq!(call.arguments, names(&["/p/x.v", "/p/y.v"]));
}

#[test]
fn the_analyzer_is_given_the_names_of_the_directories() {
    let package = project(vec![
        file("top.v"),
        directory("lib", vec![file("a.v"), directory("deep", vec![file("b.v")])]),
        directory("empty", vec![file("readme.md")]),
        directory("util", vec![file("u.v")]),
    ]);
    let deep = CoqDep::invoke(&package, 0);
    assert_eq!(deep.arguments, names(&["-Q", "/p/lib/deep", "", "/p/lib/deep/b.v"]));
    let lib = CoqDep::invoke(&package, 1);
    assert_eq!(
        lib.arguments,
        names(&["-Q", "/p/lib", "", "-R", "/p/lib/deep", "lib.deep", "/p/lib/a.v"])
    );
    let util = CoqDep::invoke(&package, 2);
    assert_eq!(util.arguments, names(&["-Q", "/p/util", "", "/p/util/u.v"]));
    let root = CoqDep::invoke(&package, 3);
    assert_eq!(root.program, "coqdep");
    assert_eq!(
        root.arguments,
        names(&["-R", "/p/lib", "lib", "-R", "/p/util", "util", "/p/top.v"])
    );
}

#[test]
fn answers_from_two_directories_join_one_graph() {
    let package = project(vec![directory("d", vec![file("a.v"), file("b.v")]), file("c.v")]);
    let analyzer = CoqDep { package: &package };
    let (state, first) = analyzer.start();
    assert_eq!(first.arguments, names(&["-Q", "/p/d", "", "/p/d/a.v", "/p/d/b.v"]));
    let (state, action) = analyzer.run(state, &answer("a.v : b.v")).unwrap();
    match action {
        Action::Invoke(call) => assert_eq!(call.arguments, names(&["-R", "/p/d", "d", "/p/c.v"])),
        Action::Finish => panic!("the root is still to be analyzed"),
    }
    let (state, action) = analyzer.run(state, &answer("b.v : c.v")).unwrap();
    assert!(matches!(action, Action::Finish));
    assert_eq!(state.place, 2);
    assert!(state.graph.is_dependent("a.v", "c.v"));
    assert!(!state.graph.is_dependent("c.v", "a.v"));
}

#[test]
fn an_analyzer_that_fails_ends_the_extraction() {
    let package = project(vec![file("a.v")]);
    let analyzer = CoqDep { package: &package };
    let (state, _) = analyzer.start();
    let output = Output {
        success: false,
        stdout: "a.vo : a.v".to_string(),
        stderr: "no such file".to_string(),
    };
    match analyzer.run(state, &output) {
        Err(Error::AnalyzerFailed(stdout, stderr)) => {
            assert_eq!(stdout, "a.vo : a.v");
            assert_eq!(stderr, "no such file");
        }
        other => panic!("{:?}", other),
    }
}

#[test]
fn a_malformed_answer_ends_the_extraction_without_a_graph() {
    let package = project(vec![directory("d", vec![file("a.v")]), file("c.v")]);
    let analyzer = CoqDep { package: &package };
    let state = Extraction { place: 0, graph: Dependencies::empty() };
    let result = analyzer.run(state, &answer("a.vo : a.v\nb.vo : a.vo : c.v\n"));
    assert!(matches!(result, Err(Error::MalformedLine(1))));
}

#[test]
fn a_unit_written_with_a_separator_at_its_end_is_named_without_it() {
    let rules = CoqDep::parse_output("dir/a.vo/ : dir/a.v// b.vo/\n").unwrap();
    assert_eq!(rules, vec![(names(&["dir/a.v"]), names(&["dir/a.v", "b.v"]))]);
}
