use mu::coqc::{Build, Coqc};
use mu::dependencies::Dependencies;
use mu::error::Error;
use mu::invocation::{Action, Invocation, Output};
use mu::package::{Entry, Package};
use mu::Command;

fn names(list: &[&str]) -> Vec<String> {
    list.iter().map(|s| s.to_string()).collect()
}

fn file(name: &str) -> Entry {
    Entry::File(name.to_string())
}

fn directory(name: &str, entries: Vec<Entry>) -> Entry {
    Entry::Directory(name.to_string(), entries)
}

fn project(entries: Vec<Entry>) -> Package {
    Package::new("/p", "demo".to_string(), "0.1.0".to_string(), &entries)
}

fn answer(text: &str) -> Output {
    Output { success: true, stdout: text.to_string(), stderr: String::new() }
}

fn failure(stdout: &str, stderr: &str) -> Output {
    Output { success: false, stdout: stdout.to_string(), stderr: stderr.to_string() }
}

fn call_of(action: Action) -> Invocation {
    match action {
        Action::Invoke(call) => call,
        Action::Finish => panic!("a call was expected"),
    }
}

#[test]
fn the_only_command_is_build() {
    assert_eq!(Command::Build, Command::Build);
}

#[test]
fn the_compiler_is_given_the_root_without_a_name_of_its_own() {
    let package = project(vec![]);
    let call = Coqc::invoke(&package, "/p", &vec![], &names(&["/p/x.v", "/p/y.v"]));
    assert_eq!(call.program, "coqc");
    assert_eq!(call.arguments, names(&["/p/x.v", "/p/y.v"]));
}

#[test]
fn the_compiler_is_given_the_name_of_the_directory_and_of_those_compiled() {
    let package = project(vec![]);
    let call = Coqc::invoke(
        &package,
        "/p/lib",
        &names(&["/p/util", "/p/lib/deep"]),
        &names(&["/p/lib/a.v"]),
    );
    assert_eq!(
        call.arguments,
        names(&[
            "-R", "/p/lib", "lib", "-R", "/p/util", "util", "-R", "/p/lib/deep", "lib.deep",
            "/p/lib/a.v"
        ])
    );
}

#[test]
fn the_files_of_a_directory_are_compiled_in_their_order() {
    let package = project(vec![file("a.v"), file("b.v")]);
    let mut graph = Dependencies::empty();
    graph.merge(&vec![(names(&["/p/a.v"]), names(&["/p/b.v"]))]);
    let (_, action) = Coqc::plan(&package, graph, 0).unwrap();
    assert_eq!(call_of(action).arguments, names(&["/p/b.v", "/p/a.v"]));
}

#[test]
fn a_build_analyzes_then_compiles_and_stops_at_the_first_failure() {
    let package = project(vec![file("y.v"), file("x.v")]);
    let compiler = Coqc { package: &package };
    let (build, first) = compiler.start();
    assert_eq!(first.program, "coqdep");
    assert_eq!(first.arguments, names(&["/p/y.v", "/p/x.v"]));

    let (build, action) = compiler.run(build, &answer("/p/y.vo : /p/x.v\n")).unwrap();
    let call = call_of(action);
    assert_eq!(call.program, "coqc");
    assert_eq!(call.arguments, names(&["/p/x.v", "/p/y.v"]));

    match compiler.run(build, &failure("", "Error: x.v is broken")) {
        Err(Error::CompilerFailed(stdout, stderr)) => {
            assert_eq!(stdout, "");
            assert_eq!(stderr, "Error: x.v is broken");
        }
        other => panic!("{:?}", other),
    }
}

#[test]
fn a_build_that_meets_no_failure_is_done_behind_the_root() {
    let package = project(vec![file("y.v"), file("x.v")]);
    let compiler = Coqc { package: &package };
    let (build, _) = compiler.start();
    let (build, _) = compiler.run(build, &answer("/p/y.vo : /p/x.v\n")).unwrap();
    let (build, action) = compiler.run(build, &answer("")).unwrap();
    assert!(matches!(action, Action::Finish));
    assert!(matches!(build, Build::Compiling(1, _)));
}

#[test]
fn directories_are_compiled_bottom_up_with_those_before_them_bound() {
    let package = project(vec![
        file("top.v"),
        directory("lib", vec![file("b.v"), directory("deep", vec![file("c.v")]), file("a.v")]),
        directory("util", vec![file("u.v")]),
    ]);
    let compiler = Coqc { package: &package };
    let (build, call) = compiler.start();
    assert_eq!(call.arguments, names(&["-Q", "/p/lib/deep", "", "/p/lib/deep/c.v"]));
    let (build, action) = compiler.run(build, &answer("/p/lib/deep/c.vo : /p/lib/deep/c.v")).unwrap();
    assert_eq!(call_of(action).program, "coqdep");
    let (build, action) = compiler
        .run(build, &answer("/p/lib/b.vo : /p/lib/b.v /p/lib/a.vo\n/p/lib/a.vo : /p/lib/a.v\n"))
        .unwrap();
    assert_eq!(call_of(action).arguments, names(&["-Q", "/p/util", "", "/p/util/u.v"]));
    let (build, action) = compiler.run(build, &answer("")).unwrap();
    assert_eq!(
        call_of(action).arguments,
        names(&["-R", "/p/lib", "lib", "-R", "/p/util", "util", "/p/top.v"])
    );
    assert!(matches!(build, Build::Analyzing(_)));

    let (build, action) = compiler.run(build, &answer("/p/top.vo : /p/top.v /p/lib/a.vo")).unwrap();
    let call = call_of(action);
    assert_eq!(call.program, "coqc");
    assert_eq!(call.arguments, names(&["-R", "/p/lib/deep", "lib.deep", "/p/lib/deep/c.v"]));
    let (build, action) = compiler.run(build, &answer("")).unwrap();
    assert_eq!(
        call_of(action).arguments,
        names(&[
            "-R", "/p/lib", "lib", "-R", "/p/lib/deep", "lib.deep", "/p/lib/a.v", "/p/lib/b.v"
        ])
    );
    let (build, action) = compiler.run(build, &answer("")).unwrap();
    assert_eq!(
        call_of(action).arguments,
        names(&[
            "-R", "/p/util", "util", "-R", "/p/lib/deep", "lib.deep", "-R", "/p/lib", "lib",
            "/p/util/u.v"
        ])
    );
    let (build, action) = compiler.run(build, &answer("")).unwrap();
    assert_eq!(
        call_of(action).arguments,
        names(&[
            "-R", "/p/lib/deep", "lib.deep", "-R", "/p/lib", "lib", "-R", "/p/util", "util",
            "/p/top.v"
        ])
    );
    let (_, action) = compiler.run(build, &answer("")).unwrap();
    assert!(matches!(action, Action::Finish));
}

#[test]
fn an_analyzer_that_fails_ends_the_build() {
    let package = project(vec![file("x.v")]);
    let compiler = Coqc { package: &package };
    let (build, _) = compiler.start();
    assert!(matches!(
        compiler.run(build, &failure("out", "err")),
        Err(Error::AnalyzerFailed(_, _))
    ));
}

#[test]
fn a_malformed_answer_ends_the_build() {
    let package = project(vec![file("x.v")]);
    let compiler = Coqc { package: &package };
    let (build, _) = compiler.start();
    assert!(matches!(
        compiler.run(build, &answer("x.vo : x.v : y.v")),
        Err(Error::MalformedLine(0))
    ));
}

#[test]
fn a_circle_ends_the_build_before_the_compiler_is_called() {
    let package = project(vec![file("x.v"), file("y.v")]);
    let compiler = Coqc { package: &package };
    let (build, _) = compiler.start();
    let result = compiler.run(build, &answer("/p/x.vo : /p/y.v\n/p/y.vo : /p/x.v\n"));
    assert!(matches!(result, Err(Error::Cycle)));
}

#[test]
fn a_circle_in_a_later_directory_ends_the_build_there() {
    let package = project(vec![directory("d", vec![file("a.v")]), file("x.v"), file("y.v")]);
    let compiler = Coqc { package: &package };
    let (build, _) = compiler.start();
    let (build, _) = compiler.run(build, &answer("")).unwrap();
    let (build, action) = compiler
        .run(build, &answer("/p/x.vo : /p/y.v\n/p/y.vo : /p/x.v\n"))
        .unwrap();
    assert_eq!(call_of(action).arguments, names(&["-R", "/p/d", "d", "/p/d/a.v"]));
    assert!(matches!(compiler.run(build, &answer("")), Err(Error::Cycle)));
}

#[test]
fn an_io_error_becomes_an_error_of_the_build() {
    let error = Error::from(std::io::Error::new(std::io::ErrorKind::NotFound, "gone"));
    match error {
        Error::Io(inner) => assert_eq!(inner.kind(), std::io::ErrorKind::NotFound),
        other => panic!("{:?}", other),
    }
}
