use elm_test::errors::Abort;
use elm_test::plan::{
    after_compilation, default_test_files_argument, elm_binary_path_from_compiler_flag,
    gather_test_files, init_if_necessary, plan_compilation, render_path, CanonicalPath,
};
use elm_test::source_roots::{CandidateTestFile, SourceRootSet};

fn file(dirs: &[&str], stem: &str) -> CandidateTestFile {
    CandidateTestFile {
        dirs: dirs.iter().map(|d| String::from(*d)).collect(),
        stem: String::from(stem),
    }
}

fn roots(rs: &[&[&str]]) -> SourceRootSet {
    SourceRootSet {
        roots: rs
            .iter()
            .map(|r| r.iter().map(|d| String::from(*d)).collect())
            .collect(),
    }
}

#[test]
fn default_search_directory_is_tests() {
    assert_eq!(default_test_files_argument(), "tests");
}

#[test]
fn empty_discovery_yields_nothing() {
    assert!(gather_test_files(Vec::new()).is_none());
}

#[test]
fn nonempty_discovery_is_kept_as_is() {
    let found = vec![file(&["tests"], "Foo")];
    let files = gather_test_files(found).unwrap();
    assert_eq!(files.len(), 1);
    assert_eq!(render_path(&files[0]), "tests/Foo.elm");
}

#[test]
fn renders_nested_paths() {
    assert_eq!(
        render_path(&file(&["tests", "Deep", "Sub"], "BarTest")),
        "tests/Deep/Sub/BarTest.elm"
    );
}

#[test]
fn missing_compiler_flag_uses_plain_name() {
    let r = elm_binary_path_from_compiler_flag(None, CanonicalPath::Unresolved).unwrap();
    assert_eq!(r, "elm");
}

#[test]
fn compiler_flag_resolving_to_file_is_used() {
    let r = elm_binary_path_from_compiler_flag(
        Some(String::from("bin/elm")),
        CanonicalPath::Resolved {
            path: String::from("/opt/bin/elm"),
            is_dir: false,
        },
    )
    .unwrap();
    assert_eq!(r, "/opt/bin/elm");
}

#[test]
fn compiler_flag_resolving_to_directory_is_invalid() {
    match elm_binary_path_from_compiler_flag(
        Some(String::from("bin")),
        CanonicalPath::Resolved {
            path: String::from("/opt/bin"),
            is_dir: true,
        },
    ) {
        Err(Abort::InvalidCompilerFlag(flag)) => assert_eq!(flag, "bin"),
        _ => panic!("expected InvalidCompilerFlag"),
    }
}

#[test]
fn unresolvable_compiler_flag_is_invalid() {
    match elm_binary_path_from_compiler_flag(
        Some(String::from("no/such/elm")),
        CanonicalPath::Unresolved,
    ) {
        Err(Abort::InvalidCompilerFlag(flag)) => assert_eq!(flag, "no/such/elm"),
        _ => panic!("expected InvalidCompilerFlag"),
    }
}

#[test]
fn init_is_needed_only_without_test_dependencies() {
    assert!(init_if_necessary(false));
    assert!(!init_if_necessary(true));
}

#[test]
fn empty_candidate_set_aborts_before_any_compile() {
    // No candidate files: NoTestsFound, and no compile command ever exists.
    let files: Vec<CandidateTestFile> = Vec::new();
    let s = roots(&[&["tests"]]);
    match plan_compilation(&files, &s, String::from("elm")) {
        Err(Abort::NoTestsFound) => {}
        _ => panic!("expected NoTestsFound"),
    }
}

#[test]
fn compilation_is_planned_over_exactly_the_discovered_files() {
    let files = vec![file(&["tests", "Foo"], "BarTest"), file(&["tests"], "Baz")];
    let s = roots(&[&["tests"]]);
    let plan = plan_compilation(&files, &s, String::from("elm")).unwrap();
    let names: Vec<String> = plan.modules.iter().map(|m| m.render()).collect();
    assert_eq!(names, vec![String::from("Foo.BarTest"), String::from("Baz")]);
    assert_eq!(plan.command.program, "elm");
    let args: Vec<&str> = plan.command.args.iter().map(|a| a.as_str()).collect();
    assert_eq!(
        args,
        vec![
            "tests/Foo/BarTest.elm",
            "tests/Baz.elm",
            "--emit-interfaces",
            "--no-executable-output",
        ]
    );
}

#[test]
fn unresolvable_file_aborts_the_plan() {
    let files = vec![file(&["elsewhere"], "X")];
    let s = roots(&[&["tests"]]);
    assert!(matches!(
        plan_compilation(&files, &s, String::from("elm")),
        Err(Abort::UnresolvableModule)
    ));
}

#[test]
fn failed_compilation_is_fatal_before_any_artifact() {
    // Compiler exited non-zero: CompilationFailed; nothing downstream runs.
    assert!(matches!(
        after_compilation(true, false),
        Err(Abort::CompilationFailed)
    ));
}

#[test]
fn unspawnable_compiler_is_fatal() {
    assert!(matches!(
        after_compilation(false, false),
        Err(Abort::SpawnFailed)
    ));
}

#[test]
fn clean_build_proceeds() {
    assert!(after_compilation(true, true).is_ok());
}
