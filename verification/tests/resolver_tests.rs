use elm_test::errors::Abort;
use elm_test::module_name::ModuleName;
use elm_test::resolver::{possible_module_names, resolve_module};
use elm_test::source_roots::{CandidateTestFile, SourceRootSet};

fn file(dirs: &[&str], stem: &str) -> CandidateTestFile {
    CandidateTestFile {
        dirs: dirs.iter().map(|d| String::from(*d)).collect(),
        stem: String::from(stem),
    }
}

fn roots(rs: &[&[&str]]) -> SourceRootSet {
    SourceRootSet {
        roots: rs
            .iter()
            .map(|r| r.iter().map(|d| String::from(*d)).collect())
            .collect(),
    }
}

fn rendered(m: &ModuleName) -> String {
    m.render()
}

#[test]
fn single_root_derives_module_name() {
    // SourceDirectory = ["tests"]; CandidateTestFile = tests/Foo/BarTest.<ext>
    let f = file(&["tests", "Foo"], "BarTest");
    let s = roots(&[&["tests"]]);
    let m = resolve_module(&f, &s).unwrap();
    assert_eq!(rendered(&m), "Foo.BarTest");
}

#[test]
fn file_directly_under_root() {
    let f = file(&["tests"], "Foo");
    let s = roots(&[&["tests"]]);
    let m = resolve_module(&f, &s).unwrap();
    assert_eq!(rendered(&m), "Foo");
}

#[test]
fn nested_root_components() {
    let f = file(&["src", "generated", "Deep", "Mod"], "Suite");
    let s = roots(&[&["src", "generated"]]);
    let m = resolve_module(&f, &s).unwrap();
    assert_eq!(rendered(&m), "Deep.Mod.Suite");
}

#[test]
fn no_matching_root_is_unresolvable() {
    let f = file(&["lib"], "X");
    let s = roots(&[&["src"], &["tests"]]);
    match resolve_module(&f, &s) {
        Err(Abort::UnresolvableModule) => {}
        _ => panic!("expected UnresolvableModule"),
    }
}

#[test]
fn conflicting_roots_are_ambiguous_listing_all_candidates() {
    // Two roots explain the file with different remainders: the project
    // root itself and its tests directory.
    let f = file(&["tests"], "Foo");
    let s = roots(&[&[], &["tests"]]);
    match resolve_module(&f, &s) {
        Err(Abort::AmbiguousModule(candidates)) => {
            assert_eq!(candidates.len(), 2);
            assert_eq!(rendered(&candidates[0]), "tests.Foo");
            assert_eq!(rendered(&candidates[1]), "Foo");
        }
        _ => panic!("expected AmbiguousModule"),
    }
}

#[test]
fn duplicate_roots_with_equal_names_resolve() {
    // Duplicate source roots derive the same name: one resolution, no error.
    let f = file(&["tests"], "Foo");
    let s = roots(&[&["tests"], &["tests"]]);
    let m = resolve_module(&f, &s).unwrap();
    assert_eq!(rendered(&m), "Foo");
}

#[test]
fn resolving_twice_is_identical() {
    let f = file(&["tests", "A"], "B");
    let s = roots(&[&["tests"]]);
    let first = resolve_module(&f, &s).unwrap();
    let second = resolve_module(&f, &s).unwrap();
    assert!(first.is_same(&second));
    assert_eq!(rendered(&first), rendered(&second));
}

#[test]
fn batch_resolution_deduplicates_keeping_first_order() {
    let fs = vec![
        file(&["tests", "A"], "One"),
        file(&["tests", "B"], "Two"),
        file(&["tests", "A"], "One"),
    ];
    let s = roots(&[&["tests"]]);
    let ms = possible_module_names(&fs, &s).unwrap();
    let names: Vec<String> = ms.iter().map(rendered).collect();
    assert_eq!(names, vec![String::from("A.One"), String::from("B.Two")]);
}

#[test]
fn declared_roots_are_deduplicated_in_order() {
    let declared = vec![
        vec![String::from("src")],
        vec![String::from("tests")],
        vec![String::from("src")],
    ];
    let s = SourceRootSet::from_declared(declared);
    assert_eq!(
        s.roots,
        vec![vec![String::from("src")], vec![String::from("tests")]]
    );
}

#[test]
fn batch_resolution_fails_on_first_bad_file() {
    let fs = vec![file(&["tests"], "Good"), file(&["elsewhere"], "Bad")];
    let s = roots(&[&["tests"]]);
    match possible_module_names(&fs, &s) {
        Err(Abort::UnresolvableModule) => {}
        _ => panic!("expected UnresolvableModule"),
    }
}
