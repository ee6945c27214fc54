use elm_test::errors::Abort;
use elm_test::interface::{
    parse_interface, read_test_interfaces, tests_of_module, ExportedSymbol, ModuleInterface,
};
use elm_test::module_name::ModuleName;

fn module(segments: &[&str]) -> ModuleName {
    ModuleName {
        segments: segments.iter().map(|s| String::from(*s)).collect(),
    }
}

fn artifact(records: &[(&str, &str)]) -> Vec<u8> {
    let mut b: Vec<u8> = vec![69, 76, 77, 73, 0, 1];
    let count = records.len() as u32;
    b.extend_from_slice(&count.to_be_bytes());
    for (name, sig) in records {
        b.extend_from_slice(&(name.len() as u16).to_be_bytes());
        b.extend_from_slice(name.as_bytes());
        b.extend_from_slice(&(sig.len() as u16).to_be_bytes());
        b.extend_from_slice(sig.as_bytes());
    }
    b
}

#[test]
fn parses_empty_artifact() {
    let b = artifact(&[]);
    let syms = parse_interface(&b).unwrap();
    assert!(syms.is_empty());
}

#[test]
fn parses_records_exactly() {
    let b = artifact(&[("all", "Test.Test"), ("helper", "Int -> Int")]);
    let syms = parse_interface(&b).unwrap();
    assert_eq!(syms.len(), 2);
    assert_eq!(syms[0].name, b"all".to_vec());
    assert_eq!(syms[0].signature, b"Test.Test".to_vec());
    assert_eq!(syms[1].name, b"helper".to_vec());
    assert_eq!(syms[1].signature, b"Int -> Int".to_vec());
}

#[test]
fn rejects_short_header() {
    let b: Vec<u8> = vec![69, 76, 77, 73, 0, 1, 0, 0];
    assert!(matches!(parse_interface(&b), Err(Abort::MalformedInterface)));
}

#[test]
fn rejects_bad_tag() {
    let mut b = artifact(&[]);
    b[0] = 88;
    assert!(matches!(parse_interface(&b), Err(Abort::MalformedInterface)));
}

#[test]
fn rejects_version_mismatch() {
    let mut b = artifact(&[]);
    b[5] = 2;
    assert!(matches!(parse_interface(&b), Err(Abort::MalformedInterface)));
}

#[test]
fn rejects_truncated_record() {
    let mut b = artifact(&[("all", "Test.Test")]);
    b.truncate(b.len() - 1);
    assert!(matches!(parse_interface(&b), Err(Abort::MalformedInterface)));
}

#[test]
fn rejects_trailing_bytes() {
    let mut b = artifact(&[("all", "Test.Test")]);
    b.push(0);
    assert!(matches!(parse_interface(&b), Err(Abort::MalformedInterface)));
}

#[test]
fn rejects_wrong_record_count() {
    let mut b = artifact(&[("all", "Test.Test")]);
    b[9] = 2;
    assert!(matches!(parse_interface(&b), Err(Abort::MalformedInterface)));
}

#[test]
fn filters_test_suite_shapes() {
    let syms = vec![
        ExportedSymbol {
            name: b"all".to_vec(),
            signature: b"Test.Test".to_vec(),
        },
        ExportedSymbol {
            name: b"width".to_vec(),
            signature: b"Int".to_vec(),
        },
        ExportedSymbol {
            name: b"run".to_vec(),
            signature: b"() -> Test.Test".to_vec(),
        },
    ];
    let m = module(&["Foo"]);
    let ts = tests_of_module(&m, &syms);
    assert_eq!(ts.len(), 2);
    assert_eq!(ts[0].symbol, b"all".to_vec());
    assert_eq!(ts[1].symbol, b"run".to_vec());
    assert_eq!(ts[0].module.render(), "Foo");
}

#[test]
fn module_without_test_exports_contributes_nothing() {
    let syms = vec![ExportedSymbol {
        name: b"width".to_vec(),
        signature: b"Int".to_vec(),
    }];
    let m = module(&["Foo"]);
    assert!(tests_of_module(&m, &syms).is_empty());
}

#[test]
fn missing_artifact_is_fatal() {
    let mods = vec![ModuleInterface {
        module: module(&["Foo"]),
        artifact: None,
    }];
    assert!(matches!(
        read_test_interfaces(&mods),
        Err(Abort::MissingInterface)
    ));
}

#[test]
fn malformed_artifact_is_fatal() {
    let mods = vec![ModuleInterface {
        module: module(&["Foo"]),
        artifact: Some(vec![1, 2, 3]),
    }];
    assert!(matches!(
        read_test_interfaces(&mods),
        Err(Abort::MalformedInterface)
    ));
}

fn identity_names(mods: Vec<ModuleInterface>) -> Vec<String> {
    let ts = read_test_interfaces(&mods).unwrap();
    ts.iter()
        .map(|t| format!("{} {}", t.module.render(), String::from_utf8(t.symbol.clone()).unwrap()))
        .collect()
}

#[test]
fn discovery_aggregates_in_module_order() {
    let a = ModuleInterface {
        module: module(&["A"]),
        artifact: Some(artifact(&[("one", "Test.Test")])),
    };
    let b = ModuleInterface {
        module: module(&["B"]),
        artifact: Some(artifact(&[("two", "Test.Test"), ("three", "Test.Test")])),
    };
    let names = identity_names(vec![a, b]);
    assert_eq!(names, vec!["A one", "B two", "B three"]);
}

#[test]
fn discovery_set_is_order_independent() {
    let make = |swap: bool| {
        let a = ModuleInterface {
            module: module(&["A"]),
            artifact: Some(artifact(&[("one", "Test.Test")])),
        };
        let b = ModuleInterface {
            module: module(&["B"]),
            artifact: Some(artifact(&[("two", "Test.Test")])),
        };
        if swap {
            vec![b, a]
        } else {
            vec![a, b]
        }
    };
    let mut forward = identity_names(make(false));
    let mut backward = identity_names(make(true));
    forward.sort();
    backward.sort();
    assert_eq!(forward, backward);
}
