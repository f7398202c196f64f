use clawless::context::provider::ContextProvider;
use clawless::dispatch::Resolution;
use clawless::error::ConfigurationError;
use clawless::registry::{Documentation, NodeKind, Record, Registry, Schema};

fn doc(short: &str, long: &str) -> Documentation {
    Documentation {
        short: short.to_string(),
        long: long.to_string(),
    }
}

fn record(
    name: &str,
    parent: &[&str],
    aliases: &[&str],
    kind: NodeKind,
    executor: u64,
) -> Record {
    Record {
        name: name.to_string(),
        parent_path: parent.iter().map(|s| s.to_string()).collect(),
        aliases: aliases.iter().map(|s| s.to_string()).collect(),
        kind,
        doc: doc("", ""),
        schema: Schema { args: Vec::new() },
        executor,
    }
}

fn argv(tokens: &[&str]) -> Vec<String> {
    tokens.iter().map(|s| s.to_string()).collect()
}

#[test]
fn assemble_places_every_record_once() {
    let records = vec![
        record("greet", &[], &[], NodeKind::Leaf, 1),
        record("db", &[], &[], NodeKind::Group, 2),
        record("migrate", &["db"], &[], NodeKind::Leaf, 3),
        record("seed", &["db"], &[], NodeKind::Leaf, 4),
    ];
    let registry = Registry::assemble(records).unwrap();
    assert_eq!(registry.node_count(), 5);
    assert!(registry.check_well_formed());
}

#[test]
fn assemble_rejects_duplicate_sibling_names() {
    let records = vec![
        record("greet", &[], &[], NodeKind::Leaf, 1),
        record("greet", &[], &[], NodeKind::Leaf, 2),
    ];
    match Registry::assemble(records) {
        Err(ConfigurationError::DuplicateName { identifier }) => {
            assert_eq!(identifier, "greet");
        }
        _ => panic!("expected a duplicate name"),
    }
}

#[test]
fn assemble_rejects_an_alias_colliding_with_a_name() {
    let records = vec![
        record("generate", &[], &["g"], NodeKind::Leaf, 1),
        record("g", &[], &[], NodeKind::Leaf, 2),
    ];
    assert!(matches!(
        Registry::assemble(records),
        Err(ConfigurationError::DuplicateName { .. })
    ));
}

#[test]
fn assemble_rejects_a_record_claiming_one_identifier_twice() {
    let records = vec![record("new", &[], &["n", "n"], NodeKind::Leaf, 1)];
    match Registry::assemble(records) {
        Err(ConfigurationError::DuplicateName { identifier }) => {
            assert_eq!(identifier, "n");
        }
        _ => panic!("expected a duplicate name"),
    }
}

#[test]
fn assemble_rejects_a_dangling_parent() {
    let records = vec![record("migrate", &["db"], &[], NodeKind::Leaf, 1)];
    match Registry::assemble(records) {
        Err(ConfigurationError::DanglingParent { parent_path, name }) => {
            assert_eq!(parent_path, argv(&["db"]));
            assert_eq!(name, "migrate");
        }
        _ => panic!("expected a dangling parent"),
    }
}

#[test]
fn assemble_rejects_a_parent_that_is_a_leaf() {
    let records = vec![
        record("greet", &[], &[], NodeKind::Leaf, 1),
        record("loud", &["greet"], &[], NodeKind::Leaf, 2),
    ];
    assert!(matches!(
        Registry::assemble(records),
        Err(ConfigurationError::DanglingParent { .. })
    ));
}

#[test]
fn dispatch_resolves_a_leaf_under_the_root() {
    // One leaf registered directly under the application root group.
    let records = vec![record("greet", &[], &[], NodeKind::Leaf, 7)];
    let registry = Registry::assemble(records).unwrap();
    match registry.resolve(&argv(&["greet"])) {
        Resolution::Resolved {
            executor, leftover, ..
        } => {
            assert_eq!(executor, 7);
            assert!(leftover.is_empty());
        }
        _ => panic!("expected the greet leaf"),
    }
}

#[test]
fn dispatch_walks_a_nested_path() {
    let records = vec![
        record("db", &[], &[], NodeKind::Group, 1),
        record("migrate", &["db"], &[], NodeKind::Leaf, 2),
        record("seed", &["db"], &[], NodeKind::Leaf, 3),
    ];
    let registry = Registry::assemble(records).unwrap();
    match registry.resolve(&argv(&["db", "seed"])) {
        Resolution::Resolved { executor, .. } => assert_eq!(executor, 3),
        _ => panic!("expected the seed leaf"),
    }
}

#[test]
fn dispatch_matches_an_alias_exactly() {
    let records = vec![record("generate", &[], &["g"], NodeKind::Leaf, 9)];
    let registry = Registry::assemble(records).unwrap();
    match registry.resolve(&argv(&["g"])) {
        Resolution::Resolved { executor, .. } => assert_eq!(executor, 9),
        _ => panic!("expected the alias to resolve"),
    }
    assert!(matches!(
        registry.resolve(&argv(&["G"])),
        Resolution::UnknownToken { .. }
    ));
}

#[test]
fn dispatch_reports_a_group_without_a_child_selection() {
    let records = vec![
        record("db", &[], &[], NodeKind::Group, 1),
        record("migrate", &["db"], &[], NodeKind::Leaf, 2),
        record("seed", &["db"], &[], NodeKind::Leaf, 3),
    ];
    let registry = Registry::assemble(records).unwrap();
    match registry.resolve(&argv(&["db"])) {
        Resolution::AmbiguousOrMissingChild {
            node,
            path,
            available,
        } => {
            assert_eq!(path, argv(&["db"]));
            assert_eq!(available, argv(&["migrate", "seed"]));
            assert_eq!(registry.node(node).name, "db");
        }
        _ => panic!("expected a missing child selection"),
    }
}

#[test]
fn dispatch_reports_an_unknown_token_with_its_path() {
    let records = vec![
        record("db", &[], &[], NodeKind::Group, 1),
        record("migrate", &["db"], &[], NodeKind::Leaf, 2),
    ];
    let registry = Registry::assemble(records).unwrap();
    match registry.resolve(&argv(&["db", "dropall"])) {
        Resolution::UnknownToken { path, token } => {
            assert_eq!(path, argv(&["db"]));
            assert_eq!(token, "dropall");
        }
        _ => panic!("expected an unknown token"),
    }
}

#[test]
fn dispatch_reports_the_empty_command_line_at_the_root_group() {
    let records = vec![record("greet", &[], &[], NodeKind::Leaf, 1)];
    let registry = Registry::assemble(records).unwrap();
    match registry.resolve(&argv(&[])) {
        Resolution::AmbiguousOrMissingChild {
            path, available, ..
        } => {
            assert!(path.is_empty());
            assert_eq!(available, argv(&["greet"]));
        }
        _ => panic!("expected the root to require a selection"),
    }
}

#[test]
fn documentation_from_lines_takes_short_from_the_first_line() {
    let lines = vec![
        "This is a test comment".to_string(),
        "with multiple lines".to_string(),
    ];
    let d = Documentation::from_lines(&lines).unwrap();
    assert_eq!(d.short, "This is a test comment");
    assert_eq!(d.long, "This is a test comment\nwith multiple lines");
}

#[test]
fn documentation_from_no_lines_is_absent() {
    assert!(Documentation::from_lines(&Vec::new()).is_none());
}

#[test]
fn assemble_with_no_records_yields_only_the_root() {
    let registry = Registry::assemble(Vec::new()).unwrap();
    assert_eq!(registry.node_count(), 1);
    match registry.resolve(&Vec::new()) {
        Resolution::AmbiguousOrMissingChild {
            path, available, ..
        } => {
            assert!(path.is_empty());
            assert!(available.is_empty());
        }
        _ => panic!("expected the empty root group"),
    }
}

fn greet_handler(args: Vec<String>) -> clawless::error::CommandResult {
    assert!(args.is_empty());
    Ok(())
}

#[test]
fn dispatch_resolves_and_invokes_the_greet_handler() {
    let records = vec![record("greet", &[], &[], NodeKind::Leaf, 1)];
    let registry = Registry::assemble(records).unwrap();
    let store: ContextProvider<String> = ContextProvider::new();
    match registry.resolve(&argv(&["greet"])) {
        Resolution::Resolved {
            executor, leftover, ..
        } => {
            assert_eq!(executor, 1);
            let outcome = store.execute(leftover, greet_handler);
            assert!(matches!(outcome, Ok(Ok(()))));
        }
        _ => panic!("expected the greet leaf"),
    }
}
