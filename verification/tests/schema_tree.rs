use clawless::registry::{Documentation, NodeKind, Record, Registry, Schema};
use clawless::schema::SchemaNode;

fn record(
    name: &str,
    parent: &[&str],
    kind: NodeKind,
    short: &str,
    args: &[&str],
) -> Record {
    Record {
        name: name.to_string(),
        parent_path: parent.iter().map(|s| s.to_string()).collect(),
        aliases: Vec::new(),
        kind,
        doc: Documentation {
            short: short.to_string(),
            long: short.to_string(),
        },
        schema: Schema {
            args: args.iter().map(|s| s.to_string()).collect(),
        },
        executor: 0,
    }
}

fn schema_equal(a: &SchemaNode, b: &SchemaNode) -> bool {
    a.name == b.name
        && a.aliases == b.aliases
        && a.about == b.about
        && a.long_about == b.long_about
        && a.args == b.args
        && a.require_subcommand == b.require_subcommand
        && a.subcommands.len() == b.subcommands.len()
        && a.subcommands
            .iter()
            .zip(b.subcommands.iter())
            .all(|(x, y)| schema_equal(x, y))
}

fn sample_registry() -> Registry {
    let records = vec![
        record("greet", &[], NodeKind::Leaf, "Greet someone", &["name"]),
        record("db", &[], NodeKind::Group, "Database commands", &[]),
        record("migrate", &["db"], NodeKind::Leaf, "Run migrations", &[]),
    ];
    Registry::assemble(records).unwrap()
}

#[test]
fn build_schema_composes_children_in_registration_order() {
    let registry = sample_registry();
    let schema = registry.build_schema();
    assert_eq!(schema.name, "clawless");
    assert!(schema.require_subcommand);
    assert_eq!(schema.subcommands.len(), 2);
    assert_eq!(schema.subcommands[0].name, "greet");
    assert_eq!(schema.subcommands[0].about, "Greet someone");
    assert_eq!(schema.subcommands[0].args, vec!["name".to_string()]);
    assert!(!schema.subcommands[0].require_subcommand);
    assert_eq!(schema.subcommands[1].name, "db");
    assert!(schema.subcommands[1].require_subcommand);
    assert_eq!(schema.subcommands[1].subcommands.len(), 1);
    assert_eq!(schema.subcommands[1].subcommands[0].name, "migrate");
}

#[test]
fn build_schema_twice_yields_identical_trees() {
    let registry = sample_registry();
    let first = registry.build_schema();
    let second = registry.build_schema();
    assert!(schema_equal(&first, &second));
}

#[test]
fn schema_for_follows_a_path_to_a_subtree() {
    let registry = sample_registry();
    let subtree = registry
        .schema_for(&vec!["db".to_string(), "migrate".to_string()])
        .unwrap();
    assert_eq!(subtree.name, "migrate");
    assert_eq!(subtree.about, "Run migrations");
    assert!(subtree.subcommands.is_empty());
}

#[test]
fn schema_for_an_unknown_path_is_absent() {
    let registry = sample_registry();
    assert!(registry.schema_for(&vec!["nope".to_string()]).is_none());
}

#[test]
fn schema_for_the_empty_path_is_the_whole_tree() {
    let registry = sample_registry();
    let whole = registry.schema_for(&Vec::new()).unwrap();
    assert!(schema_equal(&whole, &registry.build_schema()));
}
