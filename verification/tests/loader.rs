use lake::dag::UniqueDag;
use lake::error::{InvalidBlockError, PlanError, ValidationError};
use lake::loader::{
    block_to_recipe, entity_kind, opens_defaults, parse_body, validate_block_type, Attribute,
    Block, EntityKind, Structure,
};
use lake::syntax::{Element, Expression, Value};

fn reference(name: &str) -> Value {
    Value::Template(vec![Element::Interpolation(Expression::Variable(name.to_string()))])
}

fn literal(text: &str) -> Value {
    Value::Template(vec![Element::Literal(text.to_string())])
}

fn block(identifier: &str, labels: &[&str], body: Value) -> Structure {
    Structure::Block(Block {
        identifier: identifier.to_string(),
        labels: labels.iter().map(|label| label.to_string()).collect(),
        body,
    })
}

fn attribute(key: &str, value: Value) -> Structure {
    Structure::Attribute(Attribute { key: key.to_string(), value })
}

fn failure(loaded: Result<UniqueDag, PlanError>) -> Option<PlanError> {
    loaded.err()
}

fn plan(body: Vec<Structure>) -> Vec<String> {
    match lake::loader::plan(body) {
        Ok(visited) => visited,
        Err(e) => panic!("load failed: {}", e.message()),
    }
}

fn strings(names: &[&str]) -> Vec<String> {
    names.iter().map(|name| name.to_string()).collect()
}

fn duplicate(name: &str) -> PlanError {
    PlanError::DuplicateName(ValidationError { message: format!("Found duplicate name {name}") })
}

#[test]
fn kinds_are_command_file_and_store() {
    assert_eq!(entity_kind(&"command".to_string()), Some(EntityKind::Command));
    assert_eq!(entity_kind(&"file".to_string()), Some(EntityKind::File));
    assert_eq!(entity_kind(&"store".to_string()), Some(EntityKind::Store));
    assert_eq!(entity_kind(&"defaults".to_string()), None);
    assert_eq!(entity_kind(&"Command".to_string()), None);
    assert_eq!(entity_kind(&"".to_string()), None);
}

#[test]
fn defaults_identifier_is_recognized() {
    assert!(opens_defaults(&"defaults".to_string()));
    assert!(!opens_defaults(&"default".to_string()));
    assert!(!opens_defaults(&"Defaults".to_string()));
    assert!(!opens_defaults(&"command".to_string()));
}

#[test]
fn valid_block_gives_its_label() {
    for kind in ["command", "file", "store"] {
        let b = Block {
            identifier: kind.to_string(),
            labels: vec!["build".to_string()],
            body: Value::Scalar,
        };
        assert_eq!(validate_block_type(&b), Ok("build".to_string()));
    }
}

#[test]
fn unknown_block_kind_is_refused() {
    let b = Block {
        identifier: "task".to_string(),
        labels: vec!["build".to_string()],
        body: Value::Scalar,
    };
    let expected = PlanError::InvalidBlockKind(InvalidBlockError { name: "task".to_string() });
    assert_eq!(validate_block_type(&b), Err(expected.clone()));
    assert_eq!(expected.message(), "unexpected block 'task'");
}

#[test]
fn block_kind_is_checked_before_labels() {
    let b = Block { identifier: "task".to_string(), labels: vec![], body: Value::Scalar };
    assert_eq!(
        validate_block_type(&b),
        Err(PlanError::InvalidBlockKind(InvalidBlockError { name: "task".to_string() }))
    );
}

#[test]
fn block_without_label_is_refused() {
    let b = Block { identifier: "file".to_string(), labels: vec![], body: Value::Scalar };
    assert_eq!(
        validate_block_type(&b),
        Err(PlanError::InvalidLabelCount(ValidationError {
            message: "block 'file' has an incorrect number of labels".to_string(),
        }))
    );
}

#[test]
fn block_with_two_labels_is_refused() {
    let b = Block {
        identifier: "command".to_string(),
        labels: vec!["a".to_string(), "b".to_string()],
        body: Value::Scalar,
    };
    assert_eq!(
        validate_block_type(&b),
        Err(PlanError::InvalidLabelCount(ValidationError {
            message: "block 'command' has an incorrect number of labels".to_string(),
        }))
    );
}

#[test]
fn recipe_starts_from_name_and_kind() {
    let store =
        Block {
            identifier: "store".to_string(),
            labels: vec!["s".to_string()],
            body: Value::Scalar,
        };
    match block_to_recipe(&store) {
        Ok(recipe) => {
            assert_eq!(recipe.name, "s");
            assert!(recipe.is_store);
            assert!(!recipe.network);
            assert!(recipe.env.is_empty());
            assert!(recipe.inputs.is_empty());
            assert!(recipe.script.is_empty());
            assert!(recipe.shell.is_empty());
        }
        Err(e) => panic!("refused: {}", e.message()),
    }
    let command = Block {
        identifier: "command".to_string(),
        labels: vec!["c".to_string()],
        body: Value::Scalar,
    };
    match block_to_recipe(&command) {
        Ok(recipe) => {
            assert_eq!(recipe.name, "c");
            assert!(!recipe.is_store);
        }
        Err(e) => panic!("refused: {}", e.message()),
    }
}

#[test]
fn recipe_of_an_invalid_block_is_refused() {
    let unknown =
        Block {
            identifier: "task".to_string(),
            labels: vec!["t".to_string()],
            body: Value::Scalar,
        };
    assert_eq!(
        block_to_recipe(&unknown).err(),
        Some(PlanError::InvalidBlockKind(InvalidBlockError { name: "task".to_string() }))
    );
    let unnamed = Block { identifier: "store".to_string(), labels: vec![], body: Value::Scalar };
    assert!(matches!(block_to_recipe(&unnamed).err(), Some(PlanError::InvalidLabelCount(_))));
}

#[test]
fn empty_configuration_has_no_nodes() {
    match parse_body(vec![]) {
        Ok(dag) => {
            assert_eq!(dag.len(), 0);
            assert!(dag.incremental_walk(|_name| panic!("nothing to visit")).is_empty());
            assert_eq!(dag.topological_order(), Ok(vec![]));
        }
        Err(e) => panic!("load failed: {}", e.message()),
    }
}

#[test]
fn defaults_block_declares_nothing() {
    let body = vec![
        block("defaults", &[], reference("a")),
        block("defaults", &["x", "y"], Value::Template(vec![Element::Directive])),
    ];
    match parse_body(body) {
        Ok(dag) => assert_eq!(dag.len(), 0),
        Err(e) => panic!("load failed: {}", e.message()),
    }
}

#[test]
fn defaults_block_is_passed_over_between_entities() {
    let body = vec![
        block("file", &["a"], literal("a.txt")),
        block("defaults", &[], reference("zzz")),
        block("command", &["b"], reference("a")),
    ];
    assert_eq!(plan(body), strings(&["a", "b"]));
}

#[test]
fn entities_are_planned_in_dependency_order() {
    let body = vec![
        block("command", &["link"], Value::Sequence(vec![reference("compile"), reference("libs")])),
        attribute("libs", literal("-lm")),
        block("command", &["compile"], Value::Mapping(vec![
            ("script".to_string(), reference("source")),
            ("shell".to_string(), Value::Sequence(vec![literal("sh"), literal("-c")])),
        ])),
        block("file", &["source"], Value::Scalar),
    ];
    assert_eq!(plan(body), strings(&["source", "libs", "compile", "link"]));
}

#[test]
fn dependent_follows_its_dependency() {
    let body = vec![attribute("a", Value::Scalar), attribute("b", reference("a"))];
    assert_eq!(plan(body), strings(&["a", "b"]));
}

#[test]
fn references_to_one_unseen_name_are_no_duplicates() {
    let body = vec![
        block("command", &["a"], reference("later")),
        block("command", &["b"], reference("later")),
        block("file", &["later"], Value::Scalar),
    ];
    assert_eq!(plan(body), strings(&["later", "a", "b"]));
}

#[test]
fn two_blocks_of_one_name_are_duplicates() {
    let body = vec![
        block("command", &["a"], Value::Scalar),
        block("command", &["a"], Value::Scalar),
    ];
    assert_eq!(failure(parse_body(body)), Some(duplicate("a")));
}

#[test]
fn blocks_of_different_kinds_and_one_name_are_duplicates() {
    for (first, second) in [("command", "file"), ("file", "store"), ("store", "command")] {
        let body = vec![
            block(first, &["a"], Value::Scalar),
            block("file", &["other"], Value::Scalar),
            block(second, &["a"], reference("other")),
        ];
        assert_eq!(failure(parse_body(body)), Some(duplicate("a")));
    }
}

#[test]
fn attribute_and_block_of_one_name_are_duplicates() {
    let body = vec![attribute("a", Value::Scalar), block("store", &["a"], Value::Scalar)];
    assert_eq!(failure(parse_body(body)), Some(duplicate("a")));
    let body = vec![block("store", &["a"], Value::Scalar), attribute("a", Value::Scalar)];
    assert_eq!(failure(parse_body(body)), Some(duplicate("a")));
    let body = vec![attribute("a", Value::Scalar), attribute("a", Value::Scalar)];
    assert_eq!(failure(parse_body(body)), Some(duplicate("a")));
}

#[test]
fn duplicate_is_reported_whatever_the_definition_holds() {
    let body = vec![
        block("command", &["a"], Value::Scalar),
        block("command", &["a"], Value::Template(vec![Element::Directive])),
    ];
    assert_eq!(failure(parse_body(body)), Some(duplicate("a")));
    let body = vec![
        block("command", &["a"], Value::Scalar),
        block("command", &["a"], reference("a")),
    ];
    assert_eq!(failure(parse_body(body)), Some(duplicate("a")));
}

#[test]
fn duplicate_message_names_the_entity() {
    assert_eq!(duplicate("build").message(), "Found duplicate name build");
}

#[test]
fn unknown_kind_fails_the_load() {
    let body = vec![block("file", &["a"], Value::Scalar), block("target", &["b"], Value::Scalar)];
    assert_eq!(
        failure(parse_body(body)),
        Some(PlanError::InvalidBlockKind(InvalidBlockError { name: "target".to_string() }))
    );
}

#[test]
fn wrong_label_count_fails_the_load() {
    let body = vec![block("file", &["a", "b"], Value::Scalar)];
    assert_eq!(
        failure(parse_body(body)),
        Some(PlanError::InvalidLabelCount(ValidationError {
            message: "block 'file' has an incorrect number of labels".to_string(),
        }))
    );
    let body = vec![block("store", &[], Value::Scalar)];
    assert!(matches!(failure(parse_body(body)), Some(PlanError::InvalidLabelCount(_))));
}

#[test]
fn directive_fails_the_load() {
    let body = vec![
        block("file", &["a"], Value::Scalar),
        attribute(
            "b",
            Value::Sequence(vec![reference("a"), Value::Template(vec![Element::Directive])]),
        ),
    ];
    assert_eq!(failure(parse_body(body)), Some(PlanError::UnsupportedTemplateDirective));
}

#[test]
fn self_reference_fails_with_cycle() {
    let body = vec![block("command", &["a"], reference("a"))];
    assert_eq!(failure(parse_body(body)), Some(PlanError::Cycle));
    let body = vec![attribute("a", Value::Sequence(vec![reference("b"), reference("a")]))];
    assert_eq!(failure(parse_body(body)), Some(PlanError::Cycle));
}

#[test]
fn mutual_reference_fails_with_cycle() {
    let body =
        vec![block("command", &["a"], reference("b")), block("file", &["b"], reference("a"))];
    assert_eq!(failure(parse_body(body)), Some(PlanError::Cycle));
}

#[test]
fn first_failure_in_declaration_order_wins() {
    let body = vec![
        block("command", &["a"], reference("a")),
        block("target", &["b"], Value::Scalar),
        block("command", &["a"], Value::Scalar),
    ];
    assert_eq!(failure(parse_body(body)), Some(PlanError::Cycle));
    let body = vec![
        block("target", &["b"], Value::Scalar),
        block("command", &["a"], reference("a")),
    ];
    assert!(matches!(failure(parse_body(body)), Some(PlanError::InvalidBlockKind(_))));
}

#[test]
fn plan_reports_the_failure_of_the_load() {
    let body = vec![block("command", &["a"], reference("a"))];
    assert_eq!(lake::loader::plan(body), Err(PlanError::Cycle));
    let body = vec![attribute("a", Value::Scalar), attribute("a", Value::Scalar)];
    assert_eq!(lake::loader::plan(body), Err(duplicate("a")));
    assert_eq!(lake::loader::plan(vec![]), Ok(vec![]));
}
