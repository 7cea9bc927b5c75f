use lake::error::PlanError;
use lake::extract::{dedup_vec, find_expression_variables, find_variables};
use lake::syntax::{Element, Expression, Value};

fn var(name: &str) -> Expression {
    Expression::Variable(name.to_string())
}

fn interpolation(name: &str) -> Value {
    Value::Template(vec![Element::Interpolation(var(name))])
}

fn strings(names: &[&str]) -> Vec<String> {
    names.iter().map(|name| name.to_string()).collect()
}

#[test]
fn variable_contributes_its_name() {
    let mut found = Vec::new();
    find_expression_variables(&mut found, &var("a"));
    assert_eq!(found, strings(&["a"]));
}

#[test]
fn traversal_contributes_its_base_only() {
    let mut found = Vec::new();
    let expr = Expression::Traversal(Box::new(Expression::Traversal(Box::new(var("base")))));
    find_expression_variables(&mut found, &expr);
    assert_eq!(found, strings(&["base"]));
}

#[test]
fn conditional_contributes_all_three_branches() {
    let mut found = Vec::new();
    let expr = Expression::Conditional(
        Box::new(var("cond")),
        Box::new(var("yes")),
        Box::new(Expression::Traversal(Box::new(var("no")))),
    );
    find_expression_variables(&mut found, &expr);
    assert_eq!(found, strings(&["cond", "yes", "no"]));
}

#[test]
fn for_expression_contributes_its_collection() {
    let mut found = Vec::new();
    let expr = Expression::ForExpr(Box::new(var("items")));
    find_expression_variables(&mut found, &expr);
    assert_eq!(found, strings(&["items"]));
}

#[test]
fn other_expressions_contribute_nothing() {
    let mut found = Vec::new();
    find_expression_variables(&mut found, &Expression::Other);
    let expr = Expression::Conditional(
        Box::new(Expression::Other),
        Box::new(Expression::Other),
        Box::new(Expression::ForExpr(Box::new(Expression::Other))),
    );
    find_expression_variables(&mut found, &expr);
    assert!(found.is_empty());
}

#[test]
fn expression_variables_are_appended_with_repetitions() {
    let mut found = strings(&["kept"]);
    let expr = Expression::Conditional(Box::new(var("a")), Box::new(var("a")), Box::new(var("b")));
    find_expression_variables(&mut found, &expr);
    assert_eq!(found, strings(&["kept", "a", "a", "b"]));
}

#[test]
fn scalar_references_nothing() {
    assert_eq!(find_variables(&Value::Scalar), Ok(vec![]));
}

#[test]
fn literal_segments_reference_nothing() {
    let value = Value::Template(vec![
        Element::Literal("echo ".to_string()),
        Element::Literal("a".to_string()),
    ]);
    assert_eq!(find_variables(&value), Ok(vec![]));
    assert_eq!(find_variables(&Value::Template(vec![])), Ok(vec![]));
}

#[test]
fn template_references_its_interpolations() {
    let value = Value::Template(vec![
        Element::Literal("cc ".to_string()),
        Element::Interpolation(var("src")),
        Element::Literal(" -o ".to_string()),
        Element::Interpolation(Expression::Traversal(Box::new(var("out")))),
    ]);
    assert_eq!(find_variables(&value), Ok(strings(&["src", "out"])));
}

#[test]
fn sequence_and_mapping_are_scanned() {
    let value = Value::Sequence(vec![
        interpolation("a"),
        Value::Mapping(vec![("x".to_string(), interpolation("b"))]),
    ]);
    assert_eq!(find_variables(&value), Ok(strings(&["a", "b"])));
}

#[test]
fn repeated_references_are_reported_once() {
    let value = Value::Sequence(vec![
        interpolation("a"),
        Value::Mapping(vec![
            ("x".to_string(), interpolation("b")),
            ("y".to_string(), interpolation("a")),
        ]),
        interpolation("a"),
        Value::Sequence(vec![interpolation("c"), interpolation("b")]),
    ]);
    assert_eq!(find_variables(&value), Ok(strings(&["a", "b", "c"])));
}

#[test]
fn mapping_keys_are_not_scanned() {
    let value = Value::Mapping(vec![
        ("a".to_string(), Value::Scalar),
        ("b".to_string(), Value::Template(vec![Element::Literal("b".to_string())])),
    ]);
    assert_eq!(find_variables(&value), Ok(vec![]));
}

#[test]
fn directive_is_refused() {
    let value = Value::Template(vec![
        Element::Literal("x".to_string()),
        Element::Directive,
        Element::Interpolation(var("a")),
    ]);
    assert_eq!(find_variables(&value), Err(PlanError::UnsupportedTemplateDirective));
}

#[test]
fn nested_directive_is_refused() {
    let value = Value::Sequence(vec![
        interpolation("a"),
        Value::Mapping(vec![(
            "x".to_string(),
            Value::Sequence(vec![Value::Scalar, Value::Template(vec![Element::Directive])]),
        )]),
    ]);
    assert_eq!(find_variables(&value), Err(PlanError::UnsupportedTemplateDirective));
}

#[test]
fn dedup_keeps_first_occurrences_in_order() {
    assert_eq!(dedup_vec(strings(&["b", "a", "b", "c", "a", "b"])), strings(&["b", "a", "c"]));
    assert_eq!(dedup_vec(strings(&["x"])), strings(&["x"]));
    assert_eq!(dedup_vec(vec![]), Vec::<String>::new());
}

#[test]
fn dedup_tells_names_apart_exactly() {
    assert_eq!(dedup_vec(strings(&["a", "A", "a ", "", "a", ""])), strings(&["a", "A", "a ", ""]));
}
