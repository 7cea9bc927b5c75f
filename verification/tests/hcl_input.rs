use std::str::FromStr;

use lake::error::{InvalidBlockError, PlanError, ValidationError};
use lake::extract::find_variables;
use lake::loader::{opens_defaults, parse_body, Attribute, Block, Structure};
use lake::syntax::{Element, Expression, Value};

fn expression(expr: &hcl::Expression) -> Expression {
    match expr {
        hcl::Expression::Variable(variable) => Expression::Variable(variable.as_str().to_string()),
        hcl::Expression::Traversal(traversal) => {
            Expression::Traversal(Box::new(expression(&traversal.expr)))
        }
        hcl::Expression::Conditional(conditional) => Expression::Conditional(
            Box::new(expression(&conditional.cond_expr)),
            Box::new(expression(&conditional.true_expr)),
            Box::new(expression(&conditional.false_expr)),
        ),
        hcl::Expression::ForExpr(for_expr) => {
            Expression::ForExpr(Box::new(expression(&for_expr.collection_expr)))
        }
        _ => Expression::Other,
    }
}

fn element(element: &hcl::template::Element) -> Element {
    match element {
        hcl::template::Element::Literal(text) => Element::Literal(text.clone()),
        hcl::template::Element::Interpolation(interpolation) => {
            Element::Interpolation(expression(&interpolation.expr))
        }
        hcl::template::Element::Directive(_) => Element::Directive,
    }
}

fn value(value: &hcl::Value) -> Value {
    match value {
        hcl::Value::Array(items) => Value::Sequence(items.iter().map(self::value).collect()),
        hcl::Value::Object(entries) => Value::Mapping(
            entries.iter().map(|(key, item)| (key.clone(), self::value(item))).collect(),
        ),
        hcl::Value::String(s) => match hcl::Template::from_str(s) {
            Ok(template) => Value::Template(template.elements().iter().map(element).collect()),
            Err(e) => panic!("no template: {e}"),
        },
        _ => Value::Scalar,
    }
}

fn structure(structure: hcl::Structure) -> Structure {
    match structure {
        hcl::Structure::Block(block) => {
            let identifier = block.identifier.as_str().to_string();
            let labels = block.labels.iter().map(|label| label.as_str().to_string()).collect();
            let body = if opens_defaults(&identifier) {
                Value::Scalar
            } else {
                value(&hcl::Value::from(block))
            };
            Structure::Block(Block { identifier, labels, body })
        }
        hcl::Structure::Attribute(attr) => {
            let key = attr.key.as_str().to_string();
            Structure::Attribute(Attribute { key, value: value(&hcl::Value::from(attr)) })
        }
    }
}

fn read(text: &str) -> Vec<Structure> {
    match hcl::from_str::<hcl::Body>(text) {
        Ok(body) => body.into_inner().into_iter().map(structure).collect(),
        Err(e) => panic!("no configuration: {e}"),
    }
}

fn plan(text: &str) -> Result<Vec<String>, PlanError> {
    parse_body(read(text)).map(|dag| dag.incremental_walk(|_name| {}))
}

fn strings(names: &[&str]) -> Vec<String> {
    names.iter().map(|name| name.to_string()).collect()
}

fn variables_of(text: &str) -> Result<Vec<String>, PlanError> {
    find_variables(&value(&hcl::Value::String(text.to_string())))
}

#[test]
fn configuration_without_entities_plans_nothing() {
    assert_eq!(plan(""), Ok(vec![]));
    assert_eq!(plan("defaults {\n  shell = [\"bash\", \"-c\"]\n}\n"), Ok(vec![]));
}

#[test]
fn interpolated_name_makes_a_dependency() {
    let text = r#"
command "a" {
  script = "echo a"
}
command "b" {
  script = "echo ${a}"
}
"#;
    assert_eq!(plan(text), Ok(strings(&["a", "b"])));
}

#[test]
fn dependency_may_be_declared_later() {
    let text = r#"
command "b" {
  script = "cat ${a}"
}
file "a" {
  path = "./a.txt"
}
"#;
    assert_eq!(plan(text), Ok(strings(&["a", "b"])));
}

#[test]
fn bare_reference_in_an_attribute_makes_a_dependency() {
    let text = "a = 1\nb = a\nc = [b, \"${a}\"]\n";
    assert_eq!(plan(text), Ok(strings(&["a", "b", "c"])));
}

#[test]
fn nested_values_are_scanned() {
    let text = r#"
a = "x"
b = "y"
c = ["${a}", { x = "${b}" }, "${a}"]
"#;
    let body = read(text);
    match &body[2] {
        Structure::Attribute(attribute) => {
            assert_eq!(find_variables(&attribute.value), Ok(strings(&["a", "b"])));
        }
        other => panic!("no attribute: {other:?}"),
    }
    assert_eq!(plan(text), Ok(strings(&["b", "a", "c"])));
}

#[test]
fn template_expressions_are_walked() {
    assert_eq!(variables_of("plain text"), Ok(vec![]));
    assert_eq!(variables_of("${a}"), Ok(strings(&["a"])));
    assert_eq!(variables_of("${a.out} and ${b[0]}"), Ok(strings(&["a", "b"])));
    assert_eq!(variables_of("${flag ? yes : no.path}"), Ok(strings(&["flag", "yes", "no"])));
    assert_eq!(variables_of("${[for item in items : item]}"), Ok(strings(&["items"])));
    assert_eq!(variables_of("${a}${a}${b}${a}"), Ok(strings(&["a", "b"])));
}

#[test]
fn calls_and_operations_are_not_descended_into() {
    assert_eq!(variables_of("${upper(a)}"), Ok(vec![]));
    assert_eq!(variables_of("${a + b}"), Ok(vec![]));
    assert_eq!(variables_of("${1}"), Ok(vec![]));
}

#[test]
fn template_directive_is_refused() {
    assert_eq!(
        variables_of("%{ if flag }yes%{ endif }"),
        Err(PlanError::UnsupportedTemplateDirective)
    );
    let text = "command \"a\" {\n  script = \"%{ for x in xs }${x}%{ endfor }\"\n}\n";
    assert_eq!(plan(text), Err(PlanError::UnsupportedTemplateDirective));
}

#[test]
fn defaults_are_not_read() {
    let text = r#"
defaults {
  script = "%{ if flag }yes%{ endif } ${a}"
}
command "a" {
  script = "echo"
}
"#;
    assert_eq!(plan(text), Ok(strings(&["a"])));
}

#[test]
fn unknown_block_is_refused() {
    let text = "target \"a\" {\n  script = \"echo\"\n}\n";
    assert_eq!(
        plan(text),
        Err(PlanError::InvalidBlockKind(InvalidBlockError { name: "target".to_string() }))
    );
}

#[test]
fn block_needs_one_label() {
    let expected = Err(PlanError::InvalidLabelCount(ValidationError {
        message: "block 'command' has an incorrect number of labels".to_string(),
    }));
    assert_eq!(plan("command {\n  script = \"echo\"\n}\n"), expected);
    assert_eq!(plan("command \"a\" \"b\" {\n  script = \"echo\"\n}\n"), expected);
}

#[test]
fn redeclared_name_is_refused() {
    let expected = Err(PlanError::DuplicateName(ValidationError {
        message: "Found duplicate name a".to_string(),
    }));
    assert_eq!(plan("command \"a\" {}\nfile \"a\" {}\n"), expected);
    assert_eq!(plan("a = 1\nstore \"a\" {}\n"), expected);
}

#[test]
fn self_reference_is_a_cycle() {
    assert_eq!(plan("command \"a\" {\n  script = \"echo ${a}\"\n}\n"), Err(PlanError::Cycle));
}

#[test]
fn mutual_reference_is_a_cycle() {
    let text = r#"
command "a" {
  script = "echo ${b}"
}
command "b" {
  script = "echo ${a}"
}
"#;
    assert_eq!(plan(text), Err(PlanError::Cycle));
}
