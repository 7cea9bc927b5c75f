use lake::error::{
    duplicate_name, invalid_block_kind, invalid_label_count, validation_error, InvalidBlockError,
    PlanError, ValidationError,
};

#[test]
fn validation_error_carries_its_message() {
    let e = validation_error("Found duplicate name x".to_string());
    assert_eq!(e, ValidationError { message: "Found duplicate name x".to_string() });
    assert_eq!(validation_error(String::new()).message, "");
}

#[test]
fn duplicate_name_error_has_its_text() {
    let e = duplicate_name("build");
    assert_eq!(
        e,
        PlanError::DuplicateName(ValidationError {
            message: "Found duplicate name build".to_string(),
        })
    );
    assert_eq!(e.message(), "Found duplicate name build");
}

#[test]
fn label_count_error_has_its_text() {
    let e = invalid_label_count("store");
    assert_eq!(
        e,
        PlanError::InvalidLabelCount(ValidationError {
            message: "block 'store' has an incorrect number of labels".to_string(),
        })
    );
    assert_eq!(e.message(), "block 'store' has an incorrect number of labels");
}

#[test]
fn invalid_block_error_has_its_text() {
    let e = invalid_block_kind("task");
    assert_eq!(e, PlanError::InvalidBlockKind(InvalidBlockError { name: "task".to_string() }));
    assert_eq!(e.message(), "unexpected block 'task'");
    assert_eq!(InvalidBlockError { name: String::new() }.message(), "unexpected block ''");
}

#[test]
fn directive_and_cycle_errors_have_their_texts() {
    assert_eq!(
        PlanError::UnsupportedTemplateDirective.message(),
        "template directives are not supported"
    );
    assert_eq!(PlanError::Cycle.message(), "dependency cycle detected");
}
