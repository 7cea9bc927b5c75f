//! The ways in which loading a configuration can fail.

use vstd::prelude::*;

verus! {

/// A block whose identifier is none of the recognized entity kinds.
#[derive(Debug, Clone, PartialEq, Eq)]
pub struct InvalidBlockError {
    /// The identifier that was found.
    pub name: String,
}

/// A declaration that breaks a rule of the configuration, with a description.
#[derive(Debug, Clone, PartialEq, Eq)]
pub struct ValidationError {
    /// What is wrong, for the person who wrote the configuration.
    pub message: String,
}

/// Why a configuration cannot be planned. Every kind is fatal to the load.
#[derive(Debug, Clone, PartialEq, Eq)]
pub enum PlanError {
    /// Two declarations share a name.
    DuplicateName(ValidationError),
    /// A block's identifier is not `command`, `file` or `store`.
    InvalidBlockKind(InvalidBlockError),
    /// A block does not carry exactly one label.
    InvalidLabelCount(ValidationError),
    /// A template contains a control-flow directive.
    UnsupportedTemplateDirective,
    /// A dependency edge closes, or the graph holds, a directed cycle.
    Cycle,
}

/// What a `PlanError` says, over character sequences.
pub enum Failure {
    /// Two declarations share a name; holds the message.
    DuplicateName(Seq<char>),
    /// A block of an unknown kind; holds the block's identifier.
    InvalidBlockKind(Seq<char>),
    /// A block with a wrong number of labels; holds the message.
    InvalidLabelCount(Seq<char>),
    /// A template contains a directive.
    UnsupportedTemplateDirective,
    /// A dependency cycle.
    Cycle,
}

impl View for PlanError {
    type V = Failure;

    /// The failure that the error reports.
    open spec fn view(&self) -> Failure {
        match *self {
            PlanError::DuplicateName(e) => Failure::DuplicateName(e.message@),
            PlanError::InvalidBlockKind(e) => Failure::InvalidBlockKind(e.name@),
            PlanError::InvalidLabelCount(e) => Failure::InvalidLabelCount(e.message@),
            PlanError::UnsupportedTemplateDirective => Failure::UnsupportedTemplateDirective,
            PlanError::Cycle => Failure::Cycle,
        }
    }
}

/// The message of a duplicate declaration of `name`.
pub open spec fn duplicate_name_message(name: Seq<char>) -> Seq<char> {
    "Found duplicate name "@ + name
}

/// The message of a block `identifier` with a wrong number of labels.
pub open spec fn label_count_message(identifier: Seq<char>) -> Seq<char> {
    "block '"@ + identifier + "' has an incorrect number of labels"@
}

/// The message of a block of the unknown kind `identifier`.
pub open spec fn unexpected_block_message(identifier: Seq<char>) -> Seq<char> {
    "unexpected block '"@ + identifier + "'"@
}

/// The message of a template that holds a directive.
pub open spec fn directive_message() -> Seq<char> {
    "template directives are not supported"@
}

/// The message of a dependency cycle.
pub open spec fn cycle_message() -> Seq<char> {
    "dependency cycle detected"@
}

/// What `message` returns for each failure.
pub open spec fn failure_message(failure: Failure) -> Seq<char> {
    match failure {
        Failure::DuplicateName(message) => message,
        Failure::InvalidBlockKind(identifier) => unexpected_block_message(identifier),
        Failure::InvalidLabelCount(message) => message,
        Failure::UnsupportedTemplateDirective => directive_message(),
        Failure::Cycle => cycle_message(),
    }
}

/// A validation error with the given message.
pub fn validation_error(msg: String) -> (e: ValidationError)
    ensures
        e.message == msg,
{
    ValidationError { message: msg }
}

/// The error for a second declaration of `name`.
pub fn duplicate_name(name: &str) -> (e: PlanError)
    ensures
        e@ == Failure::DuplicateName(duplicate_name_message(name@)),
{
    let message = String::from_str("Found duplicate name ").concat(name);
    PlanError::DuplicateName(validation_error(message))
}

/// The error for a block `identifier` that does not carry exactly one label.
pub fn invalid_label_count(identifier: &str) -> (e: PlanError)
    ensures
        e@ == Failure::InvalidLabelCount(label_count_message(identifier@)),
{
    let message = String::from_str("block '").concat(identifier).concat(
        "' has an incorrect number of labels",
    );
    PlanError::InvalidLabelCount(validation_error(message))
}

/// The error for a block whose `identifier` is no entity kind.
pub fn invalid_block_kind(identifier: &str) -> (e: PlanError)
    ensures
        e@ == Failure::InvalidBlockKind(identifier@),
{
    PlanError::InvalidBlockKind(InvalidBlockError { name: String::from_str(identifier) })
}

impl InvalidBlockError {
    /// The text shown for this error.
    pub fn message(&self) -> (text: String)
        ensures
            text@ == unexpected_block_message(self.name@),
    {
        String::from_str("unexpected block '").concat(self.name.as_str()).concat("'")
    }
}

impl PlanError {
    /// The text shown for this error.
    pub fn message(&self) -> (text: String)
        ensures
            text@ == failure_message(self@),
    {
        match self {
            PlanError::DuplicateName(e) => e.message.clone(),
            PlanError::InvalidBlockKind(e) => e.message(),
            PlanError::InvalidLabelCount(e) => e.message.clone(),
            PlanError::UnsupportedTemplateDirective => String::from_str(
                "template directives are not supported",
            ),
            PlanError::Cycle => String::from_str("dependency cycle detected"),
        }
    }
}

} // verus!
