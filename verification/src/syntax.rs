//! The parsed configuration tree that the planner consumes.

use vstd::prelude::*;

verus! {

/// An expression of the interpolation sub-language, reduced to the shapes that
/// can carry a reference to another entity.
#[derive(Debug, PartialEq, Eq)]
pub enum Expression {
    /// A bare variable reference.
    Variable(String),
    /// An attribute or index access; only the base expression is kept.
    Traversal(Box<Expression>),
    /// A conditional: condition, value if true, value if false.
    Conditional(Box<Expression>, Box<Expression>, Box<Expression>),
    /// A comprehension; only the expression of the source collection is kept,
    /// the iteration variables it binds are local to it.
    ForExpr(Box<Expression>),
    /// Any other kind of expression: literals, operations, function calls.
    Other,
}

/// One segment of a template string.
#[derive(Debug, PartialEq, Eq)]
pub enum Element {
    /// Literal text.
    Literal(String),
    /// An interpolation, with the expression it evaluates.
    Interpolation(Expression),
    /// A control-flow directive (`if` or `for`) embedded in the template.
    Directive,
}

/// A configuration value.
#[derive(Debug, PartialEq, Eq)]
pub enum Value {
    /// Null, a boolean or a number.
    Scalar,
    /// A string, as the sequence of segments of its template.
    Template(Vec<Element>),
    /// A sequence of values.
    Sequence(Vec<Value>),
    /// A mapping from keys to values, in the order in which they are written.
    Mapping(Vec<(String, Value)>),
}

/// The character sequences of a list of strings.
pub open spec fn names_of(strings: Seq<String>) -> Seq<Seq<char>> {
    strings.map_values(|s: String| s@)
}

/// The character sequences of a list with one string more.
pub proof fn lemma_names_of_push(strings: Seq<String>, s: String)
    ensures
        names_of(strings.push(s)) == names_of(strings).push(s@),
{
    assert(names_of(strings.push(s)) =~= names_of(strings).push(s@));
}

} // verus!
