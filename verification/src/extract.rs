//! Dependency inference: the variable names that a definition references.

use vstd::prelude::*;
use vstd::hash_set::StringHashSet;
use crate::error::{PlanError, Failure};
use crate::syntax::{Expression, Element, Value, names_of, lemma_names_of_push};

verus! {

/// The variable names that an expression references, one entry per occurrence,
/// in the order in which they are written.
pub open spec fn expression_references(expr: Expression) -> Seq<Seq<char>>
    decreases expr,
{
    match expr {
        Expression::Variable(name) => seq![name@],
        Expression::Traversal(base) => expression_references(*base),
        Expression::Conditional(cond, if_true, if_false) => expression_references(*cond)
            + expression_references(*if_true) + expression_references(*if_false),
        Expression::ForExpr(collection) => expression_references(*collection),
        Expression::Other => Seq::empty(),
    }
}

/// The set of variable names that an expression references.
pub open spec fn expression_variables(expr: Expression) -> Set<Seq<char>>
    decreases expr,
{
    match expr {
        Expression::Variable(name) => set![name@],
        Expression::Traversal(base) => expression_variables(*base),
        Expression::Conditional(cond, if_true, if_false) => expression_variables(*cond).union(
            expression_variables(*if_true),
        ).union(expression_variables(*if_false)),
        Expression::ForExpr(collection) => expression_variables(*collection),
        Expression::Other => Set::empty(),
    }
}

/// The names listed by `expression_references` are exactly the members of
/// `expression_variables`.
pub proof fn lemma_expression_references_set(expr: Expression)
    ensures
        expression_references(expr).to_set() == expression_variables(expr),
    decreases expr,
{
    match expr {
        Expression::Variable(name) => {
            assert(seq![name@].to_set() =~= set![name@]) by {
                assert(seq![name@][0] == name@);
            }
        },
        Expression::Traversal(base) => {
            lemma_expression_references_set(*base);
        },
        Expression::Conditional(cond, if_true, if_false) => {
            lemma_expression_references_set(*cond);
            lemma_expression_references_set(*if_true);
            lemma_expression_references_set(*if_false);
            let a = expression_references(*cond);
            let b = expression_references(*if_true);
            let c = expression_references(*if_false);
            vstd::seq_lib::seq_to_set_distributes_over_add(a, b);
            vstd::seq_lib::seq_to_set_distributes_over_add(a + b, c);
        },
        Expression::ForExpr(collection) => {
            lemma_expression_references_set(*collection);
        },
        Expression::Other => {
            assert(Seq::<Seq<char>>::empty().to_set() =~= Set::empty());
        },
    }
}

/// Appends to `variables` every variable name that `expr` references.
pub fn find_expression_variables(variables: &mut Vec<String>, expr: &Expression)
    ensures
        names_of(final(variables)@) == names_of(old(variables)@) + expression_references(*expr),
    decreases expr,
{
    match expr {
        Expression::Variable(name) => {
            proof {
                lemma_names_of_push(variables@, *name);
            }
            variables.push(name.clone());
        },
        Expression::Traversal(base) => {
            find_expression_variables(variables, base);
        },
        Expression::Conditional(cond, if_true, if_false) => {
            find_expression_variables(variables, cond);
            find_expression_variables(variables, if_true);
            find_expression_variables(variables, if_false);
        },
        Expression::ForExpr(collection) => {
            find_expression_variables(variables, collection);
        },
        Expression::Other => {},
    }
}

/// `names` without repetitions: each name stays where it first occurs.
pub open spec fn dedup(names: Seq<Seq<char>>) -> Seq<Seq<char>>
    decreases names.len(),
{
    if names.len() == 0 {
        Seq::empty()
    } else {
        let rest = dedup(names.drop_last());
        if rest.contains(names.last()) {
            rest
        } else {
            rest.push(names.last())
        }
    }
}

/// `dedup` keeps every name of its argument, adds none, and repeats none.
pub proof fn lemma_dedup(names: Seq<Seq<char>>)
    ensures
        dedup(names).no_duplicates(),
        dedup(names).to_set() == names.to_set(),
        dedup(names).len() <= names.len(),
    decreases names.len(),
{
    if names.len() == 0 {
        assert(dedup(names).to_set() =~= names.to_set());
    } else {
        let front = names.drop_last();
        let rest = dedup(front);
        lemma_dedup(front);
        assert(names =~= front.push(names.last()));
        assert forall|x: Seq<char>| names.to_set().contains(x) <==> (front.to_set().contains(x)
            || x == names.last()) by {
            if names.contains(x) {
                let i = choose|i: int| 0 <= i < names.len() && names[i] == x;
                if i < front.len() {
                    assert(front[i] == x);
                }
            }
            if front.contains(x) {
                let i = choose|i: int| 0 <= i < front.len() && front[i] == x;
                assert(names[i] == x);
            }
            if x == names.last() {
                assert(names[names.len() - 1] == x);
            }
        }
        if rest.contains(names.last()) {
            assert(dedup(names).to_set() =~= names.to_set());
        } else {
            let out = rest.push(names.last());
            assert forall|x: Seq<char>| out.to_set().contains(x) <==> (rest.to_set().contains(x)
                || x == names.last()) by {
                if out.contains(x) {
                    let i = choose|i: int| 0 <= i < out.len() && out[i] == x;
                    if i < rest.len() {
                        assert(rest[i] == x);
                    }
                }
                if rest.contains(x) {
                    let i = choose|i: int| 0 <= i < rest.len() && rest[i] == x;
                    assert(out[i] == x);
                }
                if x == names.last() {
                    assert(out[out.len() - 1] == x);
                }
            }
            assert(dedup(names).to_set() =~= names.to_set());
        }
    }
}

/// Removes repeated strings from `v`, keeping each where it first occurs.
pub fn dedup_vec(v: Vec<String>) -> (unique: Vec<String>)
    ensures
        names_of(unique@) == dedup(names_of(v@)),
        names_of(unique@).no_duplicates(),
        names_of(unique@).to_set() == names_of(v@).to_set(),
{
    let mut seen = StringHashSet::new();
    let mut unique: Vec<String> = Vec::new();
    let mut i: usize = 0;
    proof {
        assert(names_of(v@).take(0) =~= Seq::empty());
        assert(names_of(unique@) =~= Seq::empty());
        assert(names_of(unique@).to_set() =~= Set::empty());
    }
    while i < v.len()
        invariant
            i <= v.len(),
            names_of(unique@) == dedup(names_of(v@).take(i as int)),
            seen@ == names_of(unique@).to_set(),
        decreases v.len() - i,
    {
        let ghost prefix = names_of(v@).take(i as int);
        let ghost next = names_of(v@).take(i + 1);
        proof {
            assert(next.drop_last() =~= prefix);
            assert(next.last() == v@[i as int]@);
        }
        if !seen.contains(v[i].as_str()) {
            proof {
                lemma_names_of_push(unique@, v@[i as int]);
                names_of(unique@).lemma_push_to_set_commute(v@[i as int]@);
            }
            seen.insert(v[i].clone());
            unique.push(v[i].clone());
        }
        i = i + 1;
    }
    proof {
        assert(names_of(v@).take(v.len() as int) =~= names_of(v@));
        lemma_dedup(names_of(v@));
    }
    unique
}

/// The variable names that the segments of a template reference, one entry
/// per occurrence, in the order in which they are written.
pub open spec fn template_references(elements: Seq<Element>) -> Seq<Seq<char>>
    decreases elements.len(),
{
    if elements.len() == 0 {
        Seq::empty()
    } else {
        template_references(elements.drop_last()) + match elements.last() {
            Element::Interpolation(expr) => expression_references(expr),
            _ => Seq::empty(),
        }
    }
}

/// Whether some segment of a template is a directive.
pub open spec fn template_has_directive(elements: Seq<Element>) -> bool {
    exists|i: int| 0 <= i < elements.len() && elements[i] is Directive
}

/// The variable names referenced anywhere within a value, one entry per
/// occurrence, in the order in which they are written. The keys of a mapping
/// are not scanned.
pub open spec fn value_references(value: Value) -> Seq<Seq<char>>
    decreases value,
{
    match value {
        Value::Scalar => Seq::empty(),
        Value::Template(elements) => template_references(elements@),
        Value::Sequence(items) => sequence_references(items@),
        Value::Mapping(entries) => mapping_references(entries@),
    }
}

/// `value_references` of each item of a sequence, one after the other.
pub open spec fn sequence_references(items: Seq<Value>) -> Seq<Seq<char>>
    decreases items,
{
    if items.len() == 0 {
        Seq::empty()
    } else {
        sequence_references(items.drop_last()) + value_references(items.last())
    }
}

/// `value_references` of each value of a mapping, one after the other.
pub open spec fn mapping_references(entries: Seq<(String, Value)>) -> Seq<Seq<char>>
    decreases entries,
{
    if entries.len() == 0 {
        Seq::empty()
    } else {
        mapping_references(entries.drop_last()) + value_references(entries.last().1)
    }
}

/// Whether a template anywhere within a value holds a directive.
pub open spec fn value_has_directive(value: Value) -> bool
    decreases value,
{
    match value {
        Value::Scalar => false,
        Value::Template(elements) => template_has_directive(elements@),
        Value::Sequence(items) => sequence_has_directive(items@),
        Value::Mapping(entries) => mapping_has_directive(entries@),
    }
}

/// Whether some item of a sequence holds a directive.
pub open spec fn sequence_has_directive(items: Seq<Value>) -> bool
    decreases items,
{
    items.len() > 0 && (sequence_has_directive(items.drop_last()) || value_has_directive(
        items.last(),
    ))
}

/// Whether some value of a mapping holds a directive.
pub open spec fn mapping_has_directive(entries: Seq<(String, Value)>) -> bool
    decreases entries,
{
    entries.len() > 0 && (mapping_has_directive(entries.drop_last()) || value_has_directive(
        entries.last().1,
    ))
}

/// A sequence holds a directive exactly if one of its items does.
pub proof fn lemma_sequence_has_directive(items: Seq<Value>)
    ensures
        sequence_has_directive(items) <==> exists|i: int|
            0 <= i < items.len() && value_has_directive(#[trigger] items[i]),
    decreases items.len(),
{
    if items.len() > 0 {
        let front = items.drop_last();
        lemma_sequence_has_directive(front);
        if sequence_has_directive(front) {
            let i = choose|i: int| 0 <= i < front.len() && value_has_directive(#[trigger] front[i]);
            assert(value_has_directive(items[i]));
        }
        if exists|i: int| 0 <= i < items.len() && value_has_directive(#[trigger] items[i]) {
            let i = choose|i: int| 0 <= i < items.len() && value_has_directive(#[trigger] items[i]);
            if i < front.len() {
                assert(value_has_directive(front[i]));
            }
        }
    }
}

/// A mapping holds a directive exactly if one of its values does.
pub proof fn lemma_mapping_has_directive(entries: Seq<(String, Value)>)
    ensures
        mapping_has_directive(entries) <==> exists|i: int|
            0 <= i < entries.len() && value_has_directive((#[trigger] entries[i]).1),
    decreases entries.len(),
{
    if entries.len() > 0 {
        let front = entries.drop_last();
        lemma_mapping_has_directive(front);
        if mapping_has_directive(front) {
            let i = choose|i: int|
                0 <= i < front.len() && value_has_directive((#[trigger] front[i]).1);
            assert(value_has_directive(entries[i].1));
        }
        if exists|i: int| 0 <= i < entries.len() && value_has_directive((#[trigger] entries[i]).1) {
            let i = choose|i: int|
                0 <= i < entries.len() && value_has_directive((#[trigger] entries[i]).1);
            if i < front.len() {
                assert(value_has_directive(front[i].1));
            }
        }
    }
}

/// Appends to `variables` every variable name that the interpolations of a
/// template reference; fails at the first directive.
fn collect_template(elements: &Vec<Element>, variables: &mut Vec<String>) -> (r: Result<
    (),
    PlanError,
>)
    ensures
        r is Err <==> template_has_directive(elements@),
        r matches Err(e) ==> e@ == Failure::UnsupportedTemplateDirective,
        r is Ok ==> names_of(final(variables)@) == names_of(old(variables)@) + template_references(
            elements@,
        ),
{
    let mut i: usize = 0;
    proof {
        assert(elements@.take(0) =~= Seq::empty());
        assert(names_of(variables@) + Seq::<Seq<char>>::empty() =~= names_of(variables@));
    }
    while i < elements.len()
        invariant
            i <= elements.len(),
            forall|j: int| 0 <= j < i ==> !(elements@[j] is Directive),
            names_of(variables@) == names_of(old(variables)@) + template_references(
                elements@.take(i as int),
            ),
        decreases elements.len() - i,
    {
        let ghost before = names_of(variables@);
        proof {
            assert(elements@.take(i + 1).drop_last() =~= elements@.take(i as int));
            assert(elements@.take(i + 1).last() == elements@[i as int]);
        }
        match &elements[i] {
            Element::Literal(_) => {
                proof {
                    assert(before + Seq::<Seq<char>>::empty() =~= before);
                }
            },
            Element::Interpolation(expr) => {
                find_expression_variables(variables, expr);
            },
            Element::Directive => {
                return Err(PlanError::UnsupportedTemplateDirective);
            },
        }
        proof {
            let done = template_references(elements@.take(i as int));
            let more = match elements@[i as int] {
                Element::Interpolation(expr) => expression_references(expr),
                _ => Seq::empty(),
            };
            assert((names_of(old(variables)@) + done) + more =~= names_of(old(variables)@) + (done
                + more));
        }
        i = i + 1;
    }
    proof {
        assert(elements@.take(elements.len() as int) =~= elements@);
    }
    Ok(())
}

/// Appends to `variables` every variable name referenced within `value`;
/// fails at the first directive.
fn collect_value(value: &Value, variables: &mut Vec<String>) -> (r: Result<(), PlanError>)
    ensures
        r is Err <==> value_has_directive(*value),
        r matches Err(e) ==> e@ == Failure::UnsupportedTemplateDirective,
        r is Ok ==> names_of(final(variables)@) == names_of(old(variables)@) + value_references(
            *value,
        ),
    decreases value,
{
    match value {
        Value::Scalar => {
            proof {
                assert(names_of(variables@) + Seq::<Seq<char>>::empty() =~= names_of(variables@));
            }
            Ok(())
        },
        Value::Template(elements) => collect_template(elements, variables),
        Value::Sequence(items) => {
            let mut i: usize = 0;
            proof {
                assert(items@.take(0) =~= Seq::empty());
                assert(names_of(variables@) + Seq::<Seq<char>>::empty() =~= names_of(variables@));
            }
            while i < items.len()
                invariant
                    i <= items.len(),
                    *value == Value::Sequence(*items),
                    !sequence_has_directive(items@.take(i as int)),
                    names_of(variables@) == names_of(old(variables)@) + sequence_references(
                        items@.take(i as int),
                    ),
                decreases items.len() - i,
            {
                proof {
                    assert(items@.take(i + 1).drop_last() =~= items@.take(i as int));
                    assert(items@.take(i + 1).last() == items@[i as int]);
                }
                proof {
                    assert(value->Sequence_0 == *items);
                    assert(decreases_to!(*value => items@[i as int]));
                }
                match collect_value(&items[i], variables) {
                    Ok(()) => {},
                    Err(e) => {
                        proof {
                            lemma_sequence_has_directive(items@);
                        }
                        return Err(e);
                    },
                }
                proof {
                    let done = sequence_references(items@.take(i as int));
                    let more = value_references(items@[i as int]);
                    assert((names_of(old(variables)@) + done) + more =~= names_of(old(variables)@)
                        + (done + more));
                }
                i = i + 1;
            }
            proof {
                assert(items@.take(items.len() as int) =~= items@);
            }
            Ok(())
        },
        Value::Mapping(entries) => {
            let mut i: usize = 0;
            proof {
                assert(entries@.take(0) =~= Seq::empty());
                assert(names_of(variables@) + Seq::<Seq<char>>::empty() =~= names_of(variables@));
            }
            while i < entries.len()
                invariant
                    i <= entries.len(),
                    *value == Value::Mapping(*entries),
                    !mapping_has_directive(entries@.take(i as int)),
                    names_of(variables@) == names_of(old(variables)@) + mapping_references(
                        entries@.take(i as int),
                    ),
                decreases entries.len() - i,
            {
                proof {
                    assert(entries@.take(i + 1).drop_last() =~= entries@.take(i as int));
                    assert(entries@.take(i + 1).last() == entries@[i as int]);
                }
                proof {
                    assert(value->Mapping_0 == *entries);
                    assert(decreases_to!(*value => entries@[i as int].1));
                }
                match collect_value(&entries[i].1, variables) {
                    Ok(()) => {},
                    Err(e) => {
                        proof {
                            lemma_mapping_has_directive(entries@);
                        }
                        return Err(e);
                    },
                }
                proof {
                    let done = mapping_references(entries@.take(i as int));
                    let more = value_references(entries@[i as int].1);
                    assert((names_of(old(variables)@) + done) + more =~= names_of(old(variables)@)
                        + (done + more));
                }
                i = i + 1;
            }
            proof {
                assert(entries@.take(entries.len() as int) =~= entries@);
            }
            Ok(())
        },
    }
}

/// The names that the definition `value` references, each once, in the order
/// in which they first occur. A directive in any template of the definition
/// makes the whole extraction fail.
pub fn find_variables(value: &Value) -> (r: Result<Vec<String>, PlanError>)
    ensures
        r is Err <==> value_has_directive(*value),
        r matches Err(e) ==> e@ == Failure::UnsupportedTemplateDirective,
        r matches Ok(names) ==> {
            &&& names_of(names@) == dedup(value_references(*value))
            &&& names_of(names@).no_duplicates()
            &&& names_of(names@).to_set() == value_references(*value).to_set()
        },
{
    let mut variables: Vec<String> = Vec::new();
    proof {
        assert(names_of(variables@) =~= Seq::empty());
    }
    match collect_value(value, &mut variables) {
        Ok(()) => {
            proof {
                assert(Seq::<Seq<char>>::empty() + value_references(*value) =~= value_references(
                    *value,
                ));
                lemma_dedup(value_references(*value));
            }
            Ok(dedup_vec(variables))
        },
        Err(e) => Err(e),
    }
}

} // verus!
