use std::cell::RefCell;

use lake::dag::UniqueDag;
use lake::error::PlanError;
use lake::traverse::Strategy;

fn strings(names: &[&str]) -> Vec<String> {
    names.iter().map(|name| name.to_string()).collect()
}

fn graph(entities: &[(&str, &[&str])]) -> UniqueDag {
    let mut dag = UniqueDag::new();
    for (name, dependencies) in entities {
        assert_eq!(dag.add_entity(name.to_string(), strings(dependencies)), Ok(()));
    }
    dag
}

fn walk(dag: &UniqueDag) -> Vec<String> {
    dag.incremental_walk(|_name| {})
}

#[test]
fn new_graph_is_empty() {
    let dag = UniqueDag::new();
    assert_eq!(dag.len(), 0);
    assert_eq!(dag.find("a"), None);
    assert_eq!(walk(&dag), Vec::<String>::new());
    assert_eq!(dag.topological_order(), Ok(vec![]));
}

#[test]
fn ensure_node_is_idempotent() {
    let mut dag = UniqueDag::new();
    let first = dag.ensure_node("a".to_string());
    let second = dag.ensure_node("a".to_string());
    assert_eq!(first, 0);
    assert_eq!(second, 0);
    assert_eq!(dag.len(), 1);
    let other = dag.ensure_node("b".to_string());
    assert_eq!(other, 1);
    assert_eq!(dag.ensure_node("a".to_string()), 0);
    assert_eq!(dag.ensure_node("b".to_string()), 1);
    assert_eq!(dag.len(), 2);
    assert_eq!(dag.name(0), "a");
    assert_eq!(dag.name(1), "b");
}

#[test]
fn find_gives_the_index_of_a_name() {
    let dag = graph(&[("b", &["a"]), ("c", &[])]);
    assert_eq!(dag.find("b"), Some(0));
    assert_eq!(dag.find("a"), Some(1));
    assert_eq!(dag.find("c"), Some(2));
    assert_eq!(dag.find("d"), None);
    assert_eq!(dag.find(""), None);
}

#[test]
fn add_entity_creates_nodes_and_edges() {
    let dag = graph(&[("b", &["a", "c"])]);
    assert_eq!(dag.len(), 3);
    assert_eq!(dag.parents(0), &vec![1, 2]);
    assert_eq!(dag.children(0), &Vec::<usize>::new());
    assert_eq!(dag.children(1), &vec![0]);
    assert_eq!(dag.children(2), &vec![0]);
    assert_eq!(dag.parents(1), &Vec::<usize>::new());
}

#[test]
fn repeated_dependency_gives_one_edge() {
    let mut dag = graph(&[("b", &["a", "a"])]);
    assert_eq!(dag.add_entity("b".to_string(), strings(&["a"])), Ok(()));
    assert_eq!(dag.len(), 2);
    assert_eq!(dag.parents(0), &vec![1]);
    assert_eq!(dag.children(1), &vec![0]);
}

#[test]
fn self_dependency_is_a_cycle() {
    let mut dag = UniqueDag::new();
    assert_eq!(dag.add_entity("a".to_string(), strings(&["a"])), Err(PlanError::Cycle));
}

#[test]
fn mutual_dependency_is_a_cycle() {
    let mut dag = graph(&[("a", &["b"])]);
    assert_eq!(dag.add_entity("b".to_string(), strings(&["a"])), Err(PlanError::Cycle));
}

#[test]
fn long_cycle_is_refused() {
    let mut dag = graph(&[("b", &["a"]), ("c", &["b"]), ("d", &["c"])]);
    assert_eq!(dag.add_entity("a".to_string(), strings(&["x", "d"])), Err(PlanError::Cycle));
}

#[test]
fn refused_entity_keeps_what_came_before_the_cycle() {
    let mut dag = graph(&[("b", &["a"])]);
    assert_eq!(dag.add_entity("a".to_string(), strings(&["x", "b", "y"])), Err(PlanError::Cycle));
    assert_eq!(dag.find("x"), Some(2));
    assert_eq!(dag.find("y"), None);
    assert_eq!(dag.parents(1), &vec![2]);
    assert_eq!(dag.topological_order(), Ok(strings(&["x", "a", "b"])));
}

#[test]
fn edge_along_an_existing_path_is_accepted() {
    let mut dag = graph(&[("b", &["a"]), ("c", &["b"])]);
    assert_eq!(dag.add_entity("c".to_string(), strings(&["a"])), Ok(()));
    assert_eq!(dag.parents(2), &vec![0, 1]);
    assert_eq!(walk(&dag), strings(&["a", "b", "c"]));
}

#[test]
fn walk_visits_dependency_first() {
    let dag = graph(&[("a", &[]), ("b", &["a"])]);
    assert_eq!(walk(&dag), strings(&["a", "b"]));
}

#[test]
fn walk_visits_dependency_first_when_declared_last() {
    let dag = graph(&[("b", &["a"]), ("a", &[])]);
    assert_eq!(walk(&dag), strings(&["a", "b"]));
}

#[test]
fn walk_calls_visit_once_per_node_in_order() {
    let dag = graph(&[("a", &[]), ("b", &["a"]), ("c", &["a"]), ("d", &["b", "c"])]);
    let seen = RefCell::new(Vec::new());
    let visited = dag.incremental_walk(|name| seen.borrow_mut().push(name.clone()));
    assert_eq!(visited, strings(&["a", "b", "c", "d"]));
    assert_eq!(seen.into_inner(), visited);
}

#[test]
fn walk_order_follows_readiness() {
    let dag = graph(&[("d", &["b", "c"]), ("b", &["a"]), ("c", &["a"]), ("a", &[])]);
    assert_eq!(walk(&dag), strings(&["a", "c", "b", "d"]));
}

#[test]
fn static_order_goes_in_passes() {
    let dag = graph(&[("d", &["b", "c"]), ("b", &["a"]), ("c", &["a"]), ("a", &[])]);
    assert_eq!(dag.topological_order(), Ok(strings(&["a", "b", "c", "d"])));
}

#[test]
fn independent_nodes_are_walked_last_created_first() {
    let dag = graph(&[("a", &[]), ("b", &[]), ("c", &[])]);
    assert_eq!(walk(&dag), strings(&["c", "b", "a"]));
    assert_eq!(dag.topological_order(), Ok(strings(&["a", "b", "c"])));
}

#[test]
fn undeclared_dependency_is_visited_as_a_node() {
    let dag = graph(&[("b", &["ghost"])]);
    assert_eq!(walk(&dag), strings(&["ghost", "b"]));
    assert_eq!(dag.topological_order(), Ok(strings(&["ghost", "b"])));
}

#[test]
fn chain_is_walked_from_its_root() {
    let dag = graph(&[("e", &["d"]), ("d", &["c"]), ("c", &["b"]), ("b", &["a"])]);
    assert_eq!(walk(&dag), strings(&["a", "b", "c", "d", "e"]));
    assert_eq!(dag.topological_order(), Ok(strings(&["a", "b", "c", "d", "e"])));
}

#[test]
fn every_order_respects_every_edge() {
    let entities: &[(&str, &[&str])] = &[
        ("app", &["lib", "cfg"]),
        ("lib", &["core", "util"]),
        ("util", &["core"]),
        ("cfg", &[]),
        ("doc", &["app", "lib"]),
        ("core", &[]),
    ];
    let dag = graph(entities);
    for order in [walk(&dag), dag.topological_order().unwrap_or_default()] {
        assert_eq!(order.len(), 6);
        for (name, dependencies) in entities {
            let at = order.iter().position(|n| n == name);
            assert!(at.is_some());
            assert_eq!(order.iter().filter(|n| n == name).count(), 1);
            for dependency in dependencies.iter() {
                let before = order.iter().position(|n| n == dependency);
                assert!(before.is_some());
                assert!(before < at);
            }
        }
    }
}

#[test]
fn strategies_give_dependency_orders() {
    let dag = graph(&[("d", &["b", "c"]), ("b", &["a"]), ("c", &["a"]), ("a", &[])]);
    assert_eq!(dag.traverse(Strategy::Static), Ok(strings(&["a", "b", "c", "d"])));
    assert_eq!(dag.traverse(Strategy::Incremental), Ok(strings(&["a", "c", "b", "d"])));
    assert_eq!(Strategy::default(), Strategy::Incremental);
}

#[test]
fn empty_graph_is_drawn_without_nodes() {
    assert_eq!(UniqueDag::new().to_dot(), Some("digraph {\n}\n".to_string()));
}

#[test]
fn graph_is_drawn_with_names_and_edges() {
    let dag = graph(&[("b", &["a", "c"]), ("d", &["a"])]);
    let expected = [
        "digraph {",
        "    0 [ label = \"\\\"b\\\"\" ]",
        "    1 [ label = \"\\\"a\\\"\" ]",
        "    2 [ label = \"\\\"c\\\"\" ]",
        "    3 [ label = \"\\\"d\\\"\" ]",
        "    1 -> 0 [ ]",
        "    1 -> 3 [ ]",
        "    2 -> 0 [ ]",
        "}",
        "",
    ]
    .join("\n");
    assert_eq!(dag.to_dot(), Some(expected));
}

#[test]
fn drawing_escapes_what_a_name_holds() {
    let dag = graph(&[("say \"hi\"", &[])]);
    let drawn = dag.to_dot().unwrap_or_default();
    assert!(drawn.starts_with("digraph {\n    0 [ label = \""));
    assert!(drawn.contains("say"));
    assert!(drawn.ends_with("\" ]\n}\n"));
}
