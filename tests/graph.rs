use digraph::{Graph, GraphError};

fn four_nodes() -> Graph<&'static str, &'static str, ()> {
    let mut graph = Graph::<&str, &str, ()>::new();
    graph.add_node("A", "Aap");
    graph.add_node("B", "Beer");
    graph.add_node("C", "Chocolade");
    graph.add_node("D", "Das");
    graph
}

fn sorted<T: Ord>(mut v: Vec<T>) -> Vec<T> {
    v.sort();
    v
}

#[test]
fn add_nodes() {
    let mut graph = Graph::<&str, &str, ()>::new();
    graph.add_node("A", "Aap");
    graph.add_node("B", "Beer");
    graph.add_node("C", "Chocolade");
    graph.add_node("D", "Das");

    let result = graph.all_nodes().len();
    assert_eq!(result, 4);
}

#[test]
fn add_edges() {
    let mut graph = Graph::<&str, &str, ()>::new();
    graph.add_node("A", "Aap");
    graph.add_node("B", "Beer");
    graph.add_node("C", "Chocolade");
    graph.add_node("D", "Das");

    graph.add_edge("A", "B", ()).unwrap();
    graph.add_edge("B", "C", ()).unwrap();
    graph.add_edge("C", "D", ()).unwrap();
    graph.add_edge("A", "D", ()).unwrap();

    let result = graph.all_edges().len();
    assert_eq!(result, 3);
}

#[test]
fn add_edges_illegal_from() {
    let mut graph = Graph::<&str, &str, ()>::new();
    graph.add_node("A", "Aap");
    graph.add_node("B", "Beer");
    graph.add_node("C", "Chocolade");
    graph.add_node("D", "Das");

    assert!(graph.add_edge("E", "B", ()).is_err());
}

#[test]
fn add_edges_illegal_to() {
    let mut graph = Graph::<&str, &str, ()>::new();
    graph.add_node("A", "Aap");
    graph.add_node("B", "Beer");
    graph.add_node("C", "Chocolade");
    graph.add_node("D", "Das");

    assert!(graph.add_edge("C", "E", ()).is_err());
}

#[test]
fn new_graph_is_empty() {
    let graph = Graph::<u64, u64, u64>::new();
    assert!(graph.all_nodes().is_empty());
    assert!(graph.all_edges().is_empty());
}

#[test]
fn nodes_listed_with_their_values() {
    let graph = four_nodes();
    assert_eq!(
        sorted(graph.all_nodes()),
        vec![("A", "Aap"), ("B", "Beer"), ("C", "Chocolade"), ("D", "Das")]
    );
}

#[test]
fn re_adding_a_node_keeps_the_last_value() {
    let mut graph = Graph::<u64, u64, ()>::new();
    graph.add_node(1, 10);
    graph.add_node(2, 20);
    graph.add_node(1, 11);
    graph.add_node(3, 30);
    graph.add_node(2, 22);
    assert_eq!(sorted(graph.all_nodes()), vec![(1, 11), (2, 22), (3, 30)]);
}

#[test]
fn distinct_ids_give_one_pair_each() {
    let mut graph = Graph::<u64, u64, ()>::new();
    for i in 0..50u64 {
        graph.add_node(i, i * 2);
    }
    let nodes = sorted(graph.all_nodes());
    assert_eq!(nodes.len(), 50);
    for (i, pair) in nodes.iter().enumerate() {
        assert_eq!(*pair, (i as u64, i as u64 * 2));
    }
}

#[test]
fn last_edge_per_source_wins() {
    let mut graph = Graph::<&str, &str, u32>::new();
    for id in ["A", "B", "C", "D"] {
        graph.add_node(id, id);
    }
    assert_eq!(graph.add_edge("A", "B", 1), Ok(()));
    assert_eq!(graph.add_edge("B", "C", 2), Ok(()));
    assert_eq!(graph.add_edge("C", "D", 3), Ok(()));
    assert_eq!(graph.add_edge("A", "D", 4), Ok(()));
    assert_eq!(
        sorted(graph.all_edges()),
        vec![("A", "D", 4), ("B", "C", 2), ("C", "D", 3)]
    );
}

#[test]
fn unknown_source_changes_no_edge() {
    let mut graph = Graph::<&str, &str, u32>::new();
    for id in ["A", "B", "C", "D"] {
        graph.add_node(id, id);
    }
    graph.add_edge("A", "B", 1).unwrap();
    let before = sorted(graph.all_edges());
    assert_eq!(graph.add_edge("E", "B", 9), Err(GraphError::UnknownNode));
    assert_eq!(sorted(graph.all_edges()), before);
    assert_eq!(graph.all_edges().len(), 1);
}

#[test]
fn unknown_destination_changes_no_edge() {
    let mut graph = Graph::<&str, &str, u32>::new();
    for id in ["A", "B", "C", "D"] {
        graph.add_node(id, id);
    }
    graph.add_edge("C", "D", 3).unwrap();
    assert_eq!(graph.add_edge("C", "E", 9), Err(GraphError::UnknownNode));
    assert_eq!(graph.all_edges(), vec![("C", "D", 3)]);
}

#[test]
fn edge_needs_both_nodes_on_empty_graph() {
    let mut graph = Graph::<u64, (), ()>::new();
    assert_eq!(graph.add_edge(1, 1, ()), Err(GraphError::UnknownNode));
    graph.add_node(1, ());
    assert_eq!(graph.add_edge(1, 2, ()), Err(GraphError::UnknownNode));
    assert_eq!(graph.add_edge(2, 1, ()), Err(GraphError::UnknownNode));
    assert_eq!(graph.add_edge(1, 1, ()), Ok(()));
    assert_eq!(graph.all_edges(), vec![(1, 1, ())]);
}

#[test]
fn adding_a_node_keeps_edges() {
    let mut graph = Graph::<u64, u64, u64>::new();
    graph.add_node(1, 1);
    graph.add_node(2, 2);
    graph.add_edge(1, 2, 12).unwrap();
    graph.add_node(1, 100);
    assert_eq!(graph.all_edges(), vec![(1, 2, 12)]);
    assert_eq!(sorted(graph.all_nodes()), vec![(1, 100), (2, 2)]);
}

#[test]
fn listing_twice_gives_the_same_contents() {
    let mut graph = Graph::<u64, u64, u64>::new();
    for i in 0..20u64 {
        graph.add_node(i, i + 100);
    }
    for i in 0..19u64 {
        graph.add_edge(i, i + 1, i * 3).unwrap();
    }
    assert_eq!(sorted(graph.all_nodes()), sorted(graph.all_nodes()));
    assert_eq!(sorted(graph.all_edges()), sorted(graph.all_edges()));
    assert_eq!(graph.all_edges().len(), 19);
}
