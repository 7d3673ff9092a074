use orbweaver::{topological_sort, DirectedAcyclicGraph, DirectedGraphBuilder};

fn sorted_paths(paths: Vec<orbweaver::NodeVec>) -> Vec<Vec<String>> {
    let mut out: Vec<Vec<String>> = paths.iter().map(|p| p.as_vec()).collect();
    out.sort();
    out
}

#[test]
fn mod_test_find_path_simple() {
    let mut builder = DirectedGraphBuilder::new();
    builder.add_edge("0", "1");
    builder.add_edge("1", "2");
    builder.add_edge("2", "3");
    builder.add_edge("3", "4");
    let graph = builder.build_acyclic().unwrap();

    // Through the underlying graph, as the shortest path.
    let path = graph.as_graph().find_path("0", "4").unwrap();

    assert_eq!(path.len(), 5);
    assert_eq!(path.as_vec(), ["0", "1", "2", "3", "4"]);
}

#[test]
fn mod_test_find_path_many_paths() {
    let mut builder = DirectedGraphBuilder::new();
    builder.add_edge("0", "1");
    builder.add_edge("1", "2");
    builder.add_edge("2", "3");
    builder.add_edge("3", "4");
    builder.add_edge("0", "4");

    let graph = builder.build_acyclic().unwrap();

    // Through the underlying graph, as the shortest path.
    let path = graph.as_graph().find_path("0", "4").unwrap();

    assert_eq!(path.len(), 2);
    assert_eq!(path.as_vec(), ["0", "4"]);
}

#[test]
fn test_find_path_no_paths() {
    let mut builder = DirectedGraphBuilder::new();
    builder.add_edge("0", "1");
    builder.add_edge("1", "2");
    builder.add_edge("2", "3");
    builder.add_edge("3", "4");
    builder.add_edge("0", "4");
    builder.add_edge("999", "111");

    let graph = builder.build_acyclic().unwrap();

    let path = graph.find_path("0", "999").unwrap();

    assert_eq!(path.len(), 0);
    assert_eq!(path.as_vec(), Vec::<String>::new());
}

#[test]
fn mod_test_find_all_paths_many_paths() {
    let mut builder = DirectedGraphBuilder::new();
    builder.add_path(&["0", "111", "222", "333", "444", "4"]);
    builder.add_path(&["0", "999", "4"]);
    builder.add_path(&["0", "1", "2", "3", "4"]);
    builder.add_path(&["0", "4"]);
    let graph = builder.build_acyclic().unwrap();

    let paths: Vec<Vec<String>> = graph
        .find_all_paths("0", "4")
        .unwrap()
        .iter()
        .map(|p| p.as_vec())
        .collect();

    assert_eq!(
        paths,
        vec![
            vec!["0", "999", "4"],
            vec!["0", "111", "222", "333", "444", "4"],
            vec!["0", "1", "2", "3", "4"],
            vec!["0", "4"],
        ]
    );
}

#[test]
fn mod_test_topologically_sort() {
    let mut builder = DirectedGraphBuilder::new();
    builder.add_edge("1", "2");
    builder.add_edge("2", "3");
    builder.add_edge("3", "4");
    builder.add_edge("4", "5");
    let graph = builder.build_directed();

    assert!(DirectedAcyclicGraph::build(graph).is_ok());
}

#[test]
fn mod_test_topologically_sort_non_acyclic() {
    let mut builder = DirectedGraphBuilder::new();
    builder.add_edge("1", "2");
    builder.add_edge("2", "3");
    builder.add_edge("3", "4");
    builder.add_edge("4", "5");
    builder.add_edge("5", "1");
    let graph = builder.build_directed();

    assert!(DirectedAcyclicGraph::build(graph).is_err());
}

#[test]
fn test_subset_tree_acyclic() {
    let mut builder = DirectedGraphBuilder::new();
    builder.add_edge("0", "1");
    builder.add_edge("1", "2");
    builder.add_edge("2", "3");
    builder.add_edge("3", "4");
    builder.add_edge("0", "4");
    builder.add_edge("3", "5");

    let graph = builder.build_acyclic().unwrap();

    let subset_graph = graph.subset("1").unwrap();

    assert_eq!(subset_graph.as_graph().get_all_leaves().as_vec(), vec!["4", "5"]);
}

#[test]
fn topological_sort_test_topologically_sort() {
    let mut builder = DirectedGraphBuilder::new();
    builder.add_edge("1", "2");
    builder.add_edge("2", "3");
    builder.add_edge("3", "4");
    builder.add_edge("4", "5");
    let graph = builder.build_directed();

    assert!(topological_sort(&graph).is_ok());
}

#[test]
fn test_topologically_sort_paths() {
    let mut builder = DirectedGraphBuilder::new();
    builder.add_path(&["Hello", "World"]);
    builder.add_path(&["Hello", "Everybody", "Andrés"]);
    builder.add_path(&["Hello", "Everybody", "Andrea"]);
    let graph = builder.build_directed();

    assert!(topological_sort(&graph).is_ok());
}

#[test]
fn topological_sort_test_topologically_sort_non_acyclic() {
    let mut builder = DirectedGraphBuilder::new();
    builder.add_edge("1", "2");
    builder.add_edge("2", "3");
    builder.add_edge("3", "4");
    builder.add_edge("4", "5");
    builder.add_edge("5", "1");
    let graph = builder.build_directed();

    assert!(topological_sort(&graph).is_err());
}

#[test]
fn dag_find_path_walks_the_topological_order() {
    let mut builder = DirectedGraphBuilder::new();
    builder.add_path(&["0", "111", "222", "333", "444", "4"]);
    builder.add_path(&["0", "999", "4"]);
    builder.add_path(&["0", "1", "2", "3", "4"]);
    builder.add_path(&["0", "4"]);
    let graph = builder.build_acyclic().unwrap();

    let path = graph.find_path("0", "4").unwrap().as_vec();
    assert_eq!(path.first().map(|s| s.as_str()), Some("0"));
    assert_eq!(path.last().map(|s| s.as_str()), Some("4"));
    let dg = graph.as_graph();
    for pair in path.windows(2) {
        let kids = dg.children(&[pair[0].as_str()]).unwrap().as_vec();
        assert!(kids.contains(&pair[1]));
    }
    assert_eq!(graph.find_path("4", "4").unwrap().as_vec(), ["4"]);
    assert_eq!(graph.find_path("4", "0").unwrap().len(), 0);
}

#[test]
fn dag_find_all_paths_sorted() {
    let mut builder = DirectedGraphBuilder::new();
    builder.add_path(&["0", "111", "222", "333", "444", "4"]);
    builder.add_path(&["0", "999", "4"]);
    builder.add_path(&["0", "1", "2", "3", "4"]);
    builder.add_path(&["0", "4"]);
    let graph = builder.build_acyclic().unwrap();
    assert_eq!(
        sorted_paths(graph.find_all_paths("0", "4").unwrap()),
        vec![
            vec!["0", "1", "2", "3", "4"],
            vec!["0", "111", "222", "333", "444", "4"],
            vec!["0", "4"],
            vec!["0", "999", "4"],
        ]
    );
}

#[test]
fn dag_topological_order_puts_children_first() {
    let mut builder = DirectedGraphBuilder::new();
    builder.add_path(&["a", "b", "d"]);
    builder.add_path(&["a", "c", "d"]);
    builder.add_edge("x", "c");
    let graph = builder.build_directed();
    let order: Vec<usize> = topological_sort(&graph)
        .unwrap()
        .iter()
        .map(|s| s.into_usize())
        .collect();
    assert_eq!(order.len(), 5);
    let pos = |label_sym: usize| order.iter().position(|&s| s == label_sym).unwrap();
    // Symbols follow first insertion: a=0, b=1, d=2, c=3, x=4.
    for (p, c) in [(0, 1), (1, 2), (0, 3), (3, 2), (4, 3)] {
        assert!(pos(c) < pos(p));
    }
}

#[test]
fn dag_into_inner_keeps_the_graph() {
    let mut builder = DirectedGraphBuilder::new();
    builder.add_edge("a", "b");
    let graph = builder.build_acyclic().unwrap();
    let dg = graph.into_inner();
    assert_eq!(dg.nodes().as_vec(), ["a", "b"]);
}

#[test]
fn acyclic_test_topologically_sort() {
    let mut builder = DirectedGraphBuilder::new();
    builder.add_edge("1", "2");
    builder.add_edge("2", "3");
    builder.add_edge("3", "4");
    builder.add_edge("4", "5");
    let graph = builder.build_directed();

    assert!(topological_sort(&graph).is_ok());
}

#[test]
fn acyclic_test_topologically_sort_non_acyclic() {
    let mut builder = DirectedGraphBuilder::new();
    builder.add_edge("1", "2");
    builder.add_edge("2", "3");
    builder.add_edge("3", "4");
    builder.add_edge("4", "5");
    builder.add_edge("5", "1");
    let graph = builder.build_directed();

    assert!(topological_sort(&graph).is_err());
}

#[test]
fn acyclic_test_find_path_simple() {
    let mut builder = DirectedGraphBuilder::new();
    builder.add_edge("0", "1");
    builder.add_edge("1", "2");
    builder.add_edge("2", "3");
    builder.add_edge("3", "4");
    let graph = DirectedAcyclicGraph::build(builder.build_directed()).unwrap();

    let path = graph.find_path("0", "4").unwrap();

    assert_eq!(path.len(), 5);
}

#[test]
fn acyclic_test_find_path_many_paths() {
    let mut builder = DirectedGraphBuilder::new();
    builder.add_edge("0", "1");
    builder.add_edge("1", "2");
    builder.add_edge("2", "3");
    builder.add_edge("3", "4");
    builder.add_edge("0", "4");
    let graph = DirectedAcyclicGraph::build(builder.build_directed()).unwrap();

    // The walk through the topological order finds some path, here the long one.
    let path = graph.find_path("0", "4").unwrap();

    assert_eq!(path.len(), 5);
}

#[test]
fn acyclic_test_find_all_paths_many_paths() {
    let mut builder = DirectedGraphBuilder::new();
    builder.add_edge("0", "1");
    builder.add_edge("1", "2");
    builder.add_edge("2", "3");
    builder.add_edge("3", "4");
    builder.add_edge("0", "4");
    let graph = DirectedAcyclicGraph::build(builder.build_directed()).unwrap();

    let mut paths: Vec<Vec<String>> = graph
        .find_all_paths("0", "4")
        .unwrap()
        .iter()
        .map(|p| p.as_vec())
        .collect();
    println!("{paths:?}");

    paths.sort_unstable();

    assert_eq!(paths.len(), 2);
    assert_eq!(paths[0].len(), 5);
    assert_eq!(paths[1].len(), 2);
}

#[test]
fn dag_find_path_skips_parents_off_the_way() {
    let mut builder = DirectedGraphBuilder::new();
    builder.add_edge("s", "a");
    builder.add_edge("x", "a");
    builder.add_edge("y", "x");
    let graph = builder.build_acyclic().unwrap();
    assert_eq!(graph.find_path("s", "a").unwrap().as_vec(), ["s", "a"]);
    assert_eq!(graph.find_path("y", "a").unwrap().as_vec(), ["y", "x", "a"]);
    assert_eq!(graph.find_path("s", "x").unwrap().len(), 0);
}
