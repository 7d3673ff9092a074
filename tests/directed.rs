use orbweaver::{DirectedGraphBuilder, GraphInteractionError};

#[test]
fn dg_builder_add_edge() {
    let mut builder = DirectedGraphBuilder::new();
    builder.add_edge("hello", "world");
    let parents: Vec<usize> = builder.parent_symbols().iter().map(|s| s.into_usize()).collect();
    let children: Vec<usize> = builder.child_symbols().iter().map(|s| s.into_usize()).collect();
    assert_eq!(parents, [0], "Parent is not equal");
    assert_eq!(children, [1], "Children is not equal");
}

#[test]
fn dg_builder_add_path() {
    let mut builder = DirectedGraphBuilder::new();
    builder.add_path(&["hello", "world", "again"]);
    let parents: Vec<usize> = builder.parent_symbols().iter().map(|s| s.into_usize()).collect();
    let children: Vec<usize> = builder.child_symbols().iter().map(|s| s.into_usize()).collect();
    assert_eq!(parents, [0, 1], "Parent is not equal");
    assert_eq!(children, [1, 2], "Children is not equal");
}

#[test]
fn dg_get_children() {
    let mut builder = DirectedGraphBuilder::new();
    builder.add_edge("hello", "0");
    builder.add_edge("hello", "1");
    builder.add_edge("hello", "2");
    builder.add_edge("hello", "3");
    builder.add_edge("hello", "4");
    builder.add_edge("other", "5");
    builder.add_edge("other", "6");
    builder.add_edge("other", "7");
    builder.add_edge("other", "8");
    builder.add_edge("other", "9");
    builder.add_edge("other", "10");
    let dg = builder.build_directed();
    assert_eq!(
        dg.children(&["hello"]).unwrap().as_vec(),
        ["4", "1", "3", "0", "2"],
        "Parent is not equal"
    );
    assert_eq!(
        dg.children(&["hello", "other"]).unwrap().as_vec(),
        vec!["4", "1", "3", "0", "2", "6", "8", "5", "10", "7", "9"],
        "Parent is not equal"
    );
}

#[test]
fn dg_get_parents() {
    let mut builder = DirectedGraphBuilder::new();
    builder.add_edge("hello", "0");
    builder.add_edge("hello", "1");
    builder.add_edge("hello", "2");
    builder.add_edge("hello", "3");
    builder.add_edge("hello", "A");
    builder.add_edge("other", "A");
    builder.add_edge("other", "6");
    builder.add_edge("other", "7");
    builder.add_edge("other", "8");
    builder.add_edge("other", "9");
    builder.add_edge("other", "10");
    let dg = builder.build_directed();
    assert_eq!(dg.parents(&["A"]).unwrap().as_vec(), vec!["hello", "other"],);
    assert_eq!(
        dg.parents(&["A", "0"]).unwrap().as_vec(),
        vec!["hello", "other", "hello"],
    );
}

#[test]
fn dg_has_parents() {
    let mut builder = DirectedGraphBuilder::new();
    builder.add_edge("hello", "0");
    builder.add_edge("hello", "1");
    builder.add_edge("hello", "2");
    builder.add_edge("hello", "3");
    builder.add_edge("hello", "A");
    builder.add_edge("other", "A");
    builder.add_edge("other", "6");
    builder.add_edge("other", "7");
    builder.add_edge("other", "8");
    builder.add_edge("other", "9");
    builder.add_edge("other", "10");
    let dg = builder.build_directed();
    assert_eq!(
        dg.has_parents(&["A", "0", "hello", "10"]).unwrap(),
        [true, true, false, true]
    );
}

#[test]
fn dg_has_children() {
    let mut builder = DirectedGraphBuilder::new();
    builder.add_edge("hello", "0");
    builder.add_edge("hello", "1");
    builder.add_edge("hello", "2");
    builder.add_edge("hello", "3");
    builder.add_edge("hello", "A");
    builder.add_edge("other", "A");
    builder.add_edge("other", "6");
    builder.add_edge("other", "7");
    builder.add_edge("other", "8");
    builder.add_edge("other", "9");
    builder.add_edge("other", "10");
    let dg = builder.build_directed();
    assert_eq!(
        dg.has_children(&["hello", "other", "9", "0"]).unwrap(),
        [true, true, false, false]
    );
}

#[test]
fn dg_find_path() {
    let mut builder = DirectedGraphBuilder::new();
    builder.add_path(&["A", "B", "C", "D"]);
    let dg = builder.clone().build_directed();
    assert_eq!(dg.find_path("A", "D").unwrap().as_vec(), ["A", "B", "C", "D"]);

    builder.add_path(&["A", "H", "D"]);
    let dg = builder.clone().build_directed();
    assert_eq!(dg.find_path("A", "D").unwrap().as_vec(), ["A", "H", "D"]);
    assert_eq!(dg.children(&["A"]).unwrap().as_vec(), ["H", "B"]);
}

#[test]
fn dg_find_path_one_to_many() {
    let mut builder = DirectedGraphBuilder::new();
    builder.add_path(&["A", "B", "C", "D"]);
    let dg = builder.clone().build_directed();
    let paths: Vec<Vec<String>> = dg
        .find_path_one_to_many("A", &["A", "B", "C", "D"])
        .unwrap()
        .iter()
        .map(|p| p.as_vec())
        .collect();
    assert_eq!(
        paths,
        [
            vec!["A"],
            vec!["A", "B"],
            vec!["A", "B", "C"],
            vec!["A", "B", "C", "D"],
        ]
    );

    builder.add_path(&["A", "H", "D"]);
    let dg = builder.clone().build_directed();
    let paths: Vec<Vec<String>> = dg
        .find_path_one_to_many("A", &["A", "B", "C", "D"])
        .unwrap()
        .iter()
        .map(|p| p.as_vec())
        .collect();
    assert_eq!(
        paths,
        [
            vec!["A"],
            vec!["A", "B"],
            vec!["A", "B", "C"],
            vec!["A", "H", "D"],
        ]
    );
    assert_eq!(dg.children(&["A"]).unwrap().as_vec(), ["H", "B"]);
}

#[test]
fn dg_find_least_common_parents() {
    let mut builder = DirectedGraphBuilder::new();
    builder.add_edge("A", "B");
    builder.add_edge("A", "C");
    builder.add_edge("C", "D");
    let dg = builder.clone().build_directed();
    assert_eq!(dg.least_common_parents(&["B", "D"]).unwrap().as_vec(), ["B", "D"]);
    assert_eq!(dg.least_common_parents(&["B", "C"]).unwrap().as_vec(), ["B", "C"]);
    assert_eq!(
        dg.least_common_parents(&["B", "C", "D"]).unwrap().as_vec(),
        ["B", "C"]
    );
    assert_eq!(
        dg.least_common_parents(&["A", "B", "C", "D"]).unwrap().as_vec(),
        ["A"]
    );

    let mut builder = DirectedGraphBuilder::new();
    builder.add_edge("A", "B");
    builder.add_edge("B", "C");
    builder.add_edge("C", "D");
    builder.add_edge("C", "E");
    builder.add_edge("F", "D");
    let dg = builder.clone().build_directed();
    assert_eq!(
        dg.least_common_parents(&["A", "B", "C", "D", "E", "F"])
            .unwrap()
            .as_vec(),
        ["A", "F"]
    );
}

#[test]
fn dg_get_all_leaves() {
    let mut builder = DirectedGraphBuilder::new();
    builder.add_edge("A", "B");
    builder.add_edge("A", "C");
    builder.add_edge("C", "D");
    builder.add_edge("C", "H");
    builder.add_edge("0", "1");
    let dg = builder.clone().build_directed();
    assert_eq!(dg.get_all_leaves().as_vec(), ["B", "D", "H", "1"]);
}

#[test]
fn dg_get_leaves_under() {
    let mut builder = DirectedGraphBuilder::new();
    builder.add_edge("A", "B");
    builder.add_edge("A", "C");
    builder.add_edge("C", "D");
    builder.add_edge("C", "H");
    builder.add_edge("0", "1");
    let dg = builder.clone().build_directed();
    assert_eq!(
        dg.get_leaves_under(&["A", "0"]).unwrap().as_vec(),
        ["1", "D", "H", "B"]
    );
    assert_eq!(dg.get_leaves_under(&["A"]).unwrap().as_vec(), ["D", "H", "B"]);
    assert_eq!(dg.get_leaves_under(&["C"]).unwrap().as_vec(), ["D", "H"]);
}

#[test]
fn dg_get_roots_over() {
    let mut builder = DirectedGraphBuilder::new();
    builder.add_edge("A", "B");
    builder.add_edge("A", "C");
    builder.add_edge("C", "D");
    builder.add_edge("C", "H");
    builder.add_edge("0", "1");
    let dg = builder.clone().build_directed();
    assert_eq!(dg.get_roots_over(&["A", "0"]).unwrap().as_vec(), ["0", "A"]);
    assert_eq!(dg.get_roots_over(&["H"]).unwrap().as_vec(), ["A"]);
    assert_eq!(dg.get_roots_over(&["H", "C", "1"]).unwrap().as_vec(), ["0", "A"]);
}

#[test]
fn dg_subset() {
    let mut builder = DirectedGraphBuilder::new();
    builder.add_edge("0", "1");
    builder.add_edge("A", "B");
    builder.add_edge("A", "C");
    builder.add_edge("C", "D");
    builder.add_edge("C", "H");
    let dg = builder.clone().build_directed();
    let dg2 = dg.subset("A").unwrap();
    // The subset knows nothing of the edges under "0".
    assert_eq!(dg2.get_roots_over(&["A"]).unwrap().as_vec(), ["A"]);
    assert_eq!(dg2.get_roots_over(&["H"]).unwrap().as_vec(), ["A"]);
    assert_eq!(dg2.get_roots_over(&["H", "C", "1"]).unwrap().as_vec(), ["A"]);
    assert_eq!(dg2.nodes().as_vec(), ["A", "B", "C", "D", "H"]);
}

#[test]
fn dg_subset_multi_single_node() {
    let mut builder = DirectedGraphBuilder::new();
    builder.add_edge("0", "1");
    builder.add_edge("A", "B");
    builder.add_edge("A", "C");
    builder.add_edge("C", "D");
    builder.add_edge("C", "H");
    let dg = builder.clone().build_directed();
    let dg2 = dg.subset_multi(&["A"]).unwrap();
    assert_eq!(dg2.get_roots_over(&["A"]).unwrap().as_vec(), ["A"]);
    assert_eq!(dg2.get_roots_over(&["H"]).unwrap().as_vec(), ["A"]);
    assert_eq!(dg2.get_roots_over(&["H", "C", "1"]).unwrap().as_vec(), ["A"]);
    assert_eq!(dg2.nodes().as_vec(), ["A", "B", "C", "D", "H"]);
}

#[test]
fn dg_subset_multi_many_nodes_all_roots() {
    let mut builder = DirectedGraphBuilder::new();
    builder.add_edge("0", "1");
    builder.add_edge("A", "B");
    builder.add_edge("A", "C");
    builder.add_edge("C", "D");
    builder.add_edge("C", "H");
    let dg = builder.clone().build_directed();
    let dg2 = dg.subset_multi(&["A", "0"]).unwrap();
    assert_eq!(dg2.get_roots_over(&["A"]).unwrap().as_vec(), ["A"]);
    assert_eq!(dg2.get_roots_over(&["H"]).unwrap().as_vec(), ["A"]);
    assert_eq!(dg2.get_all_roots().as_vec(), vec!["0", "A"]);
    assert_eq!(dg2.get_roots_over(&["H", "C", "1"]).unwrap().as_vec(), ["0", "A"]);
    assert_eq!(dg2.nodes().as_vec(), ["0", "1", "A", "B", "C", "D", "H"]);
}

#[test]
fn dg_subset_multi_many_nodes_single_roots() {
    let mut builder = DirectedGraphBuilder::new();
    builder.add_edge("0", "1");
    builder.add_edge("A", "B");
    builder.add_edge("A", "C");
    builder.add_edge("C", "D");
    builder.add_edge("C", "H");
    let dg = builder.clone().build_directed();
    let dg2 = dg.subset_multi(&["A", "D"]).unwrap();
    assert_eq!(dg2.get_roots_over(&["A"]).unwrap().as_vec(), ["A"]);
    assert_eq!(dg2.get_roots_over(&["H"]).unwrap().as_vec(), ["A"]);
    assert_eq!(dg2.get_roots_over(&["H", "C", "1"]).unwrap().as_vec(), ["A"]);
    assert_eq!(dg2.nodes().as_vec(), ["A", "B", "C", "D", "H"]);
}

#[test]
fn dg_subset_multi_with_limit_single_root() {
    let mut builder = DirectedGraphBuilder::new();
    builder.add_edge("A", "B");
    builder.add_edge("A", "C");
    builder.add_edge("C", "D");
    builder.add_edge("C", "E");
    builder.add_edge("E", "F");
    let dg = builder.clone().build_directed();

    let dg2 = dg.subset_multi_with_limit(&["A"], 1).unwrap();
    assert_eq!(dg2.nodes().as_vec(), ["A", "B", "C"]);

    let dg3 = dg.subset_multi_with_limit(&["A"], 2).unwrap();
    assert_eq!(dg3.nodes().as_vec(), ["A", "B", "C", "D", "E"]);

    let dg4 = dg.subset_multi_with_limit(&["A"], 3).unwrap();
    assert_eq!(dg4.nodes().as_vec(), ["A", "B", "C", "D", "E", "F"]);
}

#[test]
fn dg_subset_multi_with_limit_multiple_roots() {
    let mut builder = DirectedGraphBuilder::new();
    builder.add_edge("A", "B");
    builder.add_edge("A", "C");
    builder.add_edge("C", "D");
    builder.add_edge("X", "Y");
    builder.add_edge("Y", "Z");
    let dg = builder.clone().build_directed();

    let dg2 = dg.subset_multi_with_limit(&["A", "X"], 1).unwrap();
    assert_eq!(dg2.nodes().as_vec(), ["A", "B", "C", "X", "Y"]);

    let dg3 = dg.subset_multi_with_limit(&["A", "X"], 2).unwrap();
    assert_eq!(dg3.nodes().as_vec(), ["A", "B", "C", "D", "X", "Y", "Z"]);
}

#[test]
fn dg_subset_multi_with_limit_exceeding_depth() {
    let mut builder = DirectedGraphBuilder::new();
    builder.add_edge("A", "B");
    builder.add_edge("B", "C");
    builder.add_edge("C", "D");
    builder.add_edge("D", "E");
    let dg = builder.clone().build_directed();

    let dg2 = dg.subset_multi_with_limit(&["A"], 10).unwrap();
    assert_eq!(dg2.nodes().as_vec(), ["A", "B", "C", "D", "E"]);
}

#[test]
fn dg_subset_multi_with_limit_disjoint_graphs() {
    let mut builder = DirectedGraphBuilder::new();
    builder.add_edge("A", "B");
    builder.add_edge("A", "C");
    builder.add_edge("X", "Y");
    builder.add_edge("Y", "Z");
    let dg = builder.clone().build_directed();

    let dg2 = dg.subset_multi_with_limit(&["A", "X"], 1).unwrap();
    assert_eq!(dg2.nodes().as_vec(), ["A", "B", "C", "X", "Y"]);
}

#[test]
fn dg_subset_multi_with_limit_missing_root() {
    let mut builder = DirectedGraphBuilder::new();
    builder.add_edge("A", "B");
    builder.add_edge("B", "C");
    let dg = builder.clone().build_directed();

    let res = dg.subset_multi_with_limit(&["Z"], 1);
    assert!(
        res.is_err(),
        "Expected an error because root 'Z' doesn't exist in the graph."
    );
    assert!(matches!(res, Err(GraphInteractionError::NodeNotExist(ref s)) if s == "Z"));
}

#[test]
fn dg_subset_multi_with_limit_cycle() {
    // A --> B --> C --> A
    let mut builder = DirectedGraphBuilder::new();
    builder.add_edge("A", "B");
    builder.add_edge("B", "C");
    builder.add_edge("C", "A");
    let dg = builder.build_directed();

    let dg2 = dg.subset_multi_with_limit(&["A"], 2).unwrap();

    assert_eq!(dg2.nodes().len(), 3);
    let nodes = dg2.nodes().as_vec();
    assert!(nodes.contains(&"A".to_string()));
    assert!(nodes.contains(&"B".to_string()));
    assert!(nodes.contains(&"C".to_string()));
}
