use orbweaver::snapshot::{is_current_version, read_version, u32_to_le, version_to_bytes};
use orbweaver::{
    DirectedGraph, DirectedGraphBuilder, GraphHasCycle, GraphInteractionError, NodeVec, Sym,
};

fn sorted(v: NodeVec) -> Vec<String> {
    let mut out = v.as_vec();
    out.sort();
    out
}

fn diamond() -> DirectedGraph {
    let mut builder = DirectedGraphBuilder::new();
    builder.add_edge("a", "b");
    builder.add_edge("a", "c");
    builder.add_edge("b", "d");
    builder.add_edge("c", "d");
    builder.build_directed()
}

fn labels(dg: &DirectedGraph) -> Vec<String> {
    dg.nodes().as_vec()
}

#[test]
fn empty_fan_out() {
    let mut builder = DirectedGraphBuilder::new();
    builder.add_edge("a", "b");
    let dg = builder.build_directed();
    assert_eq!(dg.nodes().as_vec(), ["a", "b"]);
    assert_eq!(dg.get_all_roots().as_vec(), ["a"]);
    assert_eq!(dg.get_all_leaves().as_vec(), ["b"]);
    assert_eq!(dg.children(&["a"]).unwrap().as_vec(), ["b"]);
    assert_eq!(dg.parents(&["b"]).unwrap().as_vec(), ["a"]);
    assert_eq!(dg.find_path("a", "b").unwrap().as_vec(), ["a", "b"]);
    assert_eq!(dg.find_path("b", "a").unwrap().as_vec(), Vec::<String>::new());
}

#[test]
fn diamond_scenario() {
    let dg = diamond();
    assert_eq!(dg.get_all_roots().as_vec(), ["a"]);
    assert_eq!(dg.get_all_leaves().as_vec(), ["d"]);
    let path = dg.find_path("a", "d").unwrap().as_vec();
    assert_eq!(path.len(), 3);
    assert!(path == ["a", "b", "d"] || path == ["a", "c", "d"]);
    let mut all: Vec<Vec<String>> = dg
        .find_all_paths("a", "d")
        .unwrap()
        .iter()
        .map(|p| p.as_vec())
        .collect();
    all.sort();
    assert_eq!(all, vec![vec!["a", "b", "d"], vec!["a", "c", "d"]]);
    assert_eq!(dg.least_common_parents(&["b", "c", "d"]).unwrap().as_vec(), ["b", "c"]);
}

#[test]
fn cycle_rejection() {
    let mut builder = DirectedGraphBuilder::new();
    builder.add_path(&["1", "2", "3", "4", "5", "1"]);
    let dg = builder.clone().build_directed();
    assert_eq!(dg.len(), 5);
    assert!(matches!(builder.build_acyclic(), Err(GraphHasCycle)));
}

#[test]
fn multi_root_coverage() {
    let mut builder = DirectedGraphBuilder::new();
    builder.add_edge("A", "B");
    builder.add_edge("A", "C");
    builder.add_edge("C", "D");
    builder.add_edge("C", "H");
    builder.add_edge("0", "1");
    let dg = builder.build_directed();
    assert_eq!(sorted(dg.get_all_roots()), ["0", "A"]);
    assert_eq!(sorted(dg.get_all_leaves()), ["1", "B", "D", "H"]);
    let sub = dg.subset("A").unwrap();
    assert_eq!(sorted(sub.nodes()), ["A", "B", "C", "D", "H"]);
    assert_eq!(sub.get_all_roots().as_vec(), ["A"]);
}

#[test]
fn dag_path_via_topological_sort() {
    let mut builder = DirectedGraphBuilder::new();
    builder.add_path(&["0", "111", "222", "333", "444", "4"]);
    builder.add_path(&["0", "999", "4"]);
    builder.add_path(&["0", "1", "2", "3", "4"]);
    builder.add_path(&["0", "4"]);
    let dag = builder.build_acyclic().unwrap();
    let path = dag.find_path("0", "4").unwrap().as_vec();
    assert_eq!(path.first().unwrap(), "0");
    assert_eq!(path.last().unwrap(), "4");
    assert_eq!(dag.find_all_paths("0", "4").unwrap().len(), 4);
}

#[test]
fn subset_with_limit_scenario() {
    let mut builder = DirectedGraphBuilder::new();
    builder.add_edge("A", "B");
    builder.add_edge("A", "C");
    builder.add_edge("C", "D");
    builder.add_edge("C", "E");
    builder.add_edge("E", "F");
    let dg = builder.build_directed();
    let one = dg.subset_with_limit("A", 1).unwrap();
    assert_eq!(labels(&one), ["A", "B", "C"]);
    assert_eq!(one.get_all_leaves().as_vec(), ["B", "C"]);
    assert_eq!(labels(&dg.subset_with_limit("A", 2).unwrap()), ["A", "B", "C", "D", "E"]);
    assert_eq!(
        labels(&dg.subset_with_limit("A", 3).unwrap()),
        ["A", "B", "C", "D", "E", "F"]
    );
    assert!(matches!(
        dg.subset_with_limit("A", 0),
        Err(GraphInteractionError::ZeroSubsetLimit)
    ));
    assert!(matches!(
        dg.subset_multi_with_limit(&["A"], 0),
        Err(GraphInteractionError::ZeroSubsetLimit)
    ));
}

#[test]
fn edge_count_matches_neighbour_lists() {
    let mut builder = DirectedGraphBuilder::new();
    builder.add_edge("a", "b");
    builder.add_edge("a", "b");
    builder.add_edge("a", "c");
    builder.add_edge("c", "b");
    builder.add_edge("b", "a");
    let dg = builder.build_directed();
    let all = dg.nodes().as_vec();
    let refs: Vec<&str> = all.iter().map(|s| s.as_str()).collect();
    assert_eq!(dg.n_edges(), 4);
    assert_eq!(dg.children(&refs).unwrap().len(), 4);
    assert_eq!(dg.parents(&refs).unwrap().len(), 4);
}

#[test]
fn children_and_parents_agree() {
    let dg = diamond();
    for p in ["a", "b", "c", "d"] {
        for c in dg.children(&[p]).unwrap().as_vec() {
            assert!(dg.parents(&[c.as_str()]).unwrap().as_vec().contains(&p.to_string()));
        }
        for q in dg.parents(&[p]).unwrap().as_vec() {
            assert!(dg.children(&[q.as_str()]).unwrap().as_vec().contains(&p.to_string()));
        }
    }
}

#[test]
fn roots_and_leaves_match_neighbour_slots() {
    let mut builder = DirectedGraphBuilder::new();
    builder.add_path(&["r", "m", "l"]);
    builder.add_edge("r", "x");
    let dg = builder.build_directed();
    let nodes = dg.nodes().as_vec();
    let refs: Vec<&str> = nodes.iter().map(|s| s.as_str()).collect();
    let has_p = dg.has_parents(&refs).unwrap();
    let has_c = dg.has_children(&refs).unwrap();
    let roots = dg.get_all_roots().as_vec();
    let leaves = dg.get_all_leaves().as_vec();
    for (i, n) in nodes.iter().enumerate() {
        assert_eq!(roots.contains(n), !has_p[i]);
        assert_eq!(leaves.contains(n), !has_c[i]);
    }
}

#[test]
fn subset_holds_what_the_node_reaches() {
    let mut builder = DirectedGraphBuilder::new();
    builder.add_path(&["a", "b", "c"]);
    builder.add_edge("b", "d");
    builder.add_edge("z", "b");
    builder.add_edge("c", "b");
    let dg = builder.build_directed();
    let sub = dg.subset("a").unwrap();
    assert_eq!(sorted(sub.nodes()), ["a", "b", "c", "d"]);
    assert_eq!(sub.get_all_roots().as_vec(), ["a"]);
    assert_eq!(sorted(sub.get_all_leaves()), ["d"]);
    assert_eq!(sorted(dg.get_leaves_under(&["a"]).unwrap()), ["d"]);
    assert_eq!(sorted(sub.children(&["b"]).unwrap()), ["c", "d"]);
    assert_eq!(sub.n_edges(), 4);
}

#[test]
fn subset_twice_keeps_the_edges() {
    let mut builder = DirectedGraphBuilder::new();
    builder.add_path(&["a", "b", "c", "a"]);
    builder.add_edge("b", "x");
    builder.add_edge("y", "a");
    let dg = builder.build_directed();
    let once = dg.subset("b").unwrap();
    let twice = once.subset("b").unwrap();
    assert_eq!(once.n_edges(), twice.n_edges());
    assert_eq!(sorted(once.nodes()), sorted(twice.nodes()));
    for n in once.nodes().as_vec() {
        assert_eq!(
            sorted(once.children(&[n.as_str()]).unwrap()),
            sorted(twice.children(&[n.as_str()]).unwrap())
        );
    }
}

#[test]
fn found_paths_follow_edges() {
    let mut builder = DirectedGraphBuilder::new();
    builder.add_path(&["s", "a", "b", "t"]);
    builder.add_path(&["s", "c", "t"]);
    builder.add_edge("b", "s");
    let dg = builder.build_directed();
    let path = dg.find_path("s", "t").unwrap().as_vec();
    assert_eq!(path, ["s", "c", "t"]);
    let all = dg.find_all_paths("s", "t").unwrap();
    assert_eq!(all.len(), 2);
    for p in all {
        let p = p.as_vec();
        assert_eq!(p.first().unwrap(), "s");
        assert_eq!(p.last().unwrap(), "t");
        for pair in p.windows(2) {
            assert!(dg.children(&[pair[0].as_str()]).unwrap().as_vec().contains(&pair[1]));
        }
    }
    assert_eq!(dg.find_path("t", "s").unwrap().len(), 0);
}

#[test]
fn least_common_parents_upper_frontier() {
    let dg = diamond();
    assert_eq!(dg.least_common_parents(&["a", "d"]).unwrap().as_vec(), ["a", "d"]);
    assert_eq!(dg.least_common_parents(&["a", "b", "d"]).unwrap().as_vec(), ["a"]);
    assert_eq!(dg.least_common_parents(&["d", "b", "d"]).unwrap().as_vec(), ["b"]);
    assert_eq!(dg.least_common_parents(&[]).unwrap().len(), 0);
}

#[test]
fn unknown_labels_are_reported() {
    let dg = diamond();
    assert!(matches!(dg.children(&["a", "nope", "zz"]),
        Err(GraphInteractionError::NodeNotExist(ref s)) if s == "nope"));
    assert!(matches!(dg.find_path("x", "a"),
        Err(GraphInteractionError::NodeNotExist(ref s)) if s == "x"));
    assert!(matches!(dg.find_path("a", "y"),
        Err(GraphInteractionError::NodeNotExist(ref s)) if s == "y"));
    assert!(matches!(dg.subset("q"),
        Err(GraphInteractionError::NodeNotExist(ref s)) if s == "q"));
    assert!(matches!(dg.has_parents(&["w"]),
        Err(GraphInteractionError::NodeNotExist(ref s)) if s == "w"));
    assert!(matches!(dg.find_path_one_to_many("a", &["b", "v"]),
        Err(GraphInteractionError::NodeNotExist(ref s)) if s == "v"));
}

#[test]
fn one_to_many_reuses_earlier_paths() {
    let mut builder = DirectedGraphBuilder::new();
    builder.add_path(&["s", "a", "b", "c"]);
    builder.add_path(&["b", "d"]);
    let dg = builder.build_directed();
    let paths: Vec<Vec<String>> = dg
        .find_path_one_to_many("s", &["b", "c", "d", "s", "x"].map(|x| if x == "x" { "s" } else { x }))
        .unwrap()
        .iter()
        .map(|p| p.as_vec())
        .collect();
    assert_eq!(paths[0], ["s", "a", "b"]);
    assert_eq!(paths[1], ["s", "a", "b", "c"]);
    assert_eq!(paths[2], ["s", "a", "b", "d"]);
    assert_eq!(paths[3], ["s"]);
    let none = dg.find_path_one_to_many("c", &["s"]).unwrap();
    assert_eq!(none[0].len(), 0);
}

#[test]
fn roots_over_and_leaves_under() {
    let dg = diamond();
    assert_eq!(dg.get_roots_over(&["d"]).unwrap().as_vec(), ["a"]);
    assert_eq!(dg.get_leaves_under(&["a", "b"]).unwrap().as_vec(), ["d"]);
    assert_eq!(dg.get_leaves_under(&["d"]).unwrap().as_vec(), ["d"]);
}

#[test]
fn subset_multi_of_nothing_copies_the_graph() {
    let dg = diamond();
    let copy = dg.subset_multi(&[]).unwrap();
    assert_eq!(copy.nodes().as_vec(), dg.nodes().as_vec());
    assert_eq!(copy.n_edges(), dg.n_edges());
    let cloned = dg.clone();
    assert_eq!(cloned.get_all_roots().as_vec(), ["a"]);
}

#[test]
fn empty_graph() {
    let dg = DirectedGraphBuilder::new().build_directed();
    assert!(dg.is_empty());
    assert_eq!(dg.len(), 0);
    assert_eq!(dg.get_all_roots().len(), 0);
}

#[test]
fn node_vec_access() {
    let dg = diamond();
    let nodes = dg.nodes();
    assert_eq!(nodes.len(), 4);
    assert!(!nodes.is_empty());
    assert_eq!(nodes.get(1), Some("b"));
    assert_eq!(nodes.get(9), None);
    assert_eq!(nodes.as_slice()[3], "d");
    let mut it = nodes.iter();
    assert_eq!(it.next().as_deref(), Some("a"));
    assert_eq!(it.next().as_deref(), Some("b"));
    assert_eq!(it.next().as_deref(), Some("c"));
    assert_eq!(it.next().as_deref(), Some("d"));
    assert_eq!(it.next(), None);
}

#[test]
fn symbols() {
    let s = Sym::new(7);
    assert_eq!(s.into_usize(), 7);
    assert!(!s.is_reserved());
    assert!(Sym::reserved().is_reserved());
    assert_eq!(Sym::reserved().into_usize(), u32::MAX as usize);
}

#[test]
fn error_messages() {
    assert_eq!(
        GraphHasCycle.message(),
        "Unable to topologically sort, graph has at least one cycle"
    );
    let err = GraphInteractionError::node_not_exists("abc");
    assert_eq!(err.message(), "Node `abc` does not exist");
    match err {
        GraphInteractionError::NodeNotExist(s) => assert_eq!(s, "abc"),
        _ => panic!("wrong variant"),
    }
    assert_eq!(
        GraphInteractionError::ZeroSubsetLimit.message(),
        "Cannot set a `0` limit for a subset operation"
    );
    assert_eq!(
        GraphInteractionError::InternalResolve(7).message(),
        "Internal symbol `7` does not exist"
    );
}

#[test]
fn snapshot_rebuilds_the_same_graph() {
    let dg = diamond();
    let (labels, parents, children) = dg.snapshot();
    assert_eq!(labels, ["a", "b", "c", "d"]);
    assert_eq!(parents.len(), 4);
    let rebuilt = DirectedGraphBuilder::from_snapshot(&labels, &parents, &children)
        .unwrap()
        .build_directed();
    assert_eq!(rebuilt.nodes().as_vec(), dg.nodes().as_vec());
    assert_eq!(rebuilt.n_edges(), 4);
    for n in ["a", "b", "c", "d"] {
        assert_eq!(
            sorted(rebuilt.children(&[n]).unwrap()),
            sorted(dg.children(&[n]).unwrap())
        );
    }
    let twice = vec!["a".to_string(), "a".to_string()];
    assert!(DirectedGraphBuilder::from_snapshot(&twice, &[], &[]).is_none());
    assert!(DirectedGraphBuilder::from_snapshot(&labels, &[0], &[9]).is_none());
    assert!(DirectedGraphBuilder::from_snapshot(&labels, &[0], &[]).is_none());
}

#[test]
fn version_prefix() {
    let bytes = version_to_bytes();
    assert_eq!(bytes, [0, 0, 0, 0, 14, 0, 0, 0]);
    assert_eq!(read_version(&bytes), Some((0, 14)));
    assert!(is_current_version((0, 14)));
    assert!(!is_current_version((0, 13)));
    assert_eq!(read_version(&bytes[..7]), None);
    assert_eq!(u32_to_le(0x0102_0304), [4, 3, 2, 1]);
    assert_eq!(read_version(&[1, 0, 0, 0, 0, 1, 0, 0]), Some((1, 256)));
}

#[test]
fn nodes_come_in_symbol_order() {
    let mut builder = DirectedGraphBuilder::new();
    builder.add_edge("c", "a");
    builder.add_edge("b", "c");
    builder.add_edge("b", "a");
    let dg = builder.build_directed();
    assert_eq!(dg.nodes().as_vec(), ["c", "a", "b"]);
    assert_eq!(dg.get_all_leaves().as_vec(), ["a"]);
    assert_eq!(dg.get_all_roots().as_vec(), ["b"]);
    assert_eq!(dg.n_edges(), 3);
}

#[test]
fn labels_take_symbols_in_first_insertion_order() {
    let mut builder = DirectedGraphBuilder::new();
    builder.add_edge("b", "a");
    builder.add_path(&["c", "b", "d"]);
    let dg = builder.build_directed();
    assert_eq!(dg.nodes().as_vec(), ["b", "a", "c", "d"]);
}
