use conftool::graph::{Graph, GraphError, Incomplete};

#[test]
fn single_dependency() {
    let mut graph: Graph<Incomplete> = Graph::new();
    graph.insert("CONFIG_DEPENDENT", &vec!["CONFIG_PARENT"]).unwrap();
    graph.insert("CONFIG_PARENT", &[]).unwrap();
    let graph = graph.into_complete().unwrap();
    let deps = graph.dependencies_of("CONFIG_DEPENDENT").unwrap();

    assert_eq!(deps, vec!["CONFIG_PARENT"]);
    let deps = graph.dependencies_of("CONFIG_PARENT").unwrap();
    assert_eq!(deps.len(), 0);
}

#[test]
fn cannot_complete_graph_with_missing_dependencies() {
    let mut graph: Graph<Incomplete> = Graph::new();
    graph.insert("CONFIG_TEST", &vec!["CONFIG_NEVER_INSERTED"]).unwrap();
    assert!(graph.into_complete().is_err());
}

#[test]
fn multiple_intra_independent_dependencies() {
    let mut graph: Graph<Incomplete> = Graph::new();
    let opts = ["CONFIG_TEST", "CONFIG_FIRST_ROOT", "CONFIG_SECOND_ROOT"];
    graph.insert(opts[1], &[]).unwrap();
    graph.insert(opts[2], &[]).unwrap();
    graph.insert(opts[0], &opts[1..=2]).unwrap();
    let graph = graph.into_complete().unwrap();
    let deps = graph.dependencies_of("CONFIG_TEST").unwrap();
    assert_eq!(deps, &opts[1..=2]);
}

#[test]
fn deep_dependency_tree() {
    let mut graph: Graph<Incomplete> = Graph::new();
    let mut opts: Vec<String> = Vec::with_capacity(10);
    for i in 0..10 {
        opts.push(format!("TEST_CONFIG{}", i));
    }

    if let Some((last, rest)) = opts.split_last() {
        for (i, opt) in rest.iter().enumerate() {
            graph.insert(opt, &[opts[i + 1].as_str()]).unwrap();
        }
        graph.insert(last, &[]).unwrap();
    } else {
        assert!(false);
    }

    let graph = graph.into_complete().unwrap();

    for (i, opt) in opts.iter().enumerate() {
        let deps = graph.dependencies_of(opt.as_str()).unwrap();
        assert_eq!(deps, &opts[i + 1..opts.len()]);
    }
}

#[test]
fn disjointed_graph() {
    let mut graph: Graph<Incomplete> = Graph::new();
    let opts = ["CONFIG0", "CONFIG1", "CONFIG2", "CONFIG3"];
    graph.insert(opts[0], &[opts[1]]).unwrap();
    graph.insert(opts[1], &[]).unwrap();
    graph.insert(opts[2], &[opts[3]]).unwrap();
    graph.insert(opts[3], &[]).unwrap();
    let graph = graph.into_complete().unwrap();
    let deps = graph.dependencies_of(opts[0]).unwrap();
    assert_eq!(deps, &[opts[1]]);
    let deps = graph.dependencies_of(opts[1]).unwrap();
    assert_eq!(deps.len(), 0usize);
    let deps = graph.dependencies_of(opts[2]).unwrap();
    assert_eq!(deps, &[opts[3]]);
    let deps = graph.dependencies_of(opts[3]).unwrap();
    assert_eq!(deps.len(), 0usize);
}

#[test]
fn vertex_cannot_depend_on_itself() {
    let mut graph: Graph<Incomplete> = Graph::new();
    assert!(graph.insert("CONFIG_TEST", &["CONFIG_TEST"]).is_err())
}

#[test]
fn dependencies_cannot_include_duplciates() {
    let mut graph: Graph<Incomplete> = Graph::new();
    assert!(graph.insert("CONFIG_TEST", &["CONFIG_ANOTHER", "CONFIG_ANOTHER"]).is_err());
}

#[test]
fn single_dependent_node_found() {
    let mut graph: Graph<Incomplete> = Graph::new();
    graph.insert("CONFIG_PARENT", &[]).unwrap();
    graph.insert("CONFIG_CHILD", &["CONFIG_PARENT"]).unwrap();
    let graph = graph.into_complete().unwrap();
    let dependent = graph.dependent_vertices("CONFIG_PARENT").unwrap();
    assert_eq!(dependent.len(), 1);
    assert_eq!(dependent[0], "CONFIG_CHILD");
}

#[test]
fn deep_dependent_chain() {
    let mut graph: Graph<Incomplete> = Graph::new();
    let opts = ["CONFIG0", "CONFIG1", "CONFIG2", "CONFIG3"];
    if let Some((last, rest)) = opts.split_last() {
        for (i, opt) in rest.iter().enumerate() {
            graph.insert(opt, &[opts[i + 1]]).unwrap();
        }
        graph.insert(last, &[]).unwrap();
    }
    let graph = graph.into_complete().unwrap();
    let mut dependent = graph.dependent_vertices("CONFIG3").unwrap();
    dependent.sort();
    assert_eq!(dependent, &opts[..opts.len() - 1]);
}

#[test]
fn multiple_independent_children() {
    let mut graph: Graph<Incomplete> = Graph::new();
    let opts = ["CONFIG_CHILD0", "CONFIG_CHILD1", "CONFIG_CHILD2"];
    graph.insert("CONFIG_PARENT", &[]).unwrap();
    for opt in opts {
        graph.insert(opt, &["CONFIG_PARENT"]).unwrap();
    }
    let graph = graph.into_complete().unwrap();
    let mut dependent = graph.dependent_vertices("CONFIG_PARENT").unwrap();
    dependent.sort();
    assert_eq!(dependent, opts);
}

#[test]
fn insert_reports_each_error_kind() {
    let mut graph: Graph<Incomplete> = Graph::new();
    graph.insert("A", &[]).unwrap();
    assert_eq!(graph.insert("A", &["B"]), Err(GraphError::DuplicateNode));
    assert_eq!(graph.insert("B", &["B"]), Err(GraphError::SelfDependency));
    assert_eq!(graph.insert("B", &["A", "A"]), Err(GraphError::DuplicateDependency));
    // duplicate dependencies are reported before a duplicate node
    assert_eq!(graph.insert("A", &["C", "C"]), Err(GraphError::DuplicateDependency));
    // a failed insertion leaves the graph as it was
    graph.insert("B", &["A"]).unwrap();
    let graph = graph.into_complete().unwrap();
    assert_eq!(graph.dependencies_of("B").unwrap(), vec!["A"]);
}

#[test]
fn seal_fails_with_incomplete_graph() {
    let mut graph: Graph<Incomplete> = Graph::new();
    graph.insert("A", &["B", "C"]).unwrap();
    graph.insert("B", &[]).unwrap();
    assert_eq!(graph.into_complete().err(), Some(GraphError::IncompleteGraph));
}

#[test]
fn seal_succeeds_once_forward_references_resolve() {
    let mut graph: Graph<Incomplete> = Graph::new();
    graph.insert("A", &["B", "C"]).unwrap();
    graph.insert("B", &["C"]).unwrap();
    graph.insert("C", &[]).unwrap();
    let graph = graph.into_complete().unwrap();
    let mut deps = graph.dependencies_of("A").unwrap();
    deps.sort();
    assert_eq!(deps, vec!["B", "C"]);
    let mut dependent = graph.dependent_vertices("C").unwrap();
    dependent.sort();
    assert_eq!(dependent, vec!["A", "B"]);
}

#[test]
fn unknown_node_is_reported() {
    let mut graph: Graph<Incomplete> = Graph::new();
    graph.insert("A", &[]).unwrap();
    let graph = graph.into_complete().unwrap();
    assert_eq!(graph.dependencies_of("Z"), Err(GraphError::UnknownNode));
    assert_eq!(graph.dependent_vertices("Z"), Err(GraphError::UnknownNode));
}

#[test]
fn dependencies_and_dependents_are_dual() {
    let mut graph: Graph<Incomplete> = Graph::new();
    graph.insert("A", &["B"]).unwrap();
    graph.insert("B", &["C", "D"]).unwrap();
    graph.insert("C", &["D"]).unwrap();
    graph.insert("D", &[]).unwrap();
    graph.insert("E", &["A"]).unwrap();
    let graph = graph.into_complete().unwrap();
    let names = ["A", "B", "C", "D", "E"];
    for a in names {
        for b in names {
            let down = graph.dependencies_of(a).unwrap().iter().any(|x| x == b);
            let up = graph.dependent_vertices(b).unwrap().iter().any(|x| x == a);
            assert_eq!(down, up, "{} -> {}", a, b);
        }
    }
}

#[test]
fn cycle_is_traversed_once() {
    let mut graph: Graph<Incomplete> = Graph::new();
    graph.insert("A", &["B"]).unwrap();
    graph.insert("B", &["C"]).unwrap();
    graph.insert("C", &["A"]).unwrap();
    let graph = graph.into_complete().unwrap();
    let mut deps = graph.dependencies_of("A").unwrap();
    deps.sort();
    assert_eq!(deps, vec!["A", "B", "C"]);
}
