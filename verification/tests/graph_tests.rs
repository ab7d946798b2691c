use nss::commit_graph::Graph;

#[test]
fn test_common_vertex_value() {
    let mut graph = Graph::new();

    let v7_id = graph.add_vertex("v7".to_string());
    let v4_id = graph.add_vertex("v4".to_string());
    let v3_id = graph.add_vertex("v3".to_string());
    let v2_id = graph.add_vertex("v2".to_string());
    let v1_id = graph.add_vertex("v1".to_string());

    let _ = graph.add_edges(v7_id, v4_id);
    let _ = graph.add_edges(v4_id, v3_id);
    let _ = graph.add_edges(v4_id, v2_id);
    let _ = graph.add_edges(v2_id, v1_id);

    let mut another_graph = Graph::new();
    let v5_id = another_graph.add_vertex("v5".to_string());
    let v2_id = another_graph.add_vertex("v2".to_string());
    let v1_id = another_graph.add_vertex("v1".to_string());
    let _ = another_graph.add_edges(v5_id, v2_id);
    let _ = another_graph.add_edges(v2_id, v1_id);

    let common = graph.common_vertex_value(&another_graph);

    assert_eq!(common, Some(&"v2".to_string()));
}

#[test]
fn test_graph_2() {}

#[test]
fn test_add_vertex_deduplicates() {
    let mut graph = Graph::new();
    let a = graph.add_vertex("abc".to_string());
    let b = graph.add_vertex("def".to_string());
    let again = graph.add_vertex("abc".to_string());
    assert_eq!(a, again);
    assert_ne!(a, b);
    assert_eq!(graph.vertex_count(), 2);
}

#[test]
fn test_distance_follows_edges() {
    let mut graph = Graph::new();
    let a = graph.add_vertex("a".to_string());
    let b = graph.add_vertex("b".to_string());
    let c = graph.add_vertex("c".to_string());
    graph.add_edges(a, b);
    graph.add_edges(b, c);
    assert_eq!(graph.efge_count(), 2);
    assert_eq!(
        graph.distance(&"a".to_string(), &"c".to_string()),
        Some(2)
    );
    assert_eq!(
        graph.distance(&"a".to_string(), &"a".to_string()),
        Some(0)
    );
    // edges are directed child to parent: no way back
    assert_eq!(graph.distance(&"c".to_string(), &"a".to_string()), None);
    assert_eq!(graph.distance(&"a".to_string(), &"zz".to_string()), None);
}

#[test]
fn test_distance_is_shortest() {
    // two routes from a to c: the direct edge wins over the detour
    let mut graph = Graph::new();
    let a = graph.add_vertex("a".to_string());
    let b = graph.add_vertex("b".to_string());
    let c = graph.add_vertex("c".to_string());
    graph.add_edges(a, b);
    graph.add_edges(b, c);
    graph.add_edges(a, c);
    assert_eq!(graph.distance(&"a".to_string(), &"c".to_string()), Some(1));
}

#[test]
fn test_get_vertex_value() {
    let mut graph = Graph::new();
    let id = graph.add_vertex("deadbeef".to_string());
    assert_eq!(graph.get_vertex_value(id), Some(&"deadbeef".to_string()));
}

#[test]
fn test_add_commit_links_parents() {
    let mut graph = Graph::new();
    graph.add_commit(
        "child".to_string(),
        vec!["p1".to_string(), "p2".to_string()],
    );
    graph.add_commit("p1".to_string(), vec![]);
    assert_eq!(graph.vertex_count(), 3);
    assert_eq!(graph.efge_count(), 2);
    assert_eq!(
        graph.distance(&"child".to_string(), &"p2".to_string()),
        Some(1)
    );
}
