use plainnote::graph::{build_graph, build_graph_from_rows, MAX_GRAPH_NODES};
use plainnote::ids::NoteId;
use plainnote::index::{Index, LinkRow, NoteRow};

#[test]
fn empty_index_yields_empty_graph() {
    let g = build_graph_from_rows(vec![], vec![]);
    assert!(g.nodes.is_empty());
    assert!(g.edges.is_empty());
    assert!(!g.truncated);
}

#[test]
fn dangling_edges_are_dropped() {
    let g = build_graph_from_rows(
        vec![("a".into(), "A".into()), ("b".into(), "B".into())],
        vec![("a".into(), "nowhere".into()), ("a".into(), "b".into())],
    );
    assert_eq!(g.edges.len(), 1);
    assert_eq!(g.edges[0].source, "a");
    assert_eq!(g.edges[0].target, "b");
}

#[test]
fn duplicate_edges_are_deduplicated() {
    let g = build_graph_from_rows(
        vec![("a".into(), "A".into()), ("b".into(), "B".into())],
        vec![("a".into(), "b".into()), ("b".into(), "a".into())],
    );
    assert_eq!(g.edges.len(), 1, "got {:?}", g.edges);
}

#[test]
fn self_loops_are_dropped() {
    let g = build_graph_from_rows(vec![("a".into(), "A".into())], vec![("a".into(), "a".into())]);
    assert!(g.edges.is_empty());
}

#[test]
fn node_size_scales_with_degree() {
    let g = build_graph_from_rows(
        vec![("a".into(), "A".into()), ("b".into(), "B".into()), ("c".into(), "C".into()), ("d".into(), "D".into())],
        vec![("a".into(), "b".into()), ("a".into(), "c".into()), ("a".into(), "d".into())],
    );
    let a = g.nodes.iter().find(|n| n.id == "a").unwrap().degree;
    let b = g.nodes.iter().find(|n| n.id == "b").unwrap().degree;
    assert!(a > b, "a={a} b={b}");
    assert_eq!((a, b), (3, 1));
}

#[test]
fn layout_is_deterministic_across_runs() {
    let nodes: Vec<(String, String)> = vec![("a".into(), "A".into()), ("b".into(), "B".into()), ("c".into(), "C".into())];
    let edges: Vec<(String, String)> = vec![("a".into(), "b".into()), ("b".into(), "c".into())];
    let g1 = build_graph_from_rows(nodes.clone(), edges.clone());
    let g2 = build_graph_from_rows(nodes, edges);
    assert_eq!(g1.nodes, g2.nodes);
    assert_eq!(g1.edges, g2.edges);
    assert_eq!(g1.edge_pairs, vec![(0, 1), (1, 2)]);
}

#[test]
fn truncates_to_top_degree_when_over_cap() {
    let mut nodes = vec![("hub".into(), "Hub".into())];
    for i in 0..MAX_GRAPH_NODES {
        nodes.push((format!("n{i}"), format!("Leaf {i}")));
    }
    let edges: Vec<(String, String)> = (0..MAX_GRAPH_NODES).map(|i| ("hub".into(), format!("n{i}"))).collect();
    let g = build_graph_from_rows(nodes, edges);
    assert!(g.truncated);
    assert_eq!(g.nodes.len(), MAX_GRAPH_NODES);
    assert!(g.nodes.iter().any(|n| n.id == "hub"), "hub must survive truncation");
}

#[test]
fn nodes_come_in_id_order() {
    let g = build_graph_from_rows(
        vec![("c".into(), "C".into()), ("a".into(), "A".into()), ("b".into(), "B".into())],
        vec![("c".into(), "a".into())],
    );
    let ids: Vec<&str> = g.nodes.iter().map(|n| n.id.as_str()).collect();
    assert_eq!(ids, vec!["a", "b", "c"]);
    assert_eq!(g.edge_pairs, vec![(2, 0)]);
}

#[test]
fn graph_from_index_uses_resolved_links_only() {
    let a = NoteId::parse("01HXYZ0000000000000000000A").unwrap();
    let b = NoteId::parse("01HXYZ0000000000000000000B").unwrap();
    let mut idx = Index::new();
    for (id, title) in [(b, Some("Beta")), (a, None)] {
        idx.notes.push(NoteRow {
            id,
            path: format!("notes/{}.md", id.to_string()),
            title: title.map(|t: &str| t.to_string()),
            created: "2026-05-04T10:23:11Z".into(),
            updated: "2026-05-04T10:23:11Z".into(),
            body_preview: String::new(),
        });
    }
    idx.links.push(LinkRow { source: a, raw: "[[Beta]]".into(), target_text: "Beta".into(), alias: None, target_id: Some(b) });
    idx.links.push(LinkRow { source: a, raw: "[[Nope]]".into(), target_text: "Nope".into(), alias: None, target_id: None });
    let g = build_graph(&idx);
    let ids: Vec<&str> = g.nodes.iter().map(|n| n.id.as_str()).collect();
    assert_eq!(ids, vec!["01HXYZ0000000000000000000A", "01HXYZ0000000000000000000B"]);
    assert_eq!(g.nodes[0].title, "");
    assert_eq!(g.nodes[1].title, "Beta");
    assert_eq!(g.edges.len(), 1);
    assert_eq!(g.edges[0].source, "01HXYZ0000000000000000000A");
    assert_eq!(g.edges[0].target, "01HXYZ0000000000000000000B");
}
