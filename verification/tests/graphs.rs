use baml_vis::builder::{GraphBuilder, build, try_build};
use baml_vis::graph::{BuilderConfig, Graph, NodeKind, SHOW_CALL_NODES, SpanMap};
use baml_vis::index::{HeaderIndex, HeaderLabelKind, Hid, RenderableHeader, ScopeId};
use baml_vis::prelude::Prelude;
use baml_vis::span::{PathComponent, SourcePath, Span};
use std::collections::HashMap;

fn path(text: &str) -> SourcePath {
    let mut components = Vec::new();
    for part in text.split('/') {
        if part.is_empty() {
            components.push(PathComponent::RootDir);
        } else {
            components.push(PathComponent::Normal(part.as_bytes().to_vec()));
        }
    }
    SourcePath { text: text.to_string(), components }
}

/// A header that stands at ten times its number in `/m.baml`.
fn header(hid: Hid, scope: ScopeId, parent: Option<Hid>) -> RenderableHeader {
    RenderableHeader {
        hid,
        id: format!("h{hid}"),
        title: format!("T{hid}"),
        parent_id: parent.map(|p| format!("h{p}")),
        scope,
        label_kind: HeaderLabelKind::Other,
        span: Span {
            file: path("/m.baml"),
            start: 10 * hid as usize,
            end: 10 * hid as usize + 5,
        },
    }
}

fn branch(hid: Hid, scope: ScopeId, parent: Option<Hid>) -> RenderableHeader {
    RenderableHeader { label_kind: HeaderLabelKind::If, ..header(hid, scope, parent) }
}

fn at(h: RenderableHeader, file: &str, start: usize, end: usize) -> RenderableHeader {
    RenderableHeader { span: Span { file: path(file), start, end }, ..h }
}

fn index(headers: Vec<RenderableHeader>, nested_edges: Vec<(Hid, Hid)>) -> HeaderIndex {
    HeaderIndex { headers, nested_edges, header_calls: HashMap::new() }
}

fn with_calls(mut index: HeaderIndex, hid: Hid, callees: &[&str]) -> HeaderIndex {
    index.header_calls.insert(hid, callees.iter().map(|c| c.to_string()).collect());
    index
}

fn built<'a>(index: &'a HeaderIndex, show_call_nodes: bool) -> (Graph<'a>, SpanMap<'a>) {
    let config = BuilderConfig { show_call_nodes };
    assert!(try_build(index, config).is_some());
    build(index, config)
}

/// Each node as `id label kind cluster`.
fn nodes(graph: &Graph) -> Vec<String> {
    graph
        .nodes
        .iter()
        .map(|n| {
            let kind = match &n.kind {
                NodeKind::Header(hid, span) => format!("header {hid}@{}", span.unwrap().start),
                NodeKind::Decision(hid, span) => format!("decision {hid}@{}", span.unwrap().start),
                NodeKind::Call { header, callee } => format!("call {header}.{callee}"),
            };
            let cluster = match n.cluster {
                Some(c) => c.to_string(),
                None => "-".to_string(),
            };
            format!("{} {} {} {}", n.id.to_string(), n.label, kind, cluster)
        })
        .collect()
}

fn edges(graph: &Graph) -> Vec<String> {
    graph.edges.iter().map(|e| format!("{}>{}", e.from.to_string(), e.to.to_string())).collect()
}

fn clusters(graph: &Graph) -> Vec<String> {
    graph
        .clusters
        .iter()
        .map(|c| {
            let parent = match c.parent {
                Some(p) => p.to_string(),
                None => "-".to_string(),
            };
            format!("{} {} {}", c.id.to_string(), c.label, parent)
        })
        .collect()
}

fn spans(map: &SpanMap) -> Vec<String> {
    (0..map.len())
        .map(|i| {
            let (id, span) = map.entry_at(i);
            format!("{} {}..{}", id.to_string(), span.start, span.end)
        })
        .collect()
}

fn none() -> Vec<String> {
    Vec::new()
}

#[test]
fn empty_index_gives_empty_graph() {
    let ix = index(vec![], vec![]);
    let (graph, map) = built(&ix, true);
    assert_eq!(nodes(&graph), none());
    assert_eq!(edges(&graph), none());
    assert_eq!(clusters(&graph), none());
    assert_eq!(map.len(), 0);
}

#[test]
fn leaf_is_a_node() {
    let ix = index(vec![header(3, 0, None)], vec![]);
    let (graph, map) = built(&ix, true);
    assert_eq!(nodes(&graph), vec!["n0 T3 header 3@30 -"]);
    assert_eq!(edges(&graph), none());
    assert_eq!(clusters(&graph), none());
    assert_eq!(spans(&map), vec!["n0 30..35"]);
}

#[test]
fn items_of_a_scope_follow_each_other() {
    let ix = index(vec![header(0, 0, None), header(1, 0, None), header(2, 0, None)], vec![]);
    let (graph, _) = built(&ix, true);
    assert_eq!(edges(&graph), vec!["n0>n1", "n1>n2"]);
}

#[test]
fn top_level_header_with_one_md_child_is_a_container() {
    let ix = index(vec![header(0, 0, None), header(1, 0, Some(0))], vec![]);
    let (graph, map) = build(&ix, BuilderConfig::default());
    assert_eq!(nodes(&graph), vec!["n0 T1 header 1@10 sg0"]);
    assert_eq!(edges(&graph), none());
    assert_eq!(clusters(&graph), vec!["sg0 T0 -"]);
    assert_eq!(spans(&map), vec!["n0 10..15"]);
    let ix = index(vec![header(0, 0, None), header(1, 0, Some(0)), header(2, 0, None)], vec![]);
    let (graph, map) = built(&ix, true);
    assert_eq!(nodes(&graph), vec!["n0 T1 header 1@10 sg0", "n1 T2 header 2@20 -"]);
    assert_eq!(edges(&graph), vec!["n0>n1"]);
    assert_eq!(clusters(&graph), vec!["sg0 T0 -"]);
    assert_eq!(spans(&map), vec!["n0 10..15", "n1 20..25"]);
}

#[test]
fn top_level_header_with_one_nested_child_is_a_container() {
    let ix = index(vec![header(0, 0, None), header(1, 1, None), header(2, 0, None)], vec![(0, 1)]);
    let (graph, _) = built(&ix, true);
    assert_eq!(nodes(&graph), vec!["n0 T1 header 1@10 sg0", "n1 T2 header 2@20 -"]);
    assert_eq!(edges(&graph), vec!["n0>n1"]);
    assert_eq!(clusters(&graph), vec!["sg0 T0 -"]);
}

#[test]
fn single_md_child_in_a_cluster_is_laid_out_in_line() {
    let ix = index(
        vec![header(0, 0, None), header(1, 0, Some(0)), header(2, 0, Some(1)), header(3, 0, None)],
        vec![],
    );
    let (graph, map) = built(&ix, true);
    assert_eq!(
        nodes(&graph),
        vec!["n0 T1 header 1@10 sg0", "n1 T2 header 2@20 sg0", "n2 T3 header 3@30 -"],
    );
    assert_eq!(edges(&graph), vec!["n0>n1", "n1>n2"]);
    assert_eq!(clusters(&graph), vec!["sg0 T0 -"]);
    assert_eq!(spans(&map), vec!["n0 10..15", "n1 20..25", "n2 30..35"]);
}

#[test]
fn single_nested_child_in_a_cluster_is_laid_out_in_line() {
    let ix = index(
        vec![header(0, 0, None), header(1, 1, None), header(2, 2, None)],
        vec![(0, 1), (1, 2)],
    );
    let (graph, _) = built(&ix, true);
    assert_eq!(nodes(&graph), vec!["n0 T1 header 1@10 sg0", "n1 T2 header 2@20 sg0"]);
    assert_eq!(edges(&graph), vec!["n0>n1"]);
    assert_eq!(clusters(&graph), vec!["sg0 T0 -"]);
}

#[test]
fn single_nested_child_with_company_makes_a_container_in_a_cluster() {
    let ix = index(
        vec![header(0, 0, None), header(1, 1, None), header(2, 2, None), header(3, 2, None)],
        vec![(0, 1), (1, 2)],
    );
    let (graph, _) = built(&ix, true);
    assert_eq!(nodes(&graph), vec!["n0 T2 header 2@20 sg1", "n1 T3 header 3@30 sg1"]);
    assert_eq!(edges(&graph), vec!["n0>n1"]);
    assert_eq!(clusters(&graph), vec!["sg0 T0 -", "sg1 T1 sg0"]);
}

#[test]
fn nested_scope_of_several_items_makes_a_container() {
    let ix = index(
        vec![header(0, 0, None), header(1, 1, None), header(2, 1, None), header(3, 0, None)],
        vec![(0, 1)],
    );
    let (graph, map) = built(&ix, true);
    assert_eq!(
        nodes(&graph),
        vec!["n0 T1 header 1@10 sg0", "n1 T2 header 2@20 sg0", "n2 T3 header 3@30 -"],
    );
    assert_eq!(clusters(&graph), vec!["sg0 T0 -"]);
    assert_eq!(edges(&graph), vec!["n0>n1", "n1>n2"]);
    assert_eq!(spans(&map), vec!["n0 10..15", "n1 20..25", "n2 30..35"]);
}

#[test]
fn several_children_make_a_container() {
    let ix = index(
        vec![header(0, 0, None), header(1, 0, Some(0)), header(2, 0, Some(0)), header(3, 0, None)],
        vec![],
    );
    let (graph, _) = built(&ix, true);
    assert_eq!(
        nodes(&graph),
        vec!["n0 T1 header 1@10 sg0", "n1 T2 header 2@20 sg0", "n2 T3 header 3@30 -"],
    );
    assert_eq!(clusters(&graph), vec!["sg0 T0 -"]);
    assert_eq!(edges(&graph), vec!["n0>n1", "n1>n2"]);
}

#[test]
fn containers_nest() {
    let ix = index(
        vec![
            header(0, 0, None),
            header(1, 0, Some(0)),
            header(2, 0, Some(1)),
            header(3, 0, Some(1)),
            header(4, 0, Some(0)),
        ],
        vec![],
    );
    let (graph, _) = built(&ix, true);
    assert_eq!(
        nodes(&graph),
        vec!["n0 T2 header 2@20 sg1", "n1 T3 header 3@30 sg1", "n2 T4 header 4@40 sg0"],
    );
    assert_eq!(clusters(&graph), vec!["sg0 T0 -", "sg1 T1 sg0"]);
    assert_eq!(edges(&graph), vec!["n0>n1", "n1>n2"]);
}

#[test]
fn container_children_stand_in_order_of_position() {
    let ix = index(
        vec![
            header(0, 0, None),
            at(header(1, 0, Some(0)), "/m.baml", 70, 75),
            at(header(2, 1, None), "/m.baml", 60, 65),
        ],
        vec![(0, 2)],
    );
    let (graph, _) = built(&ix, true);
    assert_eq!(nodes(&graph), vec!["n0 T2 header 2@60 sg0", "n1 T1 header 1@70 sg0"]);
    assert_eq!(edges(&graph), vec!["n0>n1"]);
}

#[test]
fn nested_scopes_are_numbered_before_md_children() {
    let ix = index(
        vec![
            header(0, 0, None),
            at(header(1, 0, Some(0)), "/m.baml", 50, 55),
            at(header(2, 1, None), "/m.baml", 60, 65),
        ],
        vec![(0, 2)],
    );
    let (graph, _) = built(&ix, true);
    assert_eq!(nodes(&graph), vec!["n0 T2 header 2@60 sg0", "n1 T1 header 1@50 sg0"]);
    assert_eq!(edges(&graph), vec!["n1>n0"]);
}

#[test]
fn nested_child_of_a_container_is_left_by_the_last_item_of_its_scope() {
    let ix = index(
        vec![
            header(0, 0, None),
            header(1, 1, None),
            header(2, 1, None),
            header(3, 0, Some(0)),
            header(4, 0, None),
        ],
        vec![(0, 1)],
    );
    let (graph, _) = built(&ix, true);
    assert_eq!(
        nodes(&graph),
        vec![
            "n0 T1 header 1@10 sg0",
            "n1 T2 header 2@20 sg0",
            "n2 T3 header 3@30 sg0",
            "n3 T4 header 4@40 -",
        ],
    );
    assert_eq!(edges(&graph), vec!["n0>n1", "n1>n2", "n2>n3"]);
}

#[test]
fn branch_without_children_is_a_plain_node() {
    let ix = index(vec![branch(0, 0, None)], vec![]);
    let (graph, _) = built(&ix, true);
    assert_eq!(nodes(&graph), vec!["n0 T0 header 0@0 -"]);
    assert_eq!(clusters(&graph), none());
}

#[test]
fn branch_joins_at_its_first_md_child() {
    let ix = index(
        vec![
            branch(0, 0, None),
            header(1, 1, None),
            header(2, 2, None),
            header(3, 0, Some(0)),
            header(4, 0, Some(0)),
            header(5, 0, None),
        ],
        vec![(0, 1), (0, 2)],
    );
    let (graph, map) = built(&ix, true);
    assert_eq!(
        nodes(&graph),
        vec![
            "n0 T0 decision 0@0 sg0",
            "n1 T1 header 1@10 sg0",
            "n2 T2 header 2@20 sg0",
            "n3 T3 header 3@30 sg0",
            "n4 T4 header 4@40 sg0",
            "n5 T5 header 5@50 -",
        ],
    );
    assert_eq!(clusters(&graph), vec!["sg0 T0 -"]);
    assert_eq!(edges(&graph), vec!["n0>n1", "n0>n2", "n1>n3", "n2>n3", "n3>n4", "n4>n5"]);
    assert_eq!(map.len(), 6);
}

#[test]
fn branch_without_md_children_is_left_by_its_branches() {
    let ix = index(
        vec![branch(0, 0, None), header(1, 1, None), header(2, 2, None), header(3, 0, None)],
        vec![(0, 1), (0, 2)],
    );
    let (graph, _) = built(&ix, true);
    assert_eq!(edges(&graph), vec!["n0>n1", "n0>n2", "n1>n3", "n2>n3"]);
}

#[test]
fn branch_without_nested_children_leads_to_its_first_md_child() {
    let ix = index(
        vec![branch(0, 0, None), header(1, 0, Some(0)), header(2, 0, Some(0)), header(3, 0, None)],
        vec![],
    );
    let (graph, _) = built(&ix, true);
    assert_eq!(edges(&graph), vec!["n0>n1", "n1>n2", "n2>n3"]);
    assert_eq!(clusters(&graph), vec!["sg0 T0 -"]);
}

#[test]
fn branch_of_one_child_keeps_its_cluster() {
    let ix = index(vec![branch(0, 0, None), header(1, 1, None)], vec![(0, 1)]);
    let (graph, _) = built(&ix, true);
    assert_eq!(nodes(&graph), vec!["n0 T0 decision 0@0 sg0", "n1 T1 header 1@10 sg0"]);
    assert_eq!(clusters(&graph), vec!["sg0 T0 -"]);
    assert_eq!(edges(&graph), vec!["n0>n1"]);
}

#[test]
fn nested_branch_is_left_by_its_first_item() {
    let ix = index(
        vec![branch(0, 0, None), header(1, 1, None), header(2, 1, None), header(3, 0, None)],
        vec![(0, 1)],
    );
    let (graph, _) = built(&ix, true);
    assert_eq!(edges(&graph), vec!["n1>n2", "n0>n1", "n1>n3"]);
}

#[test]
fn repeated_calls_share_a_node() {
    let ix = with_calls(index(vec![header(0, 0, None)], vec![]), 0, &["F", "G", "F"]);
    let (graph, map) = built(&ix, true);
    assert_eq!(nodes(&graph), vec!["n0 T0 header 0@0 -", "n1 F call 0.F -", "n2 G call 0.G -"]);
    assert_eq!(edges(&graph), vec!["n1>n0", "n2>n0", "n1>n0"]);
    assert_eq!(spans(&map), vec!["n0 0..5"]);
}

#[test]
fn calls_of_different_headers_have_different_nodes() {
    let ix = with_calls(
        with_calls(index(vec![header(0, 0, None), header(1, 0, None)], vec![]), 0, &["F"]),
        1,
        &["F"],
    );
    let (graph, map) = built(&ix, true);
    assert_eq!(
        nodes(&graph),
        vec![
            "n0 T0 header 0@0 -",
            "n1 F call 0.F -",
            "n2 T1 header 1@10 -",
            "n3 F call 1.F -",
        ],
    );
    assert_eq!(edges(&graph), vec!["n1>n0", "n3>n2", "n0>n2"]);
    assert_eq!(spans(&map), vec!["n0 0..5", "n2 10..15"]);
}

#[test]
fn hidden_calls_leave_no_trace() {
    let ix = with_calls(index(vec![header(0, 0, None)], vec![]), 0, &["F", "G"]);
    let (graph, _) = built(&ix, false);
    assert_eq!(nodes(&graph), vec!["n0 T0 header 0@0 -"]);
    assert_eq!(edges(&graph), none());
}

#[test]
fn calls_of_branches_are_linked_once_more_for_nested_children() {
    let ix = with_calls(
        with_calls(
            index(vec![branch(0, 0, None), header(1, 1, None)], vec![(0, 1)]),
            0,
            &["F"],
        ),
        1,
        &["G"],
    );
    let (graph, _) = built(&ix, true);
    assert_eq!(
        nodes(&graph),
        vec![
            "n0 T0 decision 0@0 sg0",
            "n1 F call 0.F sg0",
            "n2 T1 header 1@10 sg0",
            "n3 G call 1.G sg0",
        ],
    );
    assert_eq!(edges(&graph), vec!["n1>n0", "n3>n2", "n0>n2", "n3>n2"]);
}

#[test]
fn calls_of_headers_in_line_and_of_containers_are_not_shown() {
    let ix = with_calls(
        index(
            vec![
                header(0, 0, None),
                header(1, 0, Some(0)),
                header(2, 0, Some(1)),
                header(3, 0, Some(0)),
            ],
            vec![],
        ),
        1,
        &["F"],
    );
    let (graph, _) = built(&ix, true);
    assert_eq!(
        nodes(&graph),
        vec!["n0 T1 header 1@10 sg0", "n1 T2 header 2@20 sg0", "n2 T3 header 3@30 sg0"],
    );
    assert_eq!(edges(&graph), vec!["n0>n1", "n1>n2"]);
    let ix = with_calls(
        index(vec![header(0, 0, None), header(1, 0, Some(0))], vec![]),
        0,
        &["F"],
    );
    let (graph, _) = built(&ix, true);
    assert_eq!(nodes(&graph), vec!["n0 T1 header 1@10 sg0"]);
    let ix = with_calls(
        index(vec![header(0, 0, None), header(1, 0, Some(0)), header(2, 0, Some(0))], vec![]),
        0,
        &["F"],
    );
    let (graph, _) = built(&ix, true);
    assert_eq!(nodes(&graph), vec!["n0 T1 header 1@10 sg0", "n1 T2 header 2@20 sg0"]);
}

#[test]
fn calls_of_a_container_in_a_branch_lead_to_its_entry() {
    let ix = with_calls(
        index(
            vec![
                branch(0, 0, None),
                header(1, 1, None),
                header(2, 1, Some(1)),
                header(3, 1, Some(1)),
            ],
            vec![(0, 1)],
        ),
        1,
        &["F"],
    );
    let (graph, _) = built(&ix, true);
    assert_eq!(
        nodes(&graph),
        vec![
            "n0 T0 decision 0@0 sg0",
            "n1 T2 header 2@20 sg1",
            "n2 T3 header 3@30 sg1",
            "n3 F call 1.F sg0",
        ],
    );
    assert_eq!(clusters(&graph), vec!["sg0 T0 -", "sg1 T1 sg0"]);
    assert_eq!(edges(&graph), vec!["n1>n2", "n0>n1", "n3>n1"]);
}

#[test]
fn top_level_scopes_are_laid_out_by_path_start_and_end() {
    let ix = index(
        vec![
            at(header(0, 0, None), "/b.baml", 0, 5),
            at(header(1, 1, None), "/a.baml", 9, 12),
            at(header(2, 2, None), "/a.baml", 9, 11),
            at(header(3, 3, None), "/a.baml", 2, 40),
        ],
        vec![],
    );
    let (graph, _) = built(&ix, true);
    let labels: Vec<&str> = graph.nodes.iter().map(|n| n.label).collect();
    assert_eq!(labels, vec!["T3", "T2", "T1", "T0"]);
    assert_eq!(edges(&graph), none());
}

#[test]
fn top_level_scopes_with_the_same_range_keep_their_order() {
    let ix = index(
        vec![
            at(header(0, 7, None), "/a.baml", 3, 4),
            at(header(1, 5, None), "/a.baml", 3, 4),
            at(header(2, 6, None), "/a.baml", 3, 4),
        ],
        vec![],
    );
    let (graph, _) = built(&ix, true);
    let labels: Vec<&str> = graph.nodes.iter().map(|n| n.label).collect();
    assert_eq!(labels, vec!["T0", "T1", "T2"]);
}

#[test]
fn parent_of_another_scope_does_not_count() {
    let ix = index(vec![header(0, 0, None), header(1, 1, Some(0))], vec![]);
    let (graph, _) = built(&ix, true);
    assert_eq!(nodes(&graph), vec!["n0 T0 header 0@0 -", "n1 T1 header 1@10 -"]);
    assert_eq!(edges(&graph), none());
}

#[test]
fn unknown_parent_does_not_count() {
    let ix = index(vec![header(0, 0, Some(9)), header(1, 0, None)], vec![]);
    let (graph, _) = built(&ix, true);
    assert_eq!(edges(&graph), vec!["n0>n1"]);
}

#[test]
fn nested_edge_within_a_scope_does_not_count() {
    let ix = index(vec![header(0, 0, None), header(1, 0, None)], vec![(0, 1)]);
    let (graph, _) = built(&ix, true);
    assert_eq!(nodes(&graph), vec!["n0 T0 header 0@0 -", "n1 T1 header 1@10 -"]);
    assert_eq!(edges(&graph), vec!["n0>n1"]);
}

#[test]
fn repeated_nested_edge_counts_twice() {
    let ix = index(vec![header(0, 0, None), header(1, 1, None)], vec![(0, 1), (0, 1)]);
    let (graph, _) = built(&ix, true);
    assert_eq!(nodes(&graph), vec!["n0 T1 header 1@10 sg0"]);
    assert_eq!(clusters(&graph), vec!["sg0 T0 -"]);
    assert_eq!(edges(&graph), vec!["n0>n0"]);
}

#[test]
fn deep_chain_in_line() {
    let headers = (0..12u32)
        .map(|i| header(i, 0, if i == 0 { None } else { Some(i - 1) }))
        .collect::<Vec<_>>();
    let ix = index(headers, vec![]);
    let (graph, map) = built(&ix, true);
    assert_eq!(clusters(&graph), vec!["sg0 T0 -"]);
    assert_eq!(graph.nodes.len(), 11);
    assert_eq!(graph.edges.len(), 10);
    assert_eq!(graph.nodes[10].id.to_string(), "n10");
    assert_eq!(graph.nodes[10].label, "T11");
    assert_eq!(map.len(), 11);
}

#[test]
fn default_configuration() {
    assert_eq!(BuilderConfig::default().show_call_nodes, SHOW_CALL_NODES);
    let graph = Graph::default();
    assert_eq!((graph.nodes.len(), graph.edges.len(), graph.clusters.len()), (0, 0, 0));
}

#[test]
fn spans_are_found_by_node() {
    let ix = with_calls(index(vec![header(0, 0, None), header(1, 0, None)], vec![]), 0, &["F"]);
    let (graph, map) = built(&ix, true);
    assert_eq!(map.get(graph.nodes[0].id).unwrap().end, 5);
    assert!(map.get(graph.nodes[1].id).is_none());
    assert_eq!(map.get(graph.nodes[2].id).unwrap().end, 15);
    assert_eq!(map.entry_at(1).0, graph.nodes[2].id);
}

/// An index with every shape: containers, a branch, headers in line and leaves.
fn assorted() -> HeaderIndex {
    with_calls(
        index(
            vec![
                header(0, 0, None),
                branch(1, 0, Some(0)),
                header(2, 1, None),
                header(3, 2, None),
                header(4, 2, Some(3)),
                header(5, 0, Some(0)),
                header(6, 3, None),
                header(7, 3, None),
                header(8, 0, None),
                at(header(9, 4, None), "/a.baml", 0, 1),
            ],
            vec![(1, 2), (1, 3), (5, 6)],
        ),
        2,
        &["F", "F"],
    )
}

#[test]
fn identifiers_are_places_and_edges_join_nodes() {
    let ix = assorted();
    let (graph, map) = built(&ix, true);
    for (i, n) in graph.nodes.iter().enumerate() {
        assert_eq!(n.id.to_string(), format!("n{i}"));
    }
    for (i, c) in graph.clusters.iter().enumerate() {
        assert_eq!(c.id.to_string(), format!("sg{i}"));
        if let Some(p) = c.parent {
            assert!(graph.clusters[..i].iter().any(|d| d.id == p));
        }
    }
    for n in &graph.nodes {
        if let Some(c) = n.cluster {
            assert!(graph.clusters.iter().any(|d| d.id == c));
        }
    }
    for e in &graph.edges {
        assert!(graph.nodes.iter().any(|n| n.id == e.from));
        assert!(graph.nodes.iter().any(|n| n.id == e.to));
    }
    let with_span: Vec<_> = graph
        .nodes
        .iter()
        .filter(|n| !matches!(n.kind, NodeKind::Call { .. }))
        .map(|n| n.id)
        .collect();
    let listed: Vec<_> = (0..map.len()).map(|i| map.entry_at(i).0).collect();
    assert_eq!(listed, with_span);
}

#[test]
fn every_header_but_containers_has_one_node() {
    let ix = assorted();
    let (graph, _) = built(&ix, true);
    let count = |hid: Hid| {
        graph
            .nodes
            .iter()
            .filter(|n| match n.kind {
                NodeKind::Header(h, _) => h == hid,
                NodeKind::Decision(h, _) => h == hid,
                NodeKind::Call { .. } => false,
            })
            .count()
    };
    let counts: Vec<usize> = (0..10u32).map(count).collect();
    assert_eq!(counts, vec![0, 1, 1, 1, 1, 0, 1, 1, 1, 1]);
    let calls =
        graph.nodes.iter().filter(|n| matches!(n.kind, NodeKind::Call { .. })).count();
    assert_eq!(calls, 1);
}

#[test]
fn assorted_shapes_follow_each_other() {
    let ix = assorted();
    let (graph, _) = built(&ix, false);
    assert_eq!(
        nodes(&graph),
        vec![
            "n0 T9 header 9@0 -",
            "n1 T1 decision 1@10 sg1",
            "n2 T2 header 2@20 sg1",
            "n3 T3 header 3@30 sg1",
            "n4 T4 header 4@40 sg1",
            "n5 T6 header 6@60 sg2",
            "n6 T7 header 7@70 sg2",
            "n7 T8 header 8@80 -",
        ],
    );
    assert_eq!(clusters(&graph), vec!["sg0 T0 -", "sg1 T1 sg0", "sg2 T5 sg0"]);
    assert_eq!(
        edges(&graph),
        vec!["n3>n4", "n1>n2", "n1>n3", "n5>n6", "n2>n5", "n4>n5", "n6>n7"],
    );
}

#[test]
fn edges_lead_to_headers() {
    let ix = assorted();
    let (graph, _) = built(&ix, true);
    assert!(graph.nodes.iter().any(|n| matches!(n.kind, NodeKind::Call { .. })));
    for e in &graph.edges {
        let to = graph.nodes.iter().find(|n| n.id == e.to).unwrap();
        assert!(!matches!(to.kind, NodeKind::Call { .. }));
    }
}

#[test]
fn decisions_stand_in_clusters_of_their_own() {
    let ix = index(
        vec![
            header(0, 0, None),
            branch(1, 0, Some(0)),
            header(2, 1, None),
            branch(3, 0, Some(0)),
            branch(4, 2, None),
            header(5, 3, None),
        ],
        vec![(1, 2), (3, 4), (4, 5)],
    );
    let (graph, _) = built(&ix, true);
    assert_eq!(
        nodes(&graph),
        vec![
            "n0 T1 decision 1@10 sg1",
            "n1 T2 header 2@20 sg1",
            "n2 T3 decision 3@30 sg2",
            "n3 T4 decision 4@40 sg3",
            "n4 T5 header 5@50 sg3",
        ],
    );
    assert_eq!(clusters(&graph), vec!["sg0 T0 -", "sg1 T1 sg0", "sg2 T3 sg0", "sg3 T4 sg2"]);
}

#[test]
fn what_a_header_adds_stands_in_its_cluster_or_below() {
    let ix = assorted();
    let (graph, _) = built(&ix, true);
    let root = |mut cluster: Option<String>| {
        while let Some(c) = &cluster {
            let found = graph.clusters.iter().find(|d| d.id.to_string() == *c).unwrap();
            match found.parent {
                Some(p) => cluster = Some(p.to_string()),
                None => return Some(found.label.to_string()),
            }
        }
        None
    };
    for n in &graph.nodes {
        let hid = match n.kind {
            NodeKind::Header(h, _) => h,
            NodeKind::Decision(h, _) => h,
            NodeKind::Call { header, .. } => header,
        };
        let top = root(n.cluster.map(|c| c.to_string()));
        assert_eq!(top.is_none(), hid >= 8);
        if let Some(label) = top {
            assert_eq!(label, "T0");
        }
    }
}

#[test]
fn showing_calls_only_adds() {
    let ix = with_calls(with_calls(assorted(), 1, &["G"]), 9, &["H", "H", "K"]);
    let (shown, shown_spans) = built(&ix, true);
    let (hidden, hidden_spans) = built(&ix, false);
    let plain = |graph: &Graph| -> Vec<(String, Option<String>)> {
        graph
            .nodes
            .iter()
            .filter(|n| !matches!(n.kind, NodeKind::Call { .. }))
            .map(|n| (n.label.to_string(), n.cluster.map(|c| c.to_string())))
            .collect()
    };
    let links = |graph: &Graph| -> Vec<(String, String)> {
        let node = |id| graph.nodes.iter().find(|n| n.id == id).unwrap();
        graph
            .edges
            .iter()
            .filter(|e| !matches!(node(e.from).kind, NodeKind::Call { .. }))
            .map(|e| (node(e.from).label.to_string(), node(e.to).label.to_string()))
            .collect()
    };
    assert_eq!(shown.nodes.len(), hidden.nodes.len() + 4);
    assert_eq!(plain(&shown), plain(&hidden));
    assert_eq!(links(&shown), links(&hidden));
    assert_eq!(clusters(&shown), clusters(&hidden));
    assert_eq!(shown_spans.len(), hidden_spans.len());
    for i in 0..shown_spans.len() {
        assert_eq!(shown_spans.entry_at(i).1.start, hidden_spans.entry_at(i).1.start);
    }
}

#[test]
fn header_met_again_is_not_laid_out_again() {
    let ix = index(
        vec![branch(0, 0, None), header(1, 1, None), header(2, 1, None)],
        vec![(0, 1), (0, 2)],
    );
    let (graph, _) = built(&ix, true);
    assert_eq!(
        nodes(&graph),
        vec!["n0 T0 decision 0@0 sg0", "n1 T1 header 1@10 sg0", "n2 T2 header 2@20 sg0"],
    );
    assert_eq!(edges(&graph), vec!["n1>n2", "n0>n1", "n0>n2"]);
}

#[test]
fn header_laid_out_twice_has_the_same_ends() {
    let ix = with_calls(assorted(), 1, &["G"]);
    let pre = Prelude::from_index(&ix);
    let mut builder = GraphBuilder::new(&ix, &pre, BuilderConfig { show_call_nodes: true });
    assert!(builder.build_header(0, None, 0).is_none());
    let mut builder = GraphBuilder::new(&ix, &pre, BuilderConfig { show_call_nodes: true });
    let (entry, exits) = builder.build_header(0, None, 10).unwrap();
    assert_eq!(entry.to_string(), "n0");
    assert_eq!(builder.build_header(0, None, 0).unwrap(), (entry, exits));
    assert_eq!(builder.new_node_id().to_string(), "n8");
    assert_eq!(builder.new_cluster_id().to_string(), "sg3");
}

#[test]
fn identifiers_count_up_from_zero() {
    let ix = index(vec![], vec![]);
    let pre = Prelude::from_index(&ix);
    let mut builder = GraphBuilder::new(&ix, &pre, BuilderConfig::default());
    assert_eq!(builder.new_node_id().to_string(), "n0");
    assert_eq!(builder.new_cluster_id().to_string(), "sg0");
    assert_eq!(builder.new_cluster_id().to_string(), "sg1");
    assert_eq!(builder.new_node_id().to_string(), "n1");
    assert_eq!(builder.new_node_id().to_string(), "n2");
    assert_eq!(builder.new_cluster_id().to_string(), "sg2");
}

#[test]
fn calls_of_a_header_get_one_node_each() {
    let ix = with_calls(
        with_calls(index(vec![header(0, 0, None), header(1, 0, None)], vec![]), 0, &["F", "F"]),
        1,
        &["F", "G"],
    );
    let pre = Prelude::from_index(&ix);
    let mut builder = GraphBuilder::new(&ix, &pre, BuilderConfig { show_call_nodes: true });
    let (first, _) = builder.build_header(0, None, 1).unwrap();
    let (second, _) = builder.build_header(1, None, 1).unwrap();
    assert_eq!((first.to_string(), second.to_string()), ("n0".to_string(), "n2".to_string()));
    builder.render_calls_for_header(0, first, None).unwrap();
    builder.render_calls_for_header(1, second, None).unwrap();
    assert_eq!(builder.new_node_id().to_string(), "n5");
}

#[test]
fn trees_of_top_level_scopes_stay_apart() {
    let ix = with_calls(
        index(
            vec![
                at(header(0, 0, None), "/b.baml", 0, 1),
                at(branch(1, 1, None), "/b.baml", 2, 3),
                at(header(2, 2, None), "/b.baml", 4, 5),
                at(header(3, 3, None), "/a.baml", 0, 1),
                at(header(4, 3, Some(3)), "/a.baml", 2, 3),
                at(header(5, 4, None), "/a.baml", 4, 5),
            ],
            vec![(0, 1), (1, 2), (3, 5)],
        ),
        5,
        &["F"],
    );
    let (graph, _) = built(&ix, true);
    let of_first = |i: usize| match graph.nodes[i].kind {
        NodeKind::Header(h, _) => h >= 3,
        NodeKind::Decision(h, _) => h >= 3,
        NodeKind::Call { header, .. } => header >= 3,
    };
    let sides: Vec<bool> = (0..graph.nodes.len()).map(of_first).collect();
    assert_eq!(sides, vec![true, true, true, false, false]);
    let place = |id| graph.nodes.iter().position(|n| n.id == id).unwrap();
    assert!(!graph.edges.is_empty());
    for e in &graph.edges {
        assert_eq!(of_first(place(e.from)), of_first(place(e.to)));
    }
}
