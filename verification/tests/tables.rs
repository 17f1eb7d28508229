use baml_vis::builder::try_build;
use baml_vis::depth::find_depth_limit;
use baml_vis::graph::BuilderConfig;
use baml_vis::index::{HeaderIndex, HeaderLabelKind, Hid, RenderableHeader, ScopeId};
use baml_vis::merge::{merge_by_pos, pos_tuple};
use baml_vis::order::{Rel, compare_bytes, compare_usize};
use baml_vis::prelude::{Prelude, build_scope_roots, knows_edges, nested_scope_edges};
use baml_vis::span::{
    PathComponent, PathPrefix, SourcePath, Span, compare_components, compare_paths,
    compare_positions, compare_ranges,
};
use baml_vis::tops::sorted_top_scopes;
use std::collections::HashMap;

fn path(text: &str) -> SourcePath {
    let mut components = Vec::new();
    for part in text.split('/') {
        components.push(match part {
            "" => PathComponent::RootDir,
            "." => PathComponent::CurDir,
            ".." => PathComponent::ParentDir,
            name => PathComponent::Normal(name.as_bytes().to_vec()),
        });
    }
    SourcePath { text: text.to_string(), components }
}

fn header(hid: Hid, scope: ScopeId, parent: Option<Hid>, start: usize) -> RenderableHeader {
    RenderableHeader {
        hid,
        id: format!("h{hid}"),
        title: format!("T{hid}"),
        parent_id: parent.map(|p| format!("h{p}")),
        scope,
        label_kind: HeaderLabelKind::Other,
        span: Span { file: path("/m.baml"), start, end: start + 1 },
    }
}

fn index(headers: Vec<RenderableHeader>, nested_edges: Vec<(Hid, Hid)>) -> HeaderIndex {
    HeaderIndex { headers, nested_edges, header_calls: HashMap::new() }
}

fn sample() -> HeaderIndex {
    index(
        vec![
            header(4, 0, None, 0),
            header(2, 0, Some(4), 10),
            header(7, 1, None, 20),
            header(1, 0, Some(4), 30),
            header(5, 1, Some(4), 40),
            header(6, 1, Some(7), 50),
        ],
        vec![(4, 7), (2, 1), (4, 5)],
    )
}

#[test]
fn prelude_finds_headers_by_number() {
    let ix = sample();
    let pre = Prelude::from_index(&ix);
    assert_eq!(pre.by_hid.len(), 6);
    assert_eq!(pre.by_hid[&7].title, "T7");
}

#[test]
fn prelude_keeps_the_last_header_of_a_number() {
    let ix = index(vec![header(0, 0, None, 0), header(0, 1, None, 9)], vec![]);
    let pre = Prelude::from_index(&ix);
    assert_eq!(pre.by_hid[&0].span.start, 9);
}

#[test]
fn prelude_lists_children_within_a_scope() {
    let ix = sample();
    let pre = Prelude::from_index(&ix);
    assert_eq!(pre.md_children.get(&4), Some(&vec![2, 1]));
    assert_eq!(pre.md_children.get(&7), Some(&vec![6]));
    assert_eq!(pre.md_children.get(&2), None);
    let mut with_parent: Vec<Hid> = pre.has_md_parent.iter().copied().collect();
    with_parent.sort();
    assert_eq!(with_parent, vec![1, 2, 6]);
}

#[test]
fn prelude_lists_children_that_open_scopes() {
    let ix = sample();
    let pre = Prelude::from_index(&ix);
    assert_eq!(pre.nested_children.get(&4), Some(&vec![7, 5]));
    assert_eq!(pre.nested_children.get(&2), None);
    let mut targets: Vec<Hid> = pre.nested_targets.iter().copied().collect();
    targets.sort();
    assert_eq!(targets, vec![5, 7]);
}

#[test]
fn edges_within_a_scope_are_left_out() {
    let ix = sample();
    let pre = Prelude::from_index(&ix);
    assert_eq!(nested_scope_edges(&ix, &pre.by_hid), vec![(4, 7), (4, 5)]);
}

#[test]
fn first_header_of_a_scope_is_its_root() {
    let ix = sample();
    let roots = build_scope_roots(&ix);
    assert_eq!(roots.len(), 2);
    assert_eq!(roots[&0], 4);
    assert_eq!(roots[&1], 7);
}

#[test]
fn headers_and_items_of_a_scope() {
    let ix = sample();
    let pre = Prelude::from_index(&ix);
    let inside: Vec<Hid> = ix.headers_in_scope(1).iter().map(|h| h.hid).collect();
    assert_eq!(inside, vec![7, 5, 6]);
    assert_eq!(pre.scope_items(&ix, 1), vec![7, 5]);
    assert_eq!(pre.scope_items(&ix, 0), vec![4]);
    assert_eq!(pre.scope_items(&ix, 9), Vec::<Hid>::new());
}

#[test]
fn scopes_that_are_entered_are_not_top_level() {
    let ix = sample();
    let pre = Prelude::from_index(&ix);
    assert_eq!(sorted_top_scopes(&ix, &pre), vec![0]);
}

#[test]
fn scope_entered_elsewhere_than_at_its_root_is_top_level() {
    let ix = index(
        vec![header(0, 0, None, 50), header(1, 1, None, 0), header(2, 1, None, 9)],
        vec![(0, 2)],
    );
    let pre = Prelude::from_index(&ix);
    assert_eq!(sorted_top_scopes(&ix, &pre), vec![1, 0]);
}

#[test]
fn merging_goes_by_position() {
    let ix = index(
        vec![
            header(0, 0, None, 10),
            header(1, 0, None, 30),
            header(2, 0, None, 20),
            header(3, 0, None, 40),
        ],
        vec![],
    );
    let pre = Prelude::from_index(&ix);
    assert_eq!(merge_by_pos(&pre.by_hid, &[0, 1], &[2, 3]), vec![0, 2, 1, 3]);
    assert_eq!(merge_by_pos(&pre.by_hid, &[2, 3], &[0, 1]), vec![0, 2, 1, 3]);
    assert_eq!(merge_by_pos(&pre.by_hid, &[], &[3, 0]), vec![3, 0]);
    assert_eq!(merge_by_pos(&pre.by_hid, &[3, 0], &[]), vec![3, 0]);
    assert_eq!(merge_by_pos(&pre.by_hid, &[], &[]), Vec::<Hid>::new());
}

#[test]
fn merging_keeps_the_order_of_unordered_lists() {
    let ix = index(
        vec![header(0, 0, None, 10), header(1, 0, None, 30), header(2, 0, None, 20)],
        vec![],
    );
    let pre = Prelude::from_index(&ix);
    assert_eq!(merge_by_pos(&pre.by_hid, &[1, 0], &[2]), vec![2, 1, 0]);
}

#[test]
fn merging_prefers_the_left_list_at_the_same_place() {
    let ix = index(vec![header(0, 0, None, 5), header(1, 0, None, 5)], vec![]);
    let pre = Prelude::from_index(&ix);
    assert_eq!(merge_by_pos(&pre.by_hid, &[0], &[1]), vec![0, 1]);
    assert_eq!(merge_by_pos(&pre.by_hid, &[1], &[0]), vec![1, 0]);
}

#[test]
fn position_of_a_header() {
    let ix = index(vec![header(0, 0, None, 5)], vec![]);
    let pre = Prelude::from_index(&ix);
    let (file, start) = pos_tuple(&pre.by_hid, 0);
    assert_eq!(file.text, "/m.baml");
    assert_eq!(start, 5);
}

#[test]
fn numbers_and_bytes_compare() {
    assert_eq!(compare_usize(1, 2), Rel::Before);
    assert_eq!(compare_usize(2, 2), Rel::Same);
    assert_eq!(compare_usize(3, 2), Rel::After);
    assert_eq!(compare_bytes(b"ab", b"abc"), Rel::Before);
    assert_eq!(compare_bytes(b"b", b"abc"), Rel::After);
    assert_eq!(compare_bytes(b"", b""), Rel::Same);
}

#[test]
fn path_components_compare_by_kind_first() {
    let prefix = |kind: u8, first: &[u8], second: &[u8]| {
        PathComponent::Prefix(PathPrefix { kind, first: first.to_vec(), second: second.to_vec() })
    };
    let normal = |name: &str| PathComponent::Normal(name.as_bytes().to_vec());
    let ascending = vec![
        prefix(1, b"a", b""),
        prefix(1, b"b", b"x"),
        prefix(1, b"b", b"y"),
        prefix(2, b"a", b""),
        PathComponent::RootDir,
        PathComponent::CurDir,
        PathComponent::ParentDir,
        normal("a"),
        normal("b"),
    ];
    for (i, a) in ascending.iter().enumerate() {
        for (j, b) in ascending.iter().enumerate() {
            assert_eq!(compare_components(a, b), compare_usize(i, j));
        }
    }
}

#[test]
fn paths_compare_by_components_and_texts_by_bytes() {
    assert_eq!(compare_paths(&path("/a/b"), &path("/a.b")), Rel::Before);
    assert_eq!(compare_paths(&path("/a"), &path("/a/b")), Rel::Before);
    assert_eq!(compare_paths(&path("/b"), &path("/a/b")), Rel::After);
    assert_eq!(compare_paths(&path("/a/b"), &path("/a/b")), Rel::Same);
    let span = |file: &str, start: usize, end: usize| Span { file: path(file), start, end };
    assert_eq!(compare_ranges(&span("/a/b", 0, 1), &span("/a.b", 0, 1)), Rel::After);
    assert_eq!(compare_ranges(&span("/z", 0, 1), &span("/\u{e9}", 0, 1)), Rel::Before);
    assert_eq!(compare_ranges(&span("/a", 1, 9), &span("/a", 2, 3)), Rel::Before);
    assert_eq!(compare_ranges(&span("/a", 2, 9), &span("/a", 2, 3)), Rel::After);
    assert_eq!(compare_ranges(&span("/a", 2, 3), &span("/a", 2, 3)), Rel::Same);
}

#[test]
fn positions_compare_by_path_before_start() {
    let (a, b) = (path("/a"), path("/b"));
    assert_eq!(compare_positions((&a, 9), (&b, 1)), Rel::Before);
    assert_eq!(compare_positions((&a, 9), (&a, 1)), Rel::After);
    assert_eq!(compare_positions((&a, 1), (&a, 1)), Rel::Same);
}

#[test]
fn order_of_paths_is_total() {
    let paths: Vec<SourcePath> =
        ["/", "/a", "/a/b", "/a.b", "/b/../a", "/./a", "a"].iter().map(|t| path(t)).collect();
    for a in &paths {
        for b in &paths {
            let turned = match compare_paths(b, a) {
                Rel::Before => Rel::After,
                Rel::Same => Rel::Same,
                Rel::After => Rel::Before,
            };
            assert_eq!(compare_paths(a, b), turned);
            for c in &paths {
                if compare_paths(a, b) == Rel::Before && compare_paths(b, c) == Rel::Before {
                    assert_eq!(compare_paths(a, c), Rel::Before);
                }
            }
        }
    }
}

#[test]
fn unknown_ends_of_edges_are_noticed() {
    assert!(knows_edges(&sample()));
    assert!(!knows_edges(&index(vec![header(0, 0, None, 0)], vec![(0, 1)])));
    assert!(!knows_edges(&index(vec![header(0, 0, None, 0)], vec![(1, 0)])));
    assert!(knows_edges(&index(vec![header(0, 0, None, 0)], vec![])));
    let config = BuilderConfig::default();
    let ix = index(vec![header(0, 0, None, 0)], vec![(0, 1)]);
    assert!(try_build(&ix, config).is_none());
}

/// The nodes and clusters with their clusters, and the edges.
fn drawn(ix: &HeaderIndex) -> Option<(Vec<String>, Vec<String>, Vec<String>)> {
    let (graph, _) = try_build(ix, BuilderConfig::default())?;
    let inside = |cluster: Option<String>| cluster.unwrap_or_else(|| "-".to_string());
    Some((
        graph
            .nodes
            .iter()
            .map(|n| format!("{} {}", n.label, inside(n.cluster.map(|c| c.to_string()))))
            .collect(),
        graph
            .clusters
            .iter()
            .map(|c| format!("{} {}", c.label, inside(c.parent.map(|p| p.to_string()))))
            .collect(),
        graph
            .edges
            .iter()
            .map(|e| format!("{}>{}", e.from.to_string(), e.to.to_string()))
            .collect(),
    ))
}

fn texts(list: &[&str]) -> Vec<String> {
    list.iter().map(|t| t.to_string()).collect()
}

#[test]
fn headers_without_a_way_out_are_noticed() {
    let own_parent =
        index(vec![header(0, 0, None, 0), header(1, 1, Some(1), 1)], vec![(0, 1)]);
    assert!(drawn(&own_parent).is_none());
    let without_end = index(
        vec![header(0, 0, None, 0), header(1, 1, Some(1), 1), header(2, 1, Some(1), 2)],
        vec![(0, 1)],
    );
    assert!(drawn(&without_end).is_none());
    assert!(drawn(&sample()).is_some());
}

#[test]
fn scope_that_is_entered_from_below_is_laid_out() {
    let back_into_scope = index(
        vec![header(0, 0, None, 0), header(1, 1, None, 1), header(2, 0, None, 2)],
        vec![(0, 1), (1, 2)],
    );
    let (nodes, clusters, edges) = drawn(&back_into_scope).unwrap();
    assert_eq!(nodes, texts(&["T2 sg1"]));
    assert_eq!(clusters, texts(&["T0 -", "T1 sg0"]));
    assert_eq!(edges, texts(&["n0>n0"]));
}

#[test]
fn branches_below_each_other_are_laid_out() {
    let branch = |hid: Hid, parent: Hid| RenderableHeader {
        label_kind: HeaderLabelKind::If,
        ..header(hid, 1, Some(parent), hid as usize)
    };
    let ix = index(vec![header(0, 0, None, 0), branch(1, 2), branch(2, 1)], vec![(0, 1)]);
    let (nodes, clusters, edges) = drawn(&ix).unwrap();
    assert_eq!(nodes, texts(&["T1 sg1", "T2 sg2"]));
    assert_eq!(clusters, texts(&["T0 -", "T1 sg0", "T2 sg1"]));
    assert_eq!(edges, texts(&["n1>n0", "n0>n1"]));
}

#[test]
fn depth_limit_goes_by_numbers_and_scopes() {
    assert_eq!(find_depth_limit(&index(vec![], vec![])), 2);
    assert_eq!(find_depth_limit(&sample()), 72);
    let same = index(vec![header(0, 0, None, 0), header(0, 1, None, 9)], vec![]);
    assert_eq!(find_depth_limit(&same), 12);
}

#[test]
fn edges_go_by_the_table_that_is_given() {
    let ix = sample();
    let flat = index(
        vec![
            header(4, 0, None, 0),
            header(7, 0, None, 1),
            header(2, 0, None, 2),
            header(1, 5, None, 3),
            header(5, 6, None, 4),
        ],
        vec![],
    );
    let pre = Prelude::from_index(&flat);
    assert_eq!(nested_scope_edges(&ix, &pre.by_hid), vec![(2, 1), (4, 5)]);
}

#[test]
fn headers_that_are_not_reached_do_not_matter() {
    let config = BuilderConfig::default();
    let crossed = index(
        vec![header(0, 0, None, 0), header(1, 1, None, 1), header(2, 2, None, 2)],
        vec![(0, 1), (1, 0)],
    );
    let (graph, _) = try_build(&crossed, config).unwrap();
    let labels: Vec<&str> = graph.nodes.iter().map(|n| n.label).collect();
    assert_eq!(labels, vec!["T2"]);
    let own_parent = index(vec![header(0, 0, Some(0), 0), header(1, 0, None, 1)], vec![]);
    let (graph, _) = try_build(&own_parent, config).unwrap();
    let labels: Vec<&str> = graph.nodes.iter().map(|n| n.label).collect();
    assert_eq!(labels, vec!["T1"]);
}

#[test]
fn well_formed_index_is_built() {
    let ix = sample();
    let (graph, spans) = try_build(&ix, BuilderConfig::default()).unwrap();
    let labels: Vec<&str> = graph.nodes.iter().map(|n| n.label).collect();
    assert_eq!(labels, vec!["T7", "T6", "T5", "T2", "T1"]);
    assert_eq!(graph.clusters.len(), 1);
    assert_eq!(spans.len(), 5);
    let edges: Vec<String> = graph
        .edges
        .iter()
        .map(|e| format!("{}>{}", e.from.to_string(), e.to.to_string()))
        .collect();
    assert_eq!(edges, vec!["n0>n1", "n1>n2", "n3>n0", "n2>n4", "n4>n2"]);
}

#[test]
fn texts_of_identifiers_differ() {
    let headers: Vec<RenderableHeader> =
        (0..120u32).map(|i| header(i, i, None, i as usize)).collect();
    let ix = index(headers, vec![]);
    let (graph, _) = try_build(&ix, BuilderConfig::default()).unwrap();
    let mut texts: Vec<String> = graph.nodes.iter().map(|n| n.id.to_string()).collect();
    assert_eq!(texts[119], "n119");
    texts.sort();
    texts.dedup();
    assert_eq!(texts.len(), 120);
}

#[test]
fn identifiers_are_written_as_in_diagrams() {
    let headers: Vec<RenderableHeader> = (0..24u32)
        .map(|i| header(i, i / 2, if i % 2 == 0 { None } else { Some(i - 1) }, i as usize))
        .collect();
    let ix = index(headers, vec![]);
    let (graph, _) = try_build(&ix, BuilderConfig::default()).unwrap();
    assert_eq!(graph.nodes.len(), 12);
    for (i, node) in graph.nodes.iter().enumerate() {
        assert_eq!(node.id.to_string(), format!("n{i}"));
        assert_eq!(format!("{:?}", node.id), format!("n{i}"));
        assert_eq!(format!("{:>9?}", node.id), format!("n{i}"));
        assert_eq!(format!("{:?}", node.cluster), format!("Some(sg{i})"));
    }
    assert_eq!(format!("{:?}", graph.clusters[11].id), "sg11");
    assert_eq!(
        format!("{:?}", graph.clusters[7]),
        "Cluster { id: sg7, label: \"T14\", parent: None }",
    );
}
