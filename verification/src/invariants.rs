//! What every step of a layout keeps, and what it completes.
use vstd::prelude::*;
use crate::graph::{ClusterView, Edge, KindView, NodeView};
use crate::ids;
use crate::ids::{ClusterId, NodeId};
use crate::index::{Hid, IndexView, ScopeId};
use crate::merge;
use crate::model;
use crate::model::{Layout, Placed, Shape};
use crate::span::SpanView;
use crate::tops;

verus! {

broadcast use {
    ids::lemma_node_id,
    ids::lemma_node_nth,
    ids::lemma_cluster_id,
    ids::lemma_cluster_nth,
};

/// Whether an identifier is that of a node of the layout.
pub open spec fn is_node(l: Layout, id: NodeId) -> bool {
    id@ < l.nodes.len()
}

/// Whether a cluster, if there is one, is one of the layout.
pub open spec fn is_cluster(l: Layout, cluster: Option<ClusterId>) -> bool {
    cluster matches Some(id) ==> id@ < l.clusters.len()
}

/// The header that a node stands for, if it stands for one.
pub open spec fn header_of_kind(kind: KindView) -> Option<Hid> {
    match kind {
        KindView::Header(hid, _) => Some(hid),
        KindView::Decision(hid, _) => Some(hid),
        KindView::Call { .. } => None,
    }
}

/// The span of a node, if it has one.
pub open spec fn span_of_kind(kind: KindView) -> Option<SpanView> {
    match kind {
        KindView::Header(_, span) => span,
        KindView::Decision(_, span) => span,
        KindView::Call { .. } => None,
    }
}

/// Nodes and clusters are numbered by their places.
pub open spec fn ids_are_places(l: Layout) -> bool {
    &&& l.nodes.len() <= u32::MAX
    &&& l.clusters.len() <= u32::MAX
    &&& forall|i: int| 0 <= i < l.nodes.len() ==> (#[trigger] l.nodes[i]).id@ == i
    &&& forall|i: int| 0 <= i < l.clusters.len() ==> (#[trigger] l.clusters[i]).id@ == i
}

/// Edges join nodes of the graph.
pub open spec fn edges_join_nodes(l: Layout) -> bool {
    forall|i: int|
        0 <= i < l.edges.len() ==> is_node(l, (#[trigger] l.edges[i]).from) && is_node(
            l,
            l.edges[i].to,
        )
}

/// Nodes stand in clusters of the graph, and clusters in earlier ones.
pub open spec fn clusters_nest(l: Layout) -> bool {
    &&& forall|i: int|
        0 <= i < l.nodes.len() ==> is_cluster(l, (#[trigger] l.nodes[i]).cluster)
    &&& forall|i: int|
        0 <= i < l.clusters.len() ==> ((#[trigger] l.clusters[i]).parent matches Some(p) ==> p@ < i)
}

/// Whether an identifier is that of a node that stands for a header.
pub open spec fn is_header_node(l: Layout, id: NodeId) -> bool {
    &&& is_node(l, id)
    &&& header_of_kind(l.nodes[id@ as int].kind) is Some
}

/// What is entered and left are headers of the index, at nodes that stand for
/// headers; a header that is left is entered, and has somewhere to leave from.
pub open spec fn ends_are_nodes(ix: IndexView, l: Layout) -> bool {
    &&& forall|h: Hid| #[trigger]
        l.entry.contains_key(h) ==> ix.header(h) is Some && is_header_node(l, l.entry[h])
    &&& forall|h: Hid| #[trigger]
        l.exits.contains_key(h) ==> l.entry.contains_key(h) && l.exits[h].len() > 0
    &&& forall|h: Hid, i: int|
        l.exits.contains_key(h) && 0 <= i < l.exits[h].len() ==> is_header_node(
            l,
            #[trigger] l.exits[h][i],
        )
}

/// The spans of those nodes that have one, in order.
pub open spec fn node_spans(nodes: Seq<NodeView>) -> Seq<(NodeId, SpanView)>
    decreases nodes.len(),
{
    if nodes.len() == 0 {
        seq![]
    } else {
        let before = node_spans(nodes.drop_last());
        match span_of_kind(nodes.last().kind) {
            Some(span) => before.push((nodes.last().id, span)),
            None => before,
        }
    }
}

/// What a node says of what it stands for.
pub open spec fn describes(ix: IndexView, show: bool, node: NodeView) -> bool {
    match node.kind {
        KindView::Header(hid, span) => {
            &&& ix.header(hid) matches Some(h) && node.label == h.title && span == Some(h.span)
            &&& model::shape(ix, hid, node.cluster) == Shape::Leaf || model::shape(
                ix,
                hid,
                node.cluster,
            ) == Shape::Flat
        },
        KindView::Decision(hid, span) => {
            &&& ix.header(hid) matches Some(h) && node.label == h.title && span == Some(h.span)
            &&& model::shape(ix, hid, node.cluster) == Shape::Branch
        },
        KindView::Call { header, callee } => {
            &&& show
            &&& node.label == callee
            &&& ix.header(header) is Some
            &&& ix.calls(header).contains(callee)
        },
    }
}

/// Nodes describe what they stand for.
pub open spec fn nodes_describe(ix: IndexView, show: bool, l: Layout) -> bool {
    forall|i: int| 0 <= i < l.nodes.len() ==> describes(ix, show, #[trigger] l.nodes[i])
}

/// Whether a header is laid out as a node wherever it stands: it has no children
/// or is a branch.
pub open spec fn always_a_node(ix: IndexView, hid: Hid) -> bool {
    model::shape(ix, hid, None) != Shape::Container
}

/// Whether some node stands for a header.
pub open spec fn has_node(nodes: Seq<NodeView>, hid: Hid) -> bool {
    exists|i: int| 0 <= i < nodes.len() && header_of_kind((#[trigger] nodes[i]).kind) == Some(hid)
}

/// Whether a header is an item of a top-level scope.
pub open spec fn is_top_item(ix: IndexView, hid: Hid) -> bool {
    exists|s: ScopeId| #[trigger]
        tops::top_scopes(ix).contains(s) && ix.scope_items(s).contains(hid)
}

/// Whether a header is laid out as a node wherever it is met: it has no children,
/// is a branch, or fits in line and is no item of a top-level scope.
pub open spec fn keeps_its_node(ix: IndexView, hid: Hid) -> bool {
    always_a_node(ix, hid) || (model::fits_in_line(ix, hid) && !is_top_item(ix, hid))
}

/// A header has at most one node. Headers without children and branches have
/// one, and are entered there. So have headers that fit in line, unless they are
/// items of top-level scopes.
pub open spec fn headers_have_one_node(ix: IndexView, l: Layout) -> bool {
    &&& forall|i: int|
        0 <= i < l.nodes.len() ==> (header_of_kind((#[trigger] l.nodes[i]).kind) matches Some(h)
            ==> l.entry.contains_key(h))
    &&& forall|i: int, j: int|
        0 <= i < j < l.nodes.len() && header_of_kind((#[trigger] l.nodes[i]).kind) is Some
            ==> header_of_kind(l.nodes[i].kind) != header_of_kind((#[trigger] l.nodes[j]).kind)
    &&& forall|h: Hid| #[trigger]
        l.entry.contains_key(h) && keeps_its_node(ix, h) ==> header_of_kind(
            l.nodes[l.entry[h]@ as int].kind,
        ) == Some(h)
}

/// Whether a node stands in a cluster that is named like the header `hid` and
/// holds no earlier node.
pub open spec fn opens_cluster(
    ix: IndexView,
    nodes: Seq<NodeView>,
    clusters: Seq<ClusterView>,
    i: int,
    hid: Hid,
) -> bool {
    &&& nodes[i].cluster matches Some(c) && c@ < clusters.len() && clusters[c@ as int].label
        == ix.header(hid)->0.title
    &&& forall|j: int| 0 <= j < i ==> (#[trigger] nodes[j]).cluster != nodes[i].cluster
}

/// Every decision opens a cluster of its own.
pub open spec fn decisions_open_clusters(
    ix: IndexView,
    nodes: Seq<NodeView>,
    clusters: Seq<ClusterView>,
) -> bool {
    forall|i: int|
        0 <= i < nodes.len() ==> ((#[trigger] nodes[i]).kind matches KindView::Decision(hid, _)
            ==> opens_cluster(ix, nodes, clusters, i, hid))
}

/// A header and a callee have at most one call node.
pub open spec fn calls_have_one_node(l: Layout) -> bool {
    &&& forall|i: int|
        0 <= i < l.nodes.len() ==> ((#[trigger] l.nodes[i]).kind matches KindView::Call {
            header,
            callee,
        } ==> l.calls.contains_key((header, callee)) && l.calls[(header, callee)]@ == i)
    &&& forall|k: (Hid, Seq<char>)| #[trigger]
        l.calls.contains_key(k) ==> is_node(l, l.calls[k]) && l.nodes[l.calls[k]@ as int].kind == (
        KindView::Call { header: k.0, callee: k.1 })
}

/// Call nodes are labelled with the callee.
pub open spec fn calls_are_labelled(l: Layout) -> bool {
    forall|i: int|
        0 <= i < l.nodes.len() ==> ((#[trigger] l.nodes[i]).kind matches KindView::Call {
            header,
            callee,
        } ==> l.nodes[i].label == callee)
}

/// What holds of every layout.
pub open spec fn sound(ix: IndexView, show: bool, l: Layout) -> bool {
    &&& ids_are_places(l)
    &&& edges_join_nodes(l)
    &&& clusters_nest(l)
    &&& ends_are_nodes(ix, l)
    &&& l.spans == node_spans(l.nodes)
    &&& nodes_describe(ix, show, l)
    &&& headers_have_one_node(ix, l)
    &&& calls_have_one_node(l)
    &&& decisions_open_clusters(ix, l.nodes, l.clusters)
}

/// Whether `m` keeps all that `l` has. Headers that keep their nodes stay entered
/// there.
pub open spec fn extends(ix: IndexView, l: Layout, m: Layout) -> bool {
    &&& l.nodes.is_prefix_of(m.nodes)
    &&& l.edges.is_prefix_of(m.edges)
    &&& l.clusters.is_prefix_of(m.clusters)
    &&& forall|h: Hid| #[trigger]
        l.entry.contains_key(h) ==> m.entry.contains_key(h) && (keeps_its_node(ix, h)
            ==> m.entry[h] == l.entry[h])
    &&& forall|h: Hid| #[trigger] l.exits.contains_key(h) ==> m.exits.contains_key(h)
    &&& forall|k: (Hid, Seq<char>)| #[trigger]
        l.calls.contains_key(k) ==> m.calls.contains_key(k) && m.calls[k] == l.calls[k]
    &&& l.visited.subset_of(m.visited)
}

/// Whether every call of a header has a node that leads to the header's entry.
pub open spec fn calls_linked(ix: IndexView, l: Layout, hid: Hid) -> bool {
    forall|i: int|
        0 <= i < ix.calls(hid).len() ==> {
            let k = (hid, #[trigger] ix.calls(hid)[i]);
            l.calls.contains_key(k) && l.edges.contains(Edge { from: l.calls[k], to: l.entry[hid] })
        }
}

/// The only child of a header that is laid out in line.
pub open spec fn only_child(ix: IndexView, hid: Hid) -> Hid {
    if ix.md_children(hid).len() == 1 {
        ix.md_children(hid)[0]
    } else {
        ix.nested_children(hid)[0]
    }
}

/// Whether a branch leads to a nested child, whose calls lead to the child if
/// calls are shown.
pub open spec fn branches_to(ix: IndexView, show: bool, l: Layout, hid: Hid, child: Hid) -> bool {
    &&& l.edges.contains(Edge { from: l.entry[hid], to: l.entry[child] })
    &&& show ==> calls_linked(ix, l, child)
}

/// Whether a header is laid out with all that belongs to it, and leads to those
/// of its branches, or to the only child in line with it, that keep their nodes.
pub open spec fn complete(ix: IndexView, show: bool, l: Layout, hid: Hid) -> bool {
    let nested = ix.nested_children(hid);
    &&& l.exits.contains_key(hid)
    &&& l.all_entered(ix.md_children(hid))
    &&& l.all_entered(nested)
    &&& forall|i: int| 0 <= i < nested.len() ==> l.visited.contains(ix.scope_of(#[trigger] nested[i]))
    &&& show && always_a_node(ix, hid) ==> calls_linked(ix, l, hid)
    &&& model::shape(ix, hid, None) == Shape::Branch ==> forall|i: int|
        0 <= i < nested.len() && keeps_its_node(ix, #[trigger] nested[i]) ==> branches_to(
            ix,
            show,
            l,
            hid,
            nested[i],
        )
    &&& keeps_its_node(ix, hid) && !always_a_node(ix, hid) && keeps_its_node(
        ix,
        only_child(ix, hid),
    ) ==> l.edges.contains(Edge { from: l.entry[hid], to: l.entry[only_child(ix, hid)] })
}

/// Whether a node that stands for a header leads to another node.
pub open spec fn leads_from_header(l: Layout, from: NodeId, to: NodeId) -> bool {
    is_header_node(l, from) && l.edges.contains(Edge { from, to })
}

/// Whether a node that stands for a header leads to where a header is entered.
pub open spec fn is_led_to(l: Layout, hid: Hid) -> bool {
    exists|from: NodeId| #[trigger] leads_from_header(l, from, l.entry[hid])
}

/// Whether all headers of a list but the first one are led to, of those that keep
/// their nodes.
pub open spec fn all_led_to(ix: IndexView, l: Layout, hids: Seq<Hid>) -> bool {
    forall|i: int|
        0 < i < hids.len() && keeps_its_node(ix, #[trigger] hids[i]) ==> is_led_to(l, hids[i])
}

/// Whether the headers and scopes that `m` has beyond `l` are laid out with all
/// that belongs to them.
pub open spec fn completes(ix: IndexView, show: bool, l: Layout, m: Layout) -> bool {
    &&& forall|h: Hid| #[trigger]
        m.entry.contains_key(h) && !l.entry.contains_key(h) ==> complete(ix, show, m, h)
    &&& forall|s: ScopeId| #[trigger]
        m.visited.contains(s) && !l.visited.contains(s) ==> m.all_entered(ix.scope_items(s))
            && all_led_to(ix, m, ix.scope_items(s))
}

/// One step of a layout.
pub open spec fn advances(ix: IndexView, show: bool, l: Layout, m: Layout) -> bool {
    &&& sound(ix, show, m)
    &&& extends(ix, l, m)
    &&& completes(ix, show, l, m)
}

/// Whether a cluster is `top` or stands below it. Everything stands below no
/// cluster.
pub open spec fn inside(
    clusters: Seq<ClusterView>,
    cluster: Option<ClusterId>,
    top: Option<ClusterId>,
) -> bool
    decreases
            match cluster {
                Some(id) => id@ + 1,
                None => 0,
            },
{
    ||| cluster == top
    ||| cluster matches Some(id) && id@ < clusters.len() && match clusters[id@ as int].parent {
        None => top is None,
        Some(p) => p@ < id@ && inside(clusters, Some(p), top),
    }
}

/// Whether all nodes and clusters that `m` has beyond `l` stand in `top` or below
/// it.
pub open spec fn enclosed(l: Layout, m: Layout, top: Option<ClusterId>) -> bool {
    &&& forall|i: int|
        l.nodes.len() <= i < m.nodes.len() ==> inside(
            m.clusters,
            (#[trigger] m.nodes[i]).cluster,
            top,
        )
    &&& forall|i: int|
        l.clusters.len() <= i < m.clusters.len() ==> inside(
            m.clusters,
            (#[trigger] m.clusters[i]).parent,
            top,
        )
}

pub(crate) proof fn lemma_extends_chain(ix: IndexView, a: Layout, b: Layout, c: Layout)
    requires
        extends(ix, a, b),
        extends(ix, b, c),
    ensures
        extends(ix, a, c),
{
    assert forall|i: int| 0 <= i < a.nodes.len() implies a.nodes[i] == c.nodes[i] by {
        assert(a.nodes[i] == b.nodes[i]);
    }
    assert(a.nodes =~= c.nodes.subrange(0, a.nodes.len() as int));
    assert forall|i: int| 0 <= i < a.edges.len() implies a.edges[i] == c.edges[i] by {
        assert(a.edges[i] == b.edges[i]);
    }
    assert(a.edges =~= c.edges.subrange(0, a.edges.len() as int));
    assert forall|i: int| 0 <= i < a.clusters.len() implies a.clusters[i] == c.clusters[i] by {
        assert(a.clusters[i] == b.clusters[i]);
    }
    assert(a.clusters =~= c.clusters.subrange(0, a.clusters.len() as int));
    assert forall|h: Hid| #[trigger] a.exits.contains_key(h) implies c.exits.contains_key(h) by {
        assert(b.exits.contains_key(h));
    }
    assert forall|h: Hid| #[trigger] a.entry.contains_key(h) implies c.entry.contains_key(h) && (
    keeps_its_node(ix, h) ==> c.entry[h] == a.entry[h]) by {
        assert(b.entry.contains_key(h));
    }
    assert forall|k: (Hid, Seq<char>)| #[trigger] a.calls.contains_key(k) implies c.calls.contains_key(
        k,
    ) && c.calls[k] == a.calls[k] by {
        assert(b.calls.contains_key(k));
    }
}

pub(crate) proof fn lemma_edge_kept(ix: IndexView, l: Layout, m: Layout, e: Edge)
    requires
        extends(ix, l, m),
        l.edges.contains(e),
    ensures
        m.edges.contains(e),
{
    let i = choose|i: int| 0 <= i < l.edges.len() && l.edges[i] == e;
    assert(m.edges[i] == e);
}

pub(crate) proof fn lemma_entered_kept(ix: IndexView, l: Layout, m: Layout, hids: Seq<Hid>)
    requires
        extends(ix, l, m),
        l.all_entered(hids),
    ensures
        m.all_entered(hids),
{
}

pub(crate) proof fn lemma_calls_linked_kept(ix: IndexView, l: Layout, m: Layout, hid: Hid)
    requires
        extends(ix, l, m),
        l.entry.contains_key(hid),
        m.entry[hid] == l.entry[hid],
        calls_linked(ix, l, hid),
    ensures
        calls_linked(ix, m, hid),
{
    assert forall|i: int| 0 <= i < ix.calls(hid).len() implies {
        let k = (hid, #[trigger] ix.calls(hid)[i]);
        m.calls.contains_key(k) && m.edges.contains(Edge { from: m.calls[k], to: m.entry[hid] })
    } by {
        let k = (hid, ix.calls(hid)[i]);
        assert(l.calls.contains_key(k));
        lemma_edge_kept(ix, l, m, Edge { from: l.calls[k], to: l.entry[hid] });
    }
}

pub(crate) proof fn lemma_complete_kept(ix: IndexView, show: bool, l: Layout, m: Layout, hid: Hid)
    requires
        extends(ix, l, m),
        l.entry.contains_key(hid),
        complete(ix, show, l, hid),
    ensures
        complete(ix, show, m, hid),
{
    let nested = ix.nested_children(hid);
    lemma_entered_kept(ix, l, m, ix.md_children(hid));
    lemma_entered_kept(ix, l, m, nested);
    assert forall|i: int| 0 <= i < nested.len() implies m.visited.contains(
        ix.scope_of(#[trigger] nested[i]),
    ) by {
        assert(l.visited.contains(ix.scope_of(nested[i])));
    }
    if show && always_a_node(ix, hid) {
        lemma_calls_linked_kept(ix, l, m, hid);
    }
    if model::shape(ix, hid, None) == Shape::Branch {
        assert forall|i: int|
            0 <= i < nested.len() && keeps_its_node(ix, #[trigger] nested[i]) implies branches_to(
            ix,
            show,
            m,
            hid,
            nested[i],
        ) by {
            let child = nested[i];
            assert(branches_to(ix, show, l, hid, child));
            assert(l.entry.contains_key(child));
            lemma_edge_kept(ix, l, m, Edge { from: l.entry[hid], to: l.entry[child] });
            if show {
                lemma_calls_linked_kept(ix, l, m, child);
            }
        }
    }
    let child = only_child(ix, hid);
    if keeps_its_node(ix, hid) && !always_a_node(ix, hid) && keeps_its_node(ix, child) {
        lemma_only_child(ix, hid);
        assert(l.entry.contains_key(child));
        lemma_edge_kept(ix, l, m, Edge { from: l.entry[hid], to: l.entry[child] });
    }
}

/// A header that is laid out in line has an only child.
proof fn lemma_only_child(ix: IndexView, hid: Hid)
    requires
        !always_a_node(ix, hid),
        model::fits_in_line(ix, hid),
    ensures
        ix.md_children(hid).len() == 1 ==> only_child(ix, hid) == ix.md_children(hid)[0],
        ix.md_children(hid).len() == 0 ==> ix.nested_children(hid).len() == 1 && only_child(
            ix,
            hid,
        ) == ix.nested_children(hid)[0],
        ix.md_children(hid).len() + ix.nested_children(hid).len() == 1,
{
}

proof fn lemma_led_to_kept(ix: IndexView, l: Layout, m: Layout, hids: Seq<Hid>)
    requires
        extends(ix, l, m),
        l.all_entered(hids),
        all_led_to(ix, l, hids),
    ensures
        all_led_to(ix, m, hids),
{
    assert forall|i: int| 0 < i < hids.len() && keeps_its_node(ix, #[trigger] hids[i]) implies
        is_led_to(m, hids[i]) by {
        assert(l.entry.contains_key(hids[i]));
        assert(is_led_to(l, hids[i]));
        let from = choose|from: NodeId| #[trigger]
            leads_from_header(l, from, l.entry[hids[i]]);
        lemma_edge_kept(ix, l, m, Edge { from, to: l.entry[hids[i]] });
        assert(m.nodes[from@ as int] == l.nodes[from@ as int]);
        assert(leads_from_header(m, from, m.entry[hids[i]]));
    }
}

pub(crate) proof fn lemma_advances_chain(ix: IndexView, show: bool, a: Layout, b: Layout, c: Layout)
    requires
        advances(ix, show, a, b),
        advances(ix, show, b, c),
    ensures
        advances(ix, show, a, c),
{
    lemma_extends_chain(ix, a, b, c);
    assert forall|h: Hid| #[trigger]
        c.entry.contains_key(h) && !a.entry.contains_key(h) implies complete(ix, show, c, h) by {
        if b.entry.contains_key(h) {
            lemma_complete_kept(ix, show, b, c, h);
        }
    }
    assert forall|s: ScopeId| #[trigger]
        c.visited.contains(s) && !a.visited.contains(s) implies c.all_entered(ix.scope_items(s))
        && all_led_to(ix, c, ix.scope_items(s)) by {
        if b.visited.contains(s) {
            lemma_entered_kept(ix, b, c, ix.scope_items(s));
            lemma_led_to_kept(ix, b, c, ix.scope_items(s));
        }
    }
}

pub(crate) proof fn lemma_advances_same(ix: IndexView, show: bool, l: Layout)
    requires
        sound(ix, show, l),
    ensures
        advances(ix, show, l, l),
{
    assert(l.nodes =~= l.nodes.subrange(0, l.nodes.len() as int));
    assert(l.edges =~= l.edges.subrange(0, l.edges.len() as int));
    assert(l.clusters =~= l.clusters.subrange(0, l.clusters.len() as int));
}

pub(crate) proof fn lemma_inside_kept(
    a: Seq<ClusterView>,
    b: Seq<ClusterView>,
    cluster: Option<ClusterId>,
    top: Option<ClusterId>,
)
    requires
        a.is_prefix_of(b),
        inside(a, cluster, top),
    ensures
        inside(b, cluster, top),
    decreases
            match cluster {
                Some(id) => id@ + 1,
                None => 0,
            },
{
    if cluster != top {
        let id = cluster->0;
        assert(b[id@ as int] == a[id@ as int]);
        if a[id@ as int].parent is Some {
            lemma_inside_kept(a, b, a[id@ as int].parent, top);
        }
    }
}

proof fn lemma_inside_step(
    clusters: Seq<ClusterView>,
    cluster: Option<ClusterId>,
    mid: ClusterId,
    top: Option<ClusterId>,
)
    requires
        inside(clusters, cluster, Some(mid)),
        mid@ < clusters.len(),
        clusters[mid@ as int].parent == top,
        top matches Some(p) ==> p@ < mid@,
    ensures
        inside(clusters, cluster, top),
    decreases
            match cluster {
                Some(id) => id@ + 1,
                None => 0,
            },
{
    if cluster == Some(mid) {
        if top is Some {
            assert(inside(clusters, top, top));
        }
    } else {
        let id = cluster->0;
        lemma_inside_step(clusters, clusters[id@ as int].parent, mid, top);
    }
}

pub(crate) proof fn lemma_enclosed_chain(
    ix: IndexView,
    a: Layout,
    b: Layout,
    c: Layout,
    top: Option<ClusterId>,
)
    requires
        extends(ix, a, b),
        extends(ix, b, c),
        enclosed(a, b, top),
        enclosed(b, c, top),
    ensures
        enclosed(a, c, top),
{
    assert forall|i: int| a.nodes.len() <= i < c.nodes.len() implies inside(
        c.clusters,
        (#[trigger] c.nodes[i]).cluster,
        top,
    ) by {
        if i < b.nodes.len() {
            assert(c.nodes[i] == b.nodes[i]);
            lemma_inside_kept(b.clusters, c.clusters, b.nodes[i].cluster, top);
        }
    }
    assert forall|i: int| a.clusters.len() <= i < c.clusters.len() implies inside(
        c.clusters,
        (#[trigger] c.clusters[i]).parent,
        top,
    ) by {
        if i < b.clusters.len() {
            assert(c.clusters[i] == b.clusters[i]);
            lemma_inside_kept(b.clusters, c.clusters, b.clusters[i].parent, top);
        }
    }
}

/// What stands in a cluster or below it stands below the parent of that cluster.
pub(crate) proof fn lemma_enclosed_wider(l: Layout, m: Layout, cluster: ClusterId)
    requires
        enclosed(l, m, Some(cluster)),
        clusters_nest(m),
        cluster@ < m.clusters.len(),
    ensures
        enclosed(l, m, m.clusters[cluster@ as int].parent),
{
    let top = m.clusters[cluster@ as int].parent;
    assert forall|i: int| l.nodes.len() <= i < m.nodes.len() implies inside(
        m.clusters,
        (#[trigger] m.nodes[i]).cluster,
        top,
    ) by {
        lemma_inside_step(m.clusters, m.nodes[i].cluster, cluster, top);
    }
    assert forall|i: int| l.clusters.len() <= i < m.clusters.len() implies inside(
        m.clusters,
        (#[trigger] m.clusters[i]).parent,
        top,
    ) by {
        lemma_inside_step(m.clusters, m.clusters[i].parent, cluster, top);
    }
}

/// Whether all of `ids` are nodes that stand for headers.
pub open spec fn are_header_nodes(l: Layout, ids: Seq<NodeId>) -> bool {
    forall|i: int| 0 <= i < ids.len() ==> is_header_node(l, #[trigger] ids[i])
}

/// `m` has the headers and scopes that `l` has, and keeps all the rest.
pub open spec fn same_headers(ix: IndexView, l: Layout, m: Layout) -> bool {
    &&& extends(ix, l, m)
    &&& m.entry == l.entry
    &&& m.visited == l.visited
}

pub(crate) proof fn lemma_same_headers_advances(ix: IndexView, show: bool, l: Layout, m: Layout)
    requires
        same_headers(ix, l, m),
        sound(ix, show, m),
    ensures
        advances(ix, show, l, m),
{
}

pub(crate) proof fn lemma_link(ix: IndexView, show: bool, l: Layout, edges: Seq<Edge>)
    requires
        sound(ix, show, l),
        forall|i: int|
            0 <= i < edges.len() ==> is_node(l, (#[trigger] edges[i]).from) && is_node(
                l,
                edges[i].to,
            ),
    ensures
        sound(ix, show, l.link(edges)),
        same_headers(ix, l, l.link(edges)),
        forall|i: int| 0 <= i < edges.len() ==> l.link(edges).edges.contains(#[trigger] edges[i]),
{
    let m = l.link(edges);
    assert forall|i: int| 0 <= i < m.edges.len() implies is_node(m, (#[trigger] m.edges[i]).from)
        && is_node(m, m.edges[i].to) by {
        if i < l.edges.len() {
            assert(m.edges[i] == l.edges[i]);
        } else {
            assert(m.edges[i] == edges[i - l.edges.len()]);
        }
    }
    assert forall|i: int| 0 <= i < edges.len() implies m.edges.contains(#[trigger] edges[i]) by {
        assert(m.edges[l.edges.len() + i] == edges[i]);
    }
    lemma_advances_same(ix, show, l);
    assert(l.edges =~= m.edges.subrange(0, l.edges.len() as int));
}

/// Whether a cluster has a name and a parent, and holds no node yet.
pub open spec fn opened(
    l: Layout,
    cluster: ClusterId,
    label: Seq<char>,
    parent: Option<ClusterId>,
) -> bool {
    &&& cluster@ < l.clusters.len()
    &&& l.clusters[cluster@ as int].label == label
    &&& l.clusters[cluster@ as int].parent == parent
    &&& forall|j: int| 0 <= j < l.nodes.len() ==> (#[trigger] l.nodes[j]).cluster != Some(cluster)
}

pub(crate) proof fn lemma_add_cluster(
    ix: IndexView,
    show: bool,
    l: Layout,
    label: Seq<char>,
    parent: Option<ClusterId>,
)
    requires
        sound(ix, show, l),
        is_cluster(l, parent),
        l.add_cluster(label, parent) is Some,
    ensures
        sound(ix, show, l.add_cluster(label, parent)->0),
        same_headers(ix, l, l.add_cluster(label, parent)->0),
        is_cluster(l.add_cluster(label, parent)->0, Some(l.next_cluster())),
        l.add_cluster(label, parent)->0.exits == l.exits,
        enclosed(l, l.add_cluster(label, parent)->0, parent),
        opened(l.add_cluster(label, parent)->0, l.next_cluster(), label, parent),
{
    let m = l.add_cluster(label, parent)->0;
    lemma_advances_same(ix, show, l);
    assert(l.clusters =~= m.clusters.subrange(0, l.clusters.len() as int));
    assert forall|i: int| 0 <= i < m.clusters.len() implies (#[trigger] m.clusters[i]).id@ == i && (
    m.clusters[i].parent matches Some(p) ==> p@ < i) by {
        if i < l.clusters.len() {
            assert(m.clusters[i] == l.clusters[i]);
        }
    }
    assert forall|i: int| 0 <= i < m.nodes.len() implies is_cluster(
        m,
        (#[trigger] m.nodes[i]).cluster,
    ) by {
        assert(is_cluster(l, l.nodes[i].cluster));
    }
    assert forall|j: int| 0 <= j < m.nodes.len() implies (#[trigger] m.nodes[j]).cluster != Some(
        l.next_cluster(),
    ) by {
        assert(is_cluster(l, l.nodes[j].cluster));
    }
    assert forall|i: int| 0 <= i < m.nodes.len() implies ((
    #[trigger] m.nodes[i]).kind matches KindView::Decision(hid, _) ==> opens_cluster(
        ix,
        m.nodes,
        m.clusters,
        i,
        hid,
    )) by {
        if let KindView::Decision(hid, _) = m.nodes[i].kind {
            assert(opens_cluster(ix, l.nodes, l.clusters, i, hid));
            assert(forall|j: int| 0 <= j < i ==> (#[trigger] m.nodes[j]).cluster == l.nodes[j].cluster);
        }
    }
}

pub(crate) proof fn lemma_add_node(
    ix: IndexView,
    show: bool,
    l: Layout,
    label: Seq<char>,
    kind: KindView,
    cluster: Option<ClusterId>,
)
    requires
        sound(ix, show, l),
        is_cluster(l, cluster),
        l.add_node(label, kind, cluster) is Some,
        describes(ix, show, NodeView { id: l.next_node(), label, kind, cluster }),
        header_of_kind(kind) matches Some(h) ==> !l.entry.contains_key(h),
        kind matches KindView::Decision(_, _) ==> cluster is Some && opened(
            l,
            cluster->0,
            label,
            l.clusters[cluster->0@ as int].parent,
        ),
    ensures
        ({
            let m = l.add_node(label, kind, cluster)->0;
            &&& same_headers(ix, l, m)
            &&& ids_are_places(m)
            &&& edges_join_nodes(m)
            &&& clusters_nest(m)
            &&& ends_are_nodes(ix, m)
            &&& nodes_describe(ix, show, m)
            &&& decisions_open_clusters(ix, m.nodes, m.clusters)
            &&& is_node(m, l.next_node())
            &&& l.next_node()@ == l.nodes.len()
            &&& m.nodes[l.nodes.len() as int].kind == kind
            &&& enclosed(l, m, cluster)
            &&& node_spans(m.nodes) == match span_of_kind(kind) {
                Some(span) => l.spans.push((l.next_node(), span)),
                None => l.spans,
            }
            &&& forall|i: int, j: int|
                0 <= i < j < m.nodes.len() && header_of_kind((#[trigger] m.nodes[i]).kind) is Some
                    ==> header_of_kind(m.nodes[i].kind) != header_of_kind(
                    (#[trigger] m.nodes[j]).kind,
                )
            &&& forall|h: Hid| #[trigger] has_node(l.nodes, h) ==> has_node(m.nodes, h)
        }),
{
    let m = l.add_node(label, kind, cluster)->0;
    let node = NodeView { id: l.next_node(), label, kind, cluster };
    let at = l.nodes.len() as int;
    lemma_advances_same(ix, show, l);
    assert(l.nodes =~= m.nodes.subrange(0, l.nodes.len() as int));
    assert(m.nodes.drop_last() =~= l.nodes);
    assert(m.nodes.last() == node);
    assert forall|i: int| 0 <= i < m.nodes.len() implies (#[trigger] m.nodes[i]).id@ == i
        && is_cluster(m, m.nodes[i].cluster) && describes(ix, show, m.nodes[i]) by {
        if i < l.nodes.len() {
            assert(m.nodes[i] == l.nodes[i]);
            assert(is_cluster(l, l.nodes[i].cluster));
        }
    }
    assert forall|i: int| 0 <= i < m.edges.len() implies is_node(m, (#[trigger] m.edges[i]).from)
        && is_node(m, m.edges[i].to) by {
        assert(is_node(l, l.edges[i].from));
    }
    assert forall|h: Hid, i: int|
        m.exits.contains_key(h) && 0 <= i < m.exits[h].len() implies is_header_node(
        m,
        #[trigger] m.exits[h][i],
    ) by {
        assert(is_header_node(l, l.exits[h][i]));
        assert(m.nodes[l.exits[h][i]@ as int] == l.nodes[l.exits[h][i]@ as int]);
    }
    assert forall|h: Hid| #[trigger] m.entry.contains_key(h) implies ix.header(h) is Some
        && is_header_node(m, m.entry[h]) by {
        assert(l.entry.contains_key(h));
        assert(m.nodes[l.entry[h]@ as int] == l.nodes[l.entry[h]@ as int]);
    }
    assert forall|i: int, j: int|
        0 <= i < j < m.nodes.len() && header_of_kind((#[trigger] m.nodes[i]).kind)
            is Some implies header_of_kind(m.nodes[i].kind) != header_of_kind(
        (#[trigger] m.nodes[j]).kind,
    ) by {
        assert(m.nodes[i] == l.nodes[i]);
        if j < at {
            assert(m.nodes[j] == l.nodes[j]);
        }
    }
    assert forall|h: Hid| #[trigger] has_node(l.nodes, h) implies has_node(m.nodes, h) by {
        let i = choose|i: int|
            0 <= i < l.nodes.len() && header_of_kind((#[trigger] l.nodes[i]).kind) == Some(h);
        assert(header_of_kind(m.nodes[i].kind) == Some(h));
    }
    assert forall|i: int| 0 <= i < m.nodes.len() implies ((
    #[trigger] m.nodes[i]).kind matches KindView::Decision(hid, _) ==> opens_cluster(
        ix,
        m.nodes,
        m.clusters,
        i,
        hid,
    )) by {
        if let KindView::Decision(hid, _) = m.nodes[i].kind {
            assert forall|j: int| 0 <= j < i implies (#[trigger] m.nodes[j]).cluster
                != m.nodes[i].cluster by {
                assert(m.nodes[j] == l.nodes[j]);
                if i < at {
                    assert(m.nodes[i] == l.nodes[i]);
                    assert(opens_cluster(ix, l.nodes, l.clusters, i, hid));
                }
            }
            if i < at {
                assert(m.nodes[i] == l.nodes[i]);
                assert(opens_cluster(ix, l.nodes, l.clusters, i, hid));
            }
        }
    }
}

pub(crate) proof fn lemma_place_node(
    ix: IndexView,
    show: bool,
    l: Layout,
    hid: Hid,
    decision: bool,
    cluster: Option<ClusterId>,
)
    requires
        sound(ix, show, l),
        is_cluster(l, cluster),
        !l.entry.contains_key(hid),
        ix.header(hid) is Some,
        decision ==> model::shape(ix, hid, cluster) == Shape::Branch && cluster is Some && opened(
            l,
            cluster->0,
            ix.header(hid)->0.title,
            l.clusters[cluster->0@ as int].parent,
        ),
        !decision ==> model::shape(ix, hid, cluster) == Shape::Leaf || model::shape(
            ix,
            hid,
            cluster,
        ) == Shape::Flat,
        l.place_node(ix.header(hid)->0, hid, decision, cluster) is Some,
    ensures
        ({
            let m = l.place_node(ix.header(hid)->0, hid, decision, cluster)->0;
            &&& sound(ix, show, m)
            &&& extends(ix, l, m)
            &&& enclosed(l, m, cluster)
            &&& m.entry == l.entry.insert(hid, l.next_node())
            &&& m.exits == l.exits
            &&& m.visited == l.visited
            &&& m.clusters == l.clusters
            &&& is_header_node(m, l.next_node())
        }),
{
    let h = ix.header(hid)->0;
    let kind = if decision {
        KindView::Decision(hid, Some(h.span))
    } else {
        KindView::Header(hid, Some(h.span))
    };
    lemma_add_node(ix, show, l, h.title, kind, cluster);
    let n = l.add_node(h.title, kind, cluster)->0;
    let m = l.place_node(h, hid, decision, cluster)->0;
    let at = l.nodes.len() as int;
    assert(m.nodes == n.nodes);
    assert(m.nodes[at].kind == kind);
    assert forall|g: Hid| #[trigger] m.entry.contains_key(g) implies ix.header(g) is Some
        && is_header_node(m, m.entry[g]) by {
        if g != hid {
            assert(n.entry.contains_key(g));
        }
    }
    assert forall|g: Hid, i: int|
        m.exits.contains_key(g) && 0 <= i < m.exits[g].len() implies is_header_node(
        m,
        #[trigger] m.exits[g][i],
    ) by {
        assert(is_header_node(n, n.exits[g][i]));
    }
    assert forall|g: Hid| #[trigger] m.exits.contains_key(g) implies m.entry.contains_key(g)
        && m.exits[g].len() > 0 by {
        assert(l.exits.contains_key(g));
    }
    assert forall|i: int| 0 <= i < m.nodes.len() implies (header_of_kind(
        (#[trigger] m.nodes[i]).kind,
    ) matches Some(g) ==> m.entry.contains_key(g)) by {
        if i < at {
            assert(m.nodes[i] == l.nodes[i]);
        }
    }
    assert forall|g: Hid| #[trigger]
        m.entry.contains_key(g) && keeps_its_node(ix, g) implies header_of_kind(
        m.nodes[m.entry[g]@ as int].kind,
    ) == Some(g) by {
        if g != hid {
            assert(l.entry.contains_key(g));
            assert(m.nodes[l.entry[g]@ as int] == l.nodes[l.entry[g]@ as int]);
        }
    }
    assert forall|i: int| 0 <= i < m.nodes.len() implies ((
    #[trigger] m.nodes[i]).kind matches KindView::Decision(g, _) ==> opens_cluster(
        ix,
        m.nodes,
        m.clusters,
        i,
        g,
    )) by {
        if let KindView::Decision(g, _) = m.nodes[i].kind {
            assert(opens_cluster(ix, n.nodes, n.clusters, i, g));
            assert(forall|j: int|
                0 <= j < i ==> (#[trigger] m.nodes[j]).cluster == n.nodes[j].cluster);
        }
    }
    assert forall|i: int| 0 <= i < m.nodes.len() implies ((
    #[trigger] m.nodes[i]).kind matches KindView::Call { header, callee } ==> m.calls.contains_key(
        (header, callee),
    ) && m.calls[(header, callee)]@ == i) by {
        if i < at {
            assert(m.nodes[i] == l.nodes[i]);
        }
    }
    assert forall|k: (Hid, Seq<char>)| #[trigger] m.calls.contains_key(k) implies is_node(
        m,
        m.calls[k],
    ) && m.nodes[m.calls[k]@ as int].kind == (KindView::Call { header: k.0, callee: k.1 }) by {
        assert(l.calls.contains_key(k));
        assert(m.nodes[l.calls[k]@ as int] == l.nodes[l.calls[k]@ as int]);
    }
}

pub(crate) proof fn lemma_place_call(
    ix: IndexView,
    l: Layout,
    hid: Hid,
    callee: Seq<char>,
    rep: NodeId,
    cluster: Option<ClusterId>,
)
    requires
        sound(ix, true, l),
        is_cluster(l, cluster),
        is_node(l, rep),
        ix.header(hid) is Some,
        ix.calls(hid).contains(callee),
        model::place_call(l, hid, callee, rep, cluster) is Some,
    ensures
        ({
            let m = model::place_call(l, hid, callee, rep, cluster)->0;
            &&& sound(ix, true, m)
            &&& same_headers(ix, l, m)
            &&& enclosed(l, m, cluster)
            &&& m.exits == l.exits
            &&& m.clusters == l.clusters
            &&& m.calls.contains_key((hid, callee))
            &&& m.edges.contains(Edge { from: m.calls[(hid, callee)], to: rep })
        }),
{
    let key = (hid, callee);
    let m = model::place_call(l, hid, callee, rep, cluster)->0;
    if l.calls.contains_key(key) {
        let e = Edge { from: l.calls[key], to: rep };
        lemma_link(ix, true, l, seq![e]);
        assert(seq![e][0] == e);
    } else {
        let kind = KindView::Call { header: hid, callee };
        lemma_add_node(ix, true, l, callee, kind, cluster);
        let n = l.add_node(callee, kind, cluster)->0;
        let e = Edge { from: l.next_node(), to: rep };
        let at = l.nodes.len() as int;
        assert(m.nodes == n.nodes);
        assert(m.nodes[at].kind == kind);
        assert(l.edges =~= m.edges.subrange(0, l.edges.len() as int));
        assert(m.edges[l.edges.len() as int] == e);
        assert forall|i: int| 0 <= i < m.edges.len() implies is_node(
            m,
            (#[trigger] m.edges[i]).from,
        ) && is_node(m, m.edges[i].to) by {
            if i < l.edges.len() {
                assert(m.edges[i] == l.edges[i]);
            } else {
                assert(m.edges[i] == e);
            }
        }
        assert forall|g: Hid| #[trigger] m.entry.contains_key(g) implies ix.header(g) is Some
            && is_header_node(m, m.entry[g]) by {
            assert(n.entry.contains_key(g));
        }
        assert forall|g: Hid, i: int|
            m.exits.contains_key(g) && 0 <= i < m.exits[g].len() implies is_header_node(
            m,
            #[trigger] m.exits[g][i],
        ) by {
            assert(is_header_node(n, n.exits[g][i]));
        }
        assert forall|i: int| 0 <= i < m.nodes.len() implies (header_of_kind(
            (#[trigger] m.nodes[i]).kind,
        ) matches Some(g) ==> m.entry.contains_key(g)) by {
            if i < at {
                assert(m.nodes[i] == l.nodes[i]);
            }
        }
        assert forall|g: Hid| #[trigger]
            m.entry.contains_key(g) && keeps_its_node(ix, g) implies header_of_kind(
            m.nodes[m.entry[g]@ as int].kind,
        ) == Some(g) by {
            assert(l.entry.contains_key(g));
            assert(m.nodes[l.entry[g]@ as int] == l.nodes[l.entry[g]@ as int]);
        }
        assert forall|i: int| 0 <= i < m.nodes.len() implies ((
        #[trigger] m.nodes[i]).kind matches KindView::Decision(g, _) ==> opens_cluster(
            ix,
            m.nodes,
            m.clusters,
            i,
            g,
        )) by {
            if let KindView::Decision(g, _) = m.nodes[i].kind {
                assert(opens_cluster(ix, n.nodes, n.clusters, i, g));
                assert(forall|j: int|
                    0 <= j < i ==> (#[trigger] m.nodes[j]).cluster == n.nodes[j].cluster);
            }
        }
        assert forall|i: int| 0 <= i < m.nodes.len() implies ((
        #[trigger] m.nodes[i]).kind matches KindView::Call {
            header,
            callee: c,
        } ==> m.calls.contains_key((header, c)) && m.calls[(header, c)]@ == i) by {
            if i < at {
                assert(m.nodes[i] == l.nodes[i]);
            }
        }
        assert forall|k: (Hid, Seq<char>)| #[trigger] m.calls.contains_key(k) implies is_node(
            m,
            m.calls[k],
        ) && m.nodes[m.calls[k]@ as int].kind == (KindView::Call { header: k.0, callee: k.1 }) by {
            if k != key {
                assert(l.calls.contains_key(k));
                assert(m.nodes[l.calls[k]@ as int] == l.nodes[l.calls[k]@ as int]);
            }
        }
    }
}

pub(crate) proof fn lemma_place_calls(
    ix: IndexView,
    l: Layout,
    hid: Hid,
    callees: Seq<Seq<char>>,
    rep: NodeId,
    cluster: Option<ClusterId>,
)
    requires
        sound(ix, true, l),
        is_cluster(l, cluster),
        is_node(l, rep),
        ix.header(hid) is Some,
        forall|i: int| 0 <= i < callees.len() ==> ix.calls(hid).contains(#[trigger] callees[i]),
        model::place_calls(l, hid, callees, rep, cluster) is Some,
    ensures
        ({
            let m = model::place_calls(l, hid, callees, rep, cluster)->0;
            &&& sound(ix, true, m)
            &&& same_headers(ix, l, m)
            &&& enclosed(l, m, cluster)
            &&& m.exits == l.exits
            &&& m.clusters == l.clusters
            &&& forall|i: int|
                0 <= i < callees.len() ==> {
                    let k = (hid, #[trigger] callees[i]);
                    m.calls.contains_key(k) && m.edges.contains(Edge { from: m.calls[k], to: rep })
                }
        }),
    decreases callees.len(),
{
    if callees.len() == 0 {
        lemma_advances_same(ix, true, l);
    } else {
        lemma_place_call(ix, l, hid, callees[0], rep, cluster);
        let n = model::place_call(l, hid, callees[0], rep, cluster)->0;
        let rest = callees.drop_first();
        lemma_place_calls(ix, n, hid, rest, rep, cluster);
        let m = model::place_calls(l, hid, callees, rep, cluster)->0;
        lemma_extends_chain(ix, l, n, m);
        lemma_enclosed_chain(ix, l, n, m, cluster);
        assert forall|i: int| 0 <= i < callees.len() implies {
            let k = (hid, #[trigger] callees[i]);
            m.calls.contains_key(k) && m.edges.contains(Edge { from: m.calls[k], to: rep })
        } by {
            let k = (hid, callees[i]);
            if i == 0 {
                lemma_edge_kept(ix, n, m, Edge { from: n.calls[k], to: rep });
            } else {
                assert(rest[i - 1] == callees[i]);
            }
        }
    }
}

pub(crate) proof fn lemma_show_calls(
    ix: IndexView,
    show: bool,
    l: Layout,
    hid: Hid,
    cluster: Option<ClusterId>,
)
    requires
        sound(ix, show, l),
        is_cluster(l, cluster),
        l.entry.contains_key(hid),
        model::show_calls(ix, show, l, hid, l.entry[hid], cluster) is Some,
    ensures
        ({
            let m = model::show_calls(ix, show, l, hid, l.entry[hid], cluster)->0;
            &&& sound(ix, show, m)
            &&& same_headers(ix, l, m)
            &&& enclosed(l, m, cluster)
            &&& m.exits == l.exits
            &&& m.clusters == l.clusters
            &&& show ==> calls_linked(ix, m, hid)
        }),
{
    let callees = ix.calls(hid);
    if show {
        assert forall|i: int| 0 <= i < callees.len() implies ix.calls(hid).contains(
            #[trigger] callees[i],
        ) by {}
        lemma_place_calls(ix, l, hid, callees, l.entry[hid], cluster);
    } else {
        lemma_advances_same(ix, show, l);
    }
}

#[verifier::rlimit(40)]
pub(crate) proof fn lemma_show_calls_of_all(
    ix: IndexView,
    l: Layout,
    hids: Seq<Hid>,
    cluster: Option<ClusterId>,
)
    requires
        sound(ix, true, l),
        is_cluster(l, cluster),
        l.all_entered(hids),
        model::show_calls_of_all(ix, l, hids, cluster) is Some,
    ensures
        ({
            let m = model::show_calls_of_all(ix, l, hids, cluster)->0;
            &&& sound(ix, true, m)
            &&& same_headers(ix, l, m)
            &&& enclosed(l, m, cluster)
            &&& m.exits == l.exits
            &&& m.clusters == l.clusters
            &&& forall|i: int| 0 <= i < hids.len() ==> calls_linked(ix, m, #[trigger] hids[i])
        }),
    decreases hids.len(),
{
    if hids.len() == 0 {
        lemma_advances_same(ix, true, l);
    } else {
        assert(l.entry.contains_key(hids[0]));
        lemma_show_calls(ix, true, l, hids[0], cluster);
        let n = model::show_calls(ix, true, l, hids[0], l.entry[hids[0]], cluster)->0;
        let rest = hids.drop_first();
        assert(n.all_entered(rest)) by {
            assert forall|i: int| 0 <= i < rest.len() implies n.entry.contains_key(
                #[trigger] rest[i],
            ) by {
                assert(rest[i] == hids[i + 1]);
            }
        }
        lemma_show_calls_of_all(ix, n, rest, cluster);
        let m = model::show_calls_of_all(ix, l, hids, cluster)->0;
        lemma_extends_chain(ix, l, n, m);
        lemma_enclosed_chain(ix, l, n, m, cluster);
        assert forall|i: int| 0 <= i < hids.len() implies calls_linked(
            ix,
            m,
            #[trigger] hids[i],
        ) by {
            if i == 0 {
                lemma_calls_linked_kept(ix, n, m, hids[0]);
            } else {
                assert(calls_linked(ix, m, rest[i - 1]));
            }
        }
    }
}

pub(crate) proof fn lemma_set_exits(
    ix: IndexView,
    show: bool,
    l: Layout,
    hid: Hid,
    exits: Seq<NodeId>,
)
    requires
        sound(ix, show, l),
        l.entry.contains_key(hid),
        exits.len() > 0,
        are_header_nodes(l, exits),
    ensures
        sound(ix, show, l.set_exits(hid, exits)),
        same_headers(ix, l, l.set_exits(hid, exits)),
{
    let m = l.set_exits(hid, exits);
    lemma_advances_same(ix, show, l);
    assert forall|h: Hid, i: int|
        m.exits.contains_key(h) && 0 <= i < m.exits[h].len() implies is_header_node(
        m,
        #[trigger] m.exits[h][i],
    ) by {
        if h == hid {
            assert(is_header_node(l, exits[i]));
        } else {
            assert(is_header_node(l, l.exits[h][i]));
        }
    }
}

pub(crate) proof fn lemma_cluster_kept(
    ix: IndexView,
    l: Layout,
    m: Layout,
    cluster: Option<ClusterId>,
)
    requires
        extends(ix, l, m),
        is_cluster(l, cluster),
    ensures
        is_cluster(m, cluster),
{
    assert(l.clusters.len() <= m.clusters.len());
}

pub(crate) proof fn lemma_nodes_kept(ix: IndexView, l: Layout, m: Layout, ids: Seq<NodeId>)
    requires
        extends(ix, l, m),
        are_header_nodes(l, ids),
    ensures
        are_header_nodes(m, ids),
{
    assert(l.nodes.len() <= m.nodes.len());
    assert forall|i: int| 0 <= i < ids.len() implies is_header_node(m, #[trigger] ids[i]) by {
        assert(is_header_node(l, ids[i]));
        assert(m.nodes[ids[i]@ as int] == l.nodes[ids[i]@ as int]);
    }
}

pub(crate) proof fn lemma_entries(ix: IndexView, show: bool, l: Layout, hids: Seq<Hid>)
    requires
        sound(ix, show, l),
        l.all_entered(hids),
    ensures
        are_header_nodes(l, l.entries(hids)),
{
    assert forall|i: int| 0 <= i < hids.len() implies is_header_node(
        l,
        #[trigger] l.entries(hids)[i],
    ) by {
        assert(l.entry.contains_key(hids[i]));
    }
}

pub(crate) proof fn lemma_exits(ix: IndexView, show: bool, l: Layout, hid: Hid)
    requires
        sound(ix, show, l),
        l.exits.contains_key(hid),
    ensures
        are_header_nodes(l, l.exits[hid]),
        l.exits[hid].len() > 0,
{
    assert forall|i: int| 0 <= i < l.exits[hid].len() implies is_header_node(
        l,
        #[trigger] l.exits[hid][i],
    ) by {}
}

pub(crate) proof fn lemma_exits_of(ix: IndexView, show: bool, l: Layout, hids: Seq<Hid>)
    requires
        sound(ix, show, l),
        l.all_left(hids),
    ensures
        are_header_nodes(l, l.exits_of(hids)),
        hids.len() > 0 ==> l.exits_of(hids).len() > 0,
    decreases hids.len(),
{
    let f = |hid: Hid| l.exits[hid];
    if hids.len() > 0 {
        let rest = hids.drop_first();
        assert forall|i: int| 0 <= i < rest.len() implies l.exits.contains_key(
            #[trigger] rest[i],
        ) by {
            assert(rest[i] == hids[i + 1]);
        }
        lemma_exits_of(ix, show, l, rest);
        assert(l.exits.contains_key(hids[0]));
        lemma_exits(ix, show, l, hids[0]);
        assert(hids.map_values(f).drop_first() =~= rest.map_values(f));
        assert(l.exits_of(hids) =~= l.exits[hids[0]] + l.exits_of(rest));
        let first = l.exits[hids[0]];
        let others = l.exits_of(rest);
        assert forall|i: int| 0 <= i < (first + others).len() implies is_header_node(
            l,
            #[trigger] (first + others)[i],
        ) by {
            if i < first.len() {
                assert((first + others)[i] == first[i]);
            } else {
                assert((first + others)[i] == others[i - first.len()]);
            }
        }
    }
}

pub(crate) proof fn lemma_link_into(
    ix: IndexView,
    show: bool,
    l: Layout,
    froms: Seq<NodeId>,
    to: NodeId,
)
    requires
        sound(ix, show, l),
        are_header_nodes(l, froms),
        is_node(l, to),
    ensures
        sound(ix, show, l.link(model::edges_into(froms, to))),
        same_headers(ix, l, l.link(model::edges_into(froms, to))),
{
    let edges = model::edges_into(froms, to);
    assert forall|i: int| 0 <= i < edges.len() implies is_node(l, (#[trigger] edges[i]).from)
        && is_node(l, edges[i].to) by {
        assert(is_header_node(l, froms[i]));
    }
    lemma_link(ix, show, l, edges);
}

pub(crate) proof fn lemma_same_headers_chain(ix: IndexView, a: Layout, b: Layout, c: Layout)
    requires
        same_headers(ix, a, b),
        same_headers(ix, b, c),
    ensures
        same_headers(ix, a, c),
{
    lemma_extends_chain(ix, a, b, c);
}

/// A header that is begun in `begun`, and completed in `m` once all below it is
/// laid out, is a step of the layout.
pub(crate) proof fn lemma_header_step(
    ix: IndexView,
    show: bool,
    l: Layout,
    begun: Layout,
    below: Layout,
    m: Layout,
    hid: Hid,
)
    requires
        extends(ix, l, begun),
        begun.visited == l.visited,
        forall|h: Hid| #[trigger]
            begun.entry.contains_key(h) && h != hid ==> l.entry.contains_key(h),
        advances(ix, show, begun, below),
        extends(ix, below, m),
        m.visited == below.visited,
        forall|h: Hid| #[trigger]
            m.entry.contains_key(h) && h != hid ==> below.entry.contains_key(h),
        sound(ix, show, m),
        complete(ix, show, m, hid),
    ensures
        advances(ix, show, l, m),
{
    lemma_extends_chain(ix, l, begun, below);
    lemma_extends_chain(ix, l, below, m);
    assert forall|h: Hid| #[trigger]
        m.entry.contains_key(h) && !l.entry.contains_key(h) implies complete(ix, show, m, h) by {
        if h != hid {
            assert(below.entry.contains_key(h));
            assert(!begun.entry.contains_key(h));
            lemma_complete_kept(ix, show, below, m, h);
        }
    }
    assert forall|s: ScopeId| #[trigger]
        m.visited.contains(s) && !l.visited.contains(s) implies m.all_entered(ix.scope_items(s))
        && all_led_to(ix, m, ix.scope_items(s)) by {
        assert(below.visited.contains(s));
        lemma_entered_kept(ix, below, m, ix.scope_items(s));
        lemma_led_to_kept(ix, below, m, ix.scope_items(s));
    }
}

/// What a branch is when its children are laid out and linked.
pub(crate) proof fn lemma_close_branch(
    ix: IndexView,
    show: bool,
    l: Layout,
    hid: Hid,
    cluster: ClusterId,
)
    requires
        sound(ix, show, l),
        l.entry.contains_key(hid),
        is_cluster(l, Some(cluster)),
        ix.md_children(hid).len() + ix.nested_children(hid).len() > 0,
        model::close_branch(ix, show, l, hid, l.entry[hid], cluster) is Some,
    ensures
        ({
            let p = model::close_branch(ix, show, l, hid, l.entry[hid], cluster)->0;
            let nested = ix.nested_children(hid);
            &&& sound(ix, show, p.layout)
            &&& same_headers(ix, l, p.layout)
            &&& p.entry == l.entry[hid]
            &&& p.layout.exits.contains_key(hid)
            &&& p.exits.len() > 0
            &&& are_header_nodes(p.layout, p.exits)
            &&& enclosed(l, p.layout, Some(cluster))
            &&& show ==> forall|i: int|
                0 <= i < nested.len() ==> calls_linked(ix, p.layout, #[trigger] nested[i])
            &&& forall|i: int|
                0 <= i < nested.len() ==> p.layout.edges.contains(
                    Edge { from: l.entry[hid], to: l.entry[#[trigger] nested[i]] },
                )
        }),
{
    let md = ix.md_children(hid);
    let nested = ix.nested_children(hid);
    let decision = l.entry[hid];
    let p = model::close_branch(ix, show, l, hid, decision, cluster)->0;
    let out = model::edges_out_of(decision, l.entries(nested));
    lemma_entries(ix, show, l, nested);
    assert forall|i: int| 0 <= i < out.len() implies is_node(l, (#[trigger] out[i]).from)
        && is_node(l, out[i].to) by {
        assert(is_header_node(l, l.entries(nested)[i]));
    }
    lemma_link(ix, show, l, out);
    let linked = l.link(out);
    lemma_cluster_kept(ix, l, linked, Some(cluster));
    let m = if show {
        lemma_entered_kept(ix, l, linked, nested);
        lemma_show_calls_of_all(ix, linked, nested, Some(cluster));
        model::show_calls_of_all(ix, linked, nested, Some(cluster))->0
    } else {
        lemma_advances_same(ix, show, linked);
        linked
    };
    assert(same_headers(ix, linked, m));
    assert(enclosed(linked, m, Some(cluster)));
    lemma_same_headers_chain(ix, l, linked, m);
    let branch_exits = m.exits_of(nested);
    let steps = m.entries(md);
    lemma_exits_of(ix, show, m, nested);
    lemma_entries(ix, show, m, md);
    let into_first = if steps.len() == 0 {
        seq![]
    } else if branch_exits.len() == 0 {
        seq![Edge { from: decision, to: steps[0] }]
    } else {
        model::edges_into(branch_exits, steps[0])
    };
    assert(is_node(m, decision));
    if steps.len() > 0 {
        assert(is_header_node(m, steps[0]));
    }
    assert forall|i: int| 0 <= i < into_first.len() implies is_node(
        m,
        (#[trigger] into_first[i]).from,
    ) && is_node(m, into_first[i].to) by {
        if branch_exits.len() > 0 {
            assert(is_header_node(m, branch_exits[i]));
        }
    }
    lemma_link(ix, show, m, into_first);
    let m1 = m.link(into_first);
    let along = model::edges_along(steps);
    assert forall|i: int| 0 <= i < along.len() implies is_node(m1, (#[trigger] along[i]).from)
        && is_node(m1, along[i].to) by {
        assert(is_header_node(m, steps[i]));
        assert(is_header_node(m, steps[i + 1]));
    }
    lemma_link(ix, show, m1, along);
    let m2 = m1.link(along);
    lemma_same_headers_chain(ix, m, m1, m2);
    let exits = if steps.len() == 0 {
        branch_exits
    } else {
        seq![steps.last()]
    };
    assert(are_header_nodes(m2, exits)) by {
        lemma_nodes_kept(ix, m, m2, branch_exits);
        lemma_nodes_kept(ix, m, m2, steps);
        if steps.len() > 0 {
            assert(is_header_node(m2, steps[steps.len() - 1]));
        }
    }
    lemma_set_exits(ix, show, m2, hid, exits);
    let last = m2.set_exits(hid, exits);
    assert(p.layout == last);
    assert(enclosed(l, last, Some(cluster)));
    lemma_same_headers_chain(ix, m, m2, last);
    lemma_same_headers_chain(ix, l, m, last);
    lemma_same_headers_chain(ix, linked, m, last);
    if show {
        assert forall|i: int| 0 <= i < nested.len() implies calls_linked(
            ix,
            last,
            #[trigger] nested[i],
        ) by {
            assert(m.entry.contains_key(nested[i]));
            lemma_calls_linked_kept(ix, m, last, nested[i]);
        }
    }
    assert forall|i: int| 0 <= i < nested.len() implies last.edges.contains(
        Edge { from: l.entry[hid], to: l.entry[#[trigger] nested[i]] },
    ) by {
        assert(out[i] == Edge { from: decision, to: l.entry[nested[i]] });
        lemma_edge_kept(ix, linked, last, out[i]);
    }
}

pub(crate) proof fn lemma_close_flat(ix: IndexView, show: bool, l: Layout, hid: Hid, child: Hid)
    requires
        sound(ix, show, l),
        l.entry.contains_key(hid),
        model::close_flat(ix, l, hid, l.entry[hid], child) is Some,
    ensures
        ({
            let p = model::close_flat(ix, l, hid, l.entry[hid], child)->0;
            &&& sound(ix, show, p.layout)
            &&& same_headers(ix, l, p.layout)
            &&& p.entry == l.entry[hid]
            &&& p.layout.exits.contains_key(hid)
            &&& p.exits.len() > 0
            &&& are_header_nodes(p.layout, p.exits)
            &&& p.layout.nodes == l.nodes
            &&& p.layout.clusters == l.clusters
            &&& p.layout.edges.contains(Edge { from: l.entry[hid], to: l.entry[child] })
        }),
{
    let e = Edge { from: l.entry[hid], to: l.entry[child] };
    lemma_link(ix, show, l, seq![e]);
    assert(seq![e][0] == e);
    let m = l.link(seq![e]);
    lemma_exits(ix, show, l, child);
    lemma_nodes_kept(ix, l, m, l.exits[child]);
    lemma_set_exits(ix, show, m, hid, l.exits[child]);
    let last = m.set_exits(hid, l.exits[child]);
    lemma_same_headers_chain(ix, l, m, last);
    lemma_edge_kept(ix, m, last, e);
    lemma_nodes_kept(ix, m, last, l.exits[child]);
}

pub(crate) proof fn lemma_chain_children(
    ix: IndexView,
    show: bool,
    l: Layout,
    nested: Seq<Hid>,
    rest: Seq<Hid>,
    prev: Hid,
)
    requires
        sound(ix, show, l),
        model::chain_children(ix, l, nested, rest, prev) is Some,
    ensures
        ({
            let (m, last) = model::chain_children(ix, l, nested, rest, prev)->0;
            &&& sound(ix, show, m)
            &&& same_headers(ix, l, m)
            &&& m.nodes == l.nodes
            &&& m.clusters == l.clusters
        }),
    decreases rest.len(),
{
    if rest.len() == 0 {
        lemma_advances_same(ix, show, l);
    } else {
        lemma_exits(ix, show, l, prev);
        lemma_link_into(ix, show, l, l.exits[prev], l.entry[rest[0]]);
        let n = l.link(model::edges_into(l.exits[prev], l.entry[rest[0]]));
        let next = model::leaves_by(ix, l, nested, rest[0]);
        lemma_chain_children(ix, show, n, nested, rest.drop_first(), next);
        let (m, last) = model::chain_children(ix, n, nested, rest.drop_first(), next)->0;
        lemma_same_headers_chain(ix, l, n, m);
    }
}

pub(crate) proof fn lemma_set_entry(ix: IndexView, show: bool, l: Layout, hid: Hid, id: NodeId)
    requires
        sound(ix, show, l),
        ix.header(hid) is Some,
        !keeps_its_node(ix, hid),
        is_header_node(l, id),
    ensures
        sound(ix, show, l.set_entry(hid, id)),
        extends(ix, l, l.set_entry(hid, id)),
{
    let m = l.set_entry(hid, id);
    lemma_advances_same(ix, show, l);
    assert forall|h: Hid, i: int|
        m.exits.contains_key(h) && 0 <= i < m.exits[h].len() implies is_header_node(
        m,
        #[trigger] m.exits[h][i],
    ) by {
        assert(is_header_node(l, l.exits[h][i]));
    }
    assert forall|g: Hid| #[trigger] m.entry.contains_key(g) implies ix.header(g) is Some
        && is_header_node(m, m.entry[g]) by {
        if g != hid {
            assert(l.entry.contains_key(g));
        }
    }
    assert forall|g: Hid| #[trigger]
        m.entry.contains_key(g) && keeps_its_node(ix, g) implies header_of_kind(
        m.nodes[m.entry[g]@ as int].kind,
    ) == Some(g) by {
        assert(l.entry.contains_key(g));
    }
}

pub(crate) proof fn lemma_close_container(ix: IndexView, show: bool, l: Layout, hid: Hid)
    requires
        sound(ix, show, l),
        ix.header(hid) is Some,
        !keeps_its_node(ix, hid),
        model::close_container(ix, l, hid) is Some,
    ensures
        ({
            let p = model::close_container(ix, l, hid)->0;
            &&& sound(ix, show, p.layout)
            &&& extends(ix, l, p.layout)
            &&& p.layout.visited == l.visited
            &&& forall|h: Hid| #[trigger]
                p.layout.entry.contains_key(h) && h != hid ==> l.entry.contains_key(h)
            &&& p.layout.entry == l.entry.insert(hid, p.entry)
            &&& p.layout.exits.contains_key(hid)
            &&& p.exits.len() > 0
            &&& are_header_nodes(p.layout, p.exits)
            &&& p.layout.nodes == l.nodes
            &&& p.layout.clusters == l.clusters
        }),
{
    let nested = ix.nested_children(hid);
    let all = model::children(ix, hid);
    let from = model::leaves_by(ix, l, nested, all[0]);
    lemma_chain_children(ix, show, l, nested, all.drop_first(), from);
    let (m, last) = model::chain_children(ix, l, nested, all.drop_first(), from)->0;
    lemma_exits(ix, show, m, last);
    let exits = m.exits[last];
    assert(is_header_node(m, l.entry[all[0]]));
    lemma_set_entry(ix, show, m, hid, l.entry[all[0]]);
    let n = m.set_entry(hid, l.entry[all[0]]);
    assert(are_header_nodes(n, exits)) by {
        lemma_nodes_kept(ix, m, n, exits);
    }
    lemma_set_exits(ix, show, n, hid, exits);
    let o = n.set_exits(hid, exits);
    lemma_extends_chain(ix, l, m, n);
    lemma_extends_chain(ix, l, n, o);
    lemma_nodes_kept(ix, n, o, exits);
}

/// Whether headers that are entered in `l` are entered at the same nodes in `m`.
pub open spec fn keeps_entries(l: Layout, m: Layout) -> bool {
    forall|h: Hid| #[trigger]
        l.entry.contains_key(h) ==> m.entry.contains_key(h) && m.entry[h] == l.entry[h]
}

/// Whether a header is laid out in a cluster, or is an item of a top-level scope.
pub open spec fn homed(ix: IndexView, parent: Option<ClusterId>, hid: Hid) -> bool {
    parent is Some || is_top_item(ix, hid)
}

/// A step of a layout that keeps to a cluster and moves no header.
pub open spec fn moves(
    ix: IndexView,
    show: bool,
    l: Layout,
    m: Layout,
    parent: Option<ClusterId>,
) -> bool {
    &&& advances(ix, show, l, m)
    &&& keeps_entries(l, m)
    &&& enclosed(l, m, parent)
}

proof fn lemma_moves_chain(
    ix: IndexView,
    show: bool,
    a: Layout,
    b: Layout,
    c: Layout,
    parent: Option<ClusterId>,
)
    requires
        moves(ix, show, a, b, parent),
        moves(ix, show, b, c, parent),
    ensures
        moves(ix, show, a, c, parent),
{
    lemma_advances_chain(ix, show, a, b, c);
    lemma_enclosed_chain(ix, a, b, c, parent);
    assert forall|h: Hid| #[trigger] a.entry.contains_key(h) implies c.entry.contains_key(h)
        && c.entry[h] == a.entry[h] by {
        assert(b.entry.contains_key(h));
    }
}

proof fn lemma_moves_same(ix: IndexView, show: bool, l: Layout, parent: Option<ClusterId>)
    requires
        sound(ix, show, l),
    ensures
        moves(ix, show, l, l, parent),
{
    lemma_advances_same(ix, show, l);
}

/// A step of a layout after which a header is laid out in a cluster.
pub open spec fn arrives(
    ix: IndexView,
    show: bool,
    l: Layout,
    p: Placed,
    hid: Hid,
    parent: Option<ClusterId>,
) -> bool {
    &&& moves(ix, show, l, p.layout, parent)
    &&& p.layout.entry.contains_key(hid)
    &&& p.entry == p.layout.entry[hid]
    &&& p.exits.len() > 0
    &&& are_header_nodes(p.layout, p.exits)
}

/// Whether nested children and the scopes that they open are all begun.
pub open spec fn all_opened(ix: IndexView, l: Layout, nested: Seq<Hid>) -> bool {
    &&& l.all_entered(nested)
    &&& forall|i: int| 0 <= i < nested.len() ==> l.visited.contains(ix.scope_of(#[trigger] nested[i]))
}

pub(crate) proof fn lemma_opened_kept(ix: IndexView, l: Layout, m: Layout, nested: Seq<Hid>)
    requires
        extends(ix, l, m),
        all_opened(ix, l, nested),
    ensures
        all_opened(ix, m, nested),
{
    lemma_entered_kept(ix, l, m, nested);
    assert forall|i: int| 0 <= i < nested.len() implies m.visited.contains(
        ix.scope_of(#[trigger] nested[i]),
    ) by {
        assert(l.visited.contains(ix.scope_of(nested[i])));
    }
}

pub(crate) proof fn lemma_place_leaf(
    ix: IndexView,
    show: bool,
    l: Layout,
    hid: Hid,
    parent: Option<ClusterId>,
)
    requires
        sound(ix, show, l),
        is_cluster(l, parent),
        !l.entry.contains_key(hid),
        ix.header(hid) is Some,
        model::shape(ix, hid, parent) == Shape::Leaf,
        model::place_leaf(ix, show, l, hid, parent) is Some,
    ensures
        arrives(ix, show, l, model::place_leaf(ix, show, l, hid, parent)->0, hid, parent),
{
    let node = l.next_node();
    lemma_place_node(ix, show, l, hid, false, parent);
    let l1 = l.place_node(ix.header(hid)->0, hid, false, parent)->0;
    assert(are_header_nodes(l1, seq![node]));
    lemma_set_exits(ix, show, l1, hid, seq![node]);
    let l2 = l1.set_exits(hid, seq![node]);
    lemma_cluster_kept(ix, l1, l2, parent);
    lemma_show_calls(ix, show, l2, hid, parent);
    let m = model::show_calls(ix, show, l2, hid, node, parent)->0;
    lemma_same_headers_chain(ix, l1, l2, m);
    lemma_nodes_kept(ix, l1, m, seq![node]);
    assert(complete(ix, show, m, hid));
    lemma_advances_same(ix, show, l1);
    lemma_header_step(ix, show, l, l1, l1, m, hid);
    assert(enclosed(l1, l2, parent));
    lemma_enclosed_chain(ix, l1, l2, m, parent);
    lemma_enclosed_chain(ix, l, l1, m, parent);
}

pub(crate) proof fn lemma_place_branch(
    ix: IndexView,
    show: bool,
    l: Layout,
    hid: Hid,
    parent: Option<ClusterId>,
    fuel: nat,
)
    requires
        sound(ix, show, l),
        is_cluster(l, parent),
        ix.edges_known(),
        !l.entry.contains_key(hid),
        ix.header(hid) is Some,
        model::shape(ix, hid, parent) == Shape::Branch,
        model::place_branch(ix, show, l, hid, parent, fuel) is Some,
    ensures
        arrives(ix, show, l, model::place_branch(ix, show, l, hid, parent, fuel)->0, hid, parent),
    decreases fuel, 1nat, 0nat,
{
    let h = ix.header(hid)->0;
    let md = ix.md_children(hid);
    let nested = ix.nested_children(hid);
    let cluster = l.next_cluster();
    let decision = l.next_node();
    let below = (fuel - 1) as nat;
    lemma_add_cluster(ix, show, l, h.title, parent);
    let l1 = l.add_cluster(h.title, parent)->0;
    lemma_place_node(ix, show, l1, hid, true, Some(cluster));
    let l2 = l1.place_node(h, hid, true, Some(cluster))->0;
    lemma_extends_chain(ix, l, l1, l2);
    lemma_cluster_kept(ix, l1, l2, Some(cluster));
    lemma_show_calls(ix, show, l2, hid, Some(cluster));
    let l3 = model::show_calls(ix, show, l2, hid, decision, Some(cluster))->0;
    lemma_cluster_kept(ix, l2, l3, Some(cluster));
    lemma_same_headers_advances(ix, show, l2, l3);
    lemma_place_branches(ix, show, l3, nested, Some(cluster), below);
    let l4 = model::place_branches(ix, show, l3, nested, Some(cluster), below)->0;
    lemma_cluster_kept(ix, l3, l4, Some(cluster));
    lemma_place_headers(ix, show, l4, md, Some(cluster), below);
    let l5 = model::place_headers(ix, show, l4, md, Some(cluster), below)->0;
    lemma_cluster_kept(ix, l4, l5, Some(cluster));
    lemma_advances_chain(ix, show, l3, l4, l5);
    lemma_advances_chain(ix, show, l2, l3, l5);
    lemma_moves_chain(ix, show, l3, l4, l5, Some(cluster));
    assert(l2.entry.contains_key(hid));
    assert(l3.entry.contains_key(hid));
    assert(l5.entry[hid] == decision);
    lemma_close_branch(ix, show, l5, hid, cluster);
    let p = model::close_branch(ix, show, l5, hid, decision, cluster)->0;
    let m = p.layout;
    lemma_opened_kept(ix, l4, l5, nested);
    lemma_opened_kept(ix, l5, m, nested);
    lemma_extends_chain(ix, l3, l4, l5);
    lemma_extends_chain(ix, l3, l5, m);
    if show {
        lemma_calls_linked_kept(ix, l3, m, hid);
    }
    assert(complete(ix, show, m, hid));
    lemma_header_step(ix, show, l, l2, l5, m, hid);
    lemma_enclosed_chain(ix, l1, l2, l3, Some(cluster));
    lemma_enclosed_chain(ix, l3, l4, l5, Some(cluster));
    lemma_extends_chain(ix, l1, l2, l3);
    lemma_enclosed_chain(ix, l1, l3, l5, Some(cluster));
    lemma_extends_chain(ix, l1, l3, l5);
    lemma_enclosed_chain(ix, l1, l5, m, Some(cluster));
    lemma_extends_chain(ix, l1, l5, m);
    assert(m.clusters[cluster@ as int] == l1.clusters[cluster@ as int]);
    lemma_enclosed_wider(l1, m, cluster);
    lemma_enclosed_chain(ix, l, l1, m, parent);
    assert(keeps_entries(l, m)) by {
        assert forall|h: Hid| #[trigger] l.entry.contains_key(h) implies m.entry.contains_key(h)
            && m.entry[h] == l.entry[h] by {
            assert(l3.entry.contains_key(h));
        }
    }
}

pub(crate) proof fn lemma_place_flat(
    ix: IndexView,
    show: bool,
    l: Layout,
    hid: Hid,
    parent: Option<ClusterId>,
    fuel: nat,
)
    requires
        sound(ix, show, l),
        is_cluster(l, parent),
        ix.edges_known(),
        !l.entry.contains_key(hid),
        ix.header(hid) is Some,
        model::shape(ix, hid, parent) == Shape::Flat,
        model::place_flat(ix, show, l, hid, parent, fuel) is Some,
    ensures
        arrives(ix, show, l, model::place_flat(ix, show, l, hid, parent, fuel)->0, hid, parent),
    decreases fuel, 1nat, 0nat,
{
    let md = ix.md_children(hid);
    let nested = ix.nested_children(hid);
    let node = l.next_node();
    let below = (fuel - 1) as nat;
    lemma_place_node(ix, show, l, hid, false, parent);
    let l1 = l.place_node(ix.header(hid)->0, hid, false, parent)->0;
    lemma_cluster_kept(ix, l, l1, parent);
    assert(l1.entry.contains_key(hid));
    assert(md.len() + nested.len() == 1);
    let l2 = if md.len() == 1 {
        lemma_place_headers(ix, show, l1, md, parent, below);
        model::place_headers(ix, show, l1, md, parent, below)->0
    } else {
        lemma_place_branches(ix, show, l1, nested, parent, below);
        model::place_branches(ix, show, l1, nested, parent, below)->0
    };
    let child = if md.len() == 1 {
        md[0]
    } else {
        nested[0]
    };
    assert(all_opened(ix, l2, nested));
    assert(l2.all_entered(md));
    assert(l2.entry[hid] == node);
    lemma_close_flat(ix, show, l2, hid, child);
    let p = model::close_flat(ix, l2, hid, node, child)->0;
    let m = p.layout;
    lemma_opened_kept(ix, l2, m, nested);
    lemma_entered_kept(ix, l2, m, md);
    assert(complete(ix, show, m, hid));
    lemma_header_step(ix, show, l, l1, l2, m, hid);
    lemma_enclosed_chain(ix, l, l1, l2, parent);
    assert(enclosed(l, m, parent));
    assert(keeps_entries(l, m)) by {
        assert forall|h: Hid| #[trigger] l.entry.contains_key(h) implies m.entry.contains_key(h)
            && m.entry[h] == l.entry[h] by {
            assert(l1.entry.contains_key(h));
        }
    }
}

pub(crate) proof fn lemma_place_container(
    ix: IndexView,
    show: bool,
    l: Layout,
    hid: Hid,
    parent: Option<ClusterId>,
    fuel: nat,
)
    requires
        sound(ix, show, l),
        is_cluster(l, parent),
        ix.edges_known(),
        !l.entry.contains_key(hid),
        homed(ix, parent, hid),
        ix.header(hid) is Some,
        model::shape(ix, hid, parent) == Shape::Container,
        model::place_container(ix, show, l, hid, parent, fuel) is Some,
    ensures
        arrives(ix, show, l, model::place_container(ix, show, l, hid, parent, fuel)->0, hid, parent),
    decreases fuel, 1nat, 0nat,
{
    let md = ix.md_children(hid);
    let nested = ix.nested_children(hid);
    let all = model::children(ix, hid);
    let scopes = model::scopes_of(ix, nested);
    let cluster = l.next_cluster();
    let title = ix.header(hid)->0.title;
    let below = (fuel - 1) as nat;
    lemma_add_cluster(ix, show, l, title, parent);
    let l1 = l.add_cluster(title, parent)->0;
    lemma_place_scopes(ix, show, l1, scopes, Some(cluster), below);
    let l2 = model::place_scopes(ix, show, l1, scopes, Some(cluster), below)->0;
    lemma_cluster_kept(ix, l1, l2, Some(cluster));
    lemma_place_headers(ix, show, l2, all, Some(cluster), below);
    let l3 = model::place_headers(ix, show, l2, all, Some(cluster), below)->0;
    lemma_moves_chain(ix, show, l1, l2, l3, Some(cluster));
    lemma_close_container(ix, show, l3, hid);
    let p = model::close_container(ix, l3, hid)->0;
    let m = p.layout;
    merge::lemma_merged_keeps(merge::spans_of(ix), md, nested);
    assert forall|i: int| 0 <= i < md.len() implies l3.entry.contains_key(#[trigger] md[i]) by {
        assert(all.contains(md[i]));
    }
    assert forall|i: int| 0 <= i < nested.len() implies l3.entry.contains_key(
        #[trigger] nested[i],
    ) by {
        assert(all.contains(nested[i]));
    }
    assert forall|i: int| 0 <= i < nested.len() implies l3.visited.contains(
        ix.scope_of(#[trigger] nested[i]),
    ) by {
        assert(scopes[i] == ix.scope_of(nested[i]));
        assert(l2.visited.contains(scopes[i]));
    }
    lemma_opened_kept(ix, l3, m, nested);
    lemma_entered_kept(ix, l3, m, md);
    assert(complete(ix, show, m, hid));
    lemma_header_step(ix, show, l, l1, l3, m, hid);
    assert(enclosed(l1, m, Some(cluster)));
    lemma_extends_chain(ix, l1, l3, m);
    assert(m.clusters[cluster@ as int] == l1.clusters[cluster@ as int]);
    lemma_enclosed_wider(l1, m, cluster);
    lemma_enclosed_chain(ix, l, l1, m, parent);
    assert(keeps_entries(l, m)) by {
        assert forall|h: Hid| #[trigger] l.entry.contains_key(h) implies m.entry.contains_key(h)
            && m.entry[h] == l.entry[h] by {
            assert(l1.entry.contains_key(h));
        }
    }
}

/// Laying out a header is a step of the layout.
pub(crate) proof fn lemma_place_header(
    ix: IndexView,
    show: bool,
    l: Layout,
    hid: Hid,
    parent: Option<ClusterId>,
    fuel: nat,
)
    requires
        sound(ix, show, l),
        is_cluster(l, parent),
        ix.edges_known(),
        homed(ix, parent, hid),
        model::place_header(ix, show, l, hid, parent, fuel) is Some,
    ensures
        arrives(ix, show, l, model::place_header(ix, show, l, hid, parent, fuel)->0, hid, parent),
    decreases fuel, 2nat, 0nat,
{
    if l.entry.contains_key(hid) {
        lemma_moves_same(ix, show, l, parent);
        if l.exits.contains_key(hid) {
            lemma_exits(ix, show, l, hid);
        }
    } else {
        match model::shape(ix, hid, parent) {
            Shape::Leaf => lemma_place_leaf(ix, show, l, hid, parent),
            Shape::Branch => lemma_place_branch(ix, show, l, hid, parent, fuel),
            Shape::Flat => lemma_place_flat(ix, show, l, hid, parent, fuel),
            Shape::Container => lemma_place_container(ix, show, l, hid, parent, fuel),
        }
    }
}

pub(crate) proof fn lemma_place_headers(
    ix: IndexView,
    show: bool,
    l: Layout,
    hids: Seq<Hid>,
    parent: Option<ClusterId>,
    fuel: nat,
)
    requires
        sound(ix, show, l),
        is_cluster(l, parent),
        ix.edges_known(),
        parent is Some,
        model::place_headers(ix, show, l, hids, parent, fuel) is Some,
    ensures
        moves(ix, show, l, model::place_headers(ix, show, l, hids, parent, fuel)->0, parent),
        model::place_headers(ix, show, l, hids, parent, fuel)->0.all_entered(hids),
    decreases fuel, 3nat, hids.len(),
{
    if hids.len() == 0 {
        lemma_moves_same(ix, show, l, parent);
    } else {
        lemma_place_header(ix, show, l, hids[0], parent, fuel);
        let n = model::place_header(ix, show, l, hids[0], parent, fuel)->0.layout;
        let rest = hids.drop_first();
        lemma_cluster_kept(ix, l, n, parent);
        lemma_place_headers(ix, show, n, rest, parent, fuel);
        let m = model::place_headers(ix, show, n, rest, parent, fuel)->0;
        lemma_moves_chain(ix, show, l, n, m, parent);
        assert forall|i: int| 0 <= i < hids.len() implies m.entry.contains_key(
            #[trigger] hids[i],
        ) by {
            if i > 0 {
                assert(m.entry.contains_key(rest[i - 1]));
            }
        }
    }
}

pub(crate) proof fn lemma_link_item(
    ix: IndexView,
    show: bool,
    l: Layout,
    p: Placed,
    hid: Hid,
    prev: Seq<NodeId>,
    parent: Option<ClusterId>,
)
    requires
        arrives(ix, show, l, p, hid, parent),
        is_cluster(l, parent),
        are_header_nodes(l, prev),
    ensures
        ({
            let n = p.layout.link(model::edges_into(prev, p.entry));
            &&& moves(ix, show, l, n, parent)
            &&& is_cluster(n, parent)
            &&& are_header_nodes(n, p.exits)
            &&& n.entry.contains_key(hid)
        }),
{
    let n = p.layout.link(model::edges_into(prev, p.entry));
    lemma_nodes_kept(ix, l, p.layout, prev);
    lemma_link_into(ix, show, p.layout, prev, p.entry);
    lemma_same_headers_advances(ix, show, p.layout, n);
    assert(moves(ix, show, p.layout, n, parent));
    lemma_moves_chain(ix, show, l, p.layout, n, parent);
    lemma_cluster_kept(ix, l, n, parent);
    lemma_nodes_kept(ix, p.layout, n, p.exits);
}

/// An item that is linked to what comes before it is led to.
proof fn lemma_item_led_to(
    ix: IndexView,
    l: Layout,
    p: Placed,
    n: Layout,
    m: Layout,
    hid: Hid,
    prev: Seq<NodeId>,
)
    requires
        are_header_nodes(l, prev),
        prev.len() > 0,
        n == p.layout.link(model::edges_into(prev, p.entry)),
        n.entry.contains_key(hid),
        p.entry == p.layout.entry[hid],
        extends(ix, l, m),
        extends(ix, n, m),
        keeps_entries(n, m),
    ensures
        is_led_to(m, hid),
{
    let from = prev[0];
    let e = Edge { from, to: p.entry };
    assert(n.edges[p.layout.edges.len() as int] == e);
    lemma_edge_kept(ix, n, m, e);
    assert(is_header_node(l, from));
    assert(m.nodes[from@ as int] == l.nodes[from@ as int]);
    assert(leads_from_header(m, from, m.entry[hid]));
}

#[verifier::rlimit(40)]
pub(crate) proof fn lemma_place_items(
    ix: IndexView,
    show: bool,
    l: Layout,
    items: Seq<Hid>,
    prev: Seq<NodeId>,
    parent: Option<ClusterId>,
    fuel: nat,
)
    requires
        sound(ix, show, l),
        is_cluster(l, parent),
        ix.edges_known(),
        are_header_nodes(l, prev),
        forall|i: int| 0 <= i < items.len() ==> homed(ix, parent, #[trigger] items[i]),
        model::place_items(ix, show, l, items, prev, parent, fuel) is Some,
    ensures
        moves(ix, show, l, model::place_items(ix, show, l, items, prev, parent, fuel)->0, parent),
        model::place_items(ix, show, l, items, prev, parent, fuel)->0.all_entered(items),
        all_led_to(ix, model::place_items(ix, show, l, items, prev, parent, fuel)->0, items),
        prev.len() > 0 && items.len() > 0 && keeps_its_node(ix, items[0]) ==> is_led_to(
            model::place_items(ix, show, l, items, prev, parent, fuel)->0,
            items[0],
        ),
    decreases fuel, 3nat, items.len(),
{
    if items.len() == 0 {
        lemma_moves_same(ix, show, l, parent);
    } else {
        assert(homed(ix, parent, items[0]));
        lemma_place_header(ix, show, l, items[0], parent, fuel);
        let p = model::place_header(ix, show, l, items[0], parent, fuel)->0;
        let rest = items.drop_first();
        lemma_link_item(ix, show, l, p, items[0], prev, parent);
        let n = p.layout.link(model::edges_into(prev, p.entry));
        assert forall|i: int| 0 <= i < rest.len() implies homed(ix, parent, #[trigger] rest[i]) by {
            assert(rest[i] == items[i + 1]);
        }
        lemma_place_items(ix, show, n, rest, p.exits, parent, fuel);
        let m = model::place_items(ix, show, n, rest, p.exits, parent, fuel)->0;
        lemma_moves_chain(ix, show, l, n, m, parent);
        assert forall|i: int| 0 <= i < items.len() implies m.entry.contains_key(
            #[trigger] items[i],
        ) by {
            if i > 0 {
                assert(m.entry.contains_key(rest[i - 1]));
            } else {
                assert(n.entry.contains_key(items[0]));
            }
        }
        if prev.len() > 0 {
            lemma_item_led_to(ix, l, p, n, m, items[0], prev);
        }
        assert forall|i: int| 0 < i < items.len() && keeps_its_node(
            ix,
            #[trigger] items[i],
        ) implies is_led_to(m, items[i]) by {
            assert(rest[i - 1] == items[i]);
        }
    }
}

pub(crate) proof fn lemma_visit(ix: IndexView, show: bool, l: Layout, scope: ScopeId)
    requires
        sound(ix, show, l),
    ensures
        sound(ix, show, l.visit(scope)),
        extends(ix, l, l.visit(scope)),
{
    let v = l.visit(scope);
    lemma_advances_same(ix, show, l);
    assert forall|h: Hid, i: int|
        v.exits.contains_key(h) && 0 <= i < v.exits[h].len() implies is_node(
        v,
        #[trigger] v.exits[h][i],
    ) by {
        assert(is_node(l, l.exits[h][i]));
    }
}

pub(crate) proof fn lemma_place_scope(
    ix: IndexView,
    show: bool,
    l: Layout,
    scope: ScopeId,
    parent: Option<ClusterId>,
    fuel: nat,
)
    requires
        sound(ix, show, l),
        is_cluster(l, parent),
        ix.edges_known(),
        parent is Some || tops::top_scopes(ix).contains(scope),
        model::place_scope(ix, show, l, scope, parent, fuel) is Some,
    ensures
        moves(ix, show, l, model::place_scope(ix, show, l, scope, parent, fuel)->0, parent),
        model::place_scope(ix, show, l, scope, parent, fuel)->0.visited.contains(scope),
    decreases fuel, 4nat, 0nat,
{
    if l.visited.contains(scope) {
        lemma_moves_same(ix, show, l, parent);
    } else {
        let v = l.visit(scope);
        let items = ix.scope_items(scope);
        lemma_visit(ix, show, l, scope);
        lemma_cluster_kept(ix, l, v, parent);
        assert forall|i: int| 0 <= i < items.len() implies homed(ix, parent, #[trigger] items[i]) by {
            assert(items.contains(items[i]));
        }
        lemma_place_items(ix, show, v, items, seq![], parent, fuel);
        let m = model::place_items(ix, show, v, items, seq![], parent, fuel)->0;
        lemma_extends_chain(ix, l, v, m);
        assert forall|s: ScopeId| #[trigger]
            m.visited.contains(s) && !l.visited.contains(s) implies m.all_entered(
            ix.scope_items(s),
        ) && all_led_to(ix, m, ix.scope_items(s)) by {
            if s != scope {
                assert(!v.visited.contains(s));
            }
        }
        assert(v.visited.contains(scope));
        assert(enclosed(l, m, parent));
        assert(keeps_entries(l, m)) by {
            assert forall|h: Hid| #[trigger] l.entry.contains_key(h) implies m.entry.contains_key(h)
                && m.entry[h] == l.entry[h] by {
                assert(v.entry.contains_key(h));
            }
        }
    }
}

pub(crate) proof fn lemma_place_scopes(
    ix: IndexView,
    show: bool,
    l: Layout,
    scopes: Seq<ScopeId>,
    parent: Option<ClusterId>,
    fuel: nat,
)
    requires
        sound(ix, show, l),
        is_cluster(l, parent),
        ix.edges_known(),
        parent is Some || forall|i: int|
            0 <= i < scopes.len() ==> tops::top_scopes(ix).contains(#[trigger] scopes[i]),
        model::place_scopes(ix, show, l, scopes, parent, fuel) is Some,
    ensures
        moves(ix, show, l, model::place_scopes(ix, show, l, scopes, parent, fuel)->0, parent),
        forall|i: int|
            0 <= i < scopes.len() ==> model::place_scopes(
                ix,
                show,
                l,
                scopes,
                parent,
                fuel,
            )->0.visited.contains(#[trigger] scopes[i]),
    decreases fuel, 5nat, scopes.len(),
{
    if scopes.len() == 0 {
        lemma_moves_same(ix, show, l, parent);
    } else {
        assert(parent is Some || tops::top_scopes(ix).contains(scopes[0]));
        lemma_place_scope(ix, show, l, scopes[0], parent, fuel);
        let n = model::place_scope(ix, show, l, scopes[0], parent, fuel)->0;
        let rest = scopes.drop_first();
        lemma_cluster_kept(ix, l, n, parent);
        if parent is None {
            assert(tops::top_scopes(ix).contains(scopes[0]));
            assert forall|i: int| 0 <= i < rest.len() implies tops::top_scopes(ix).contains(
                #[trigger] rest[i],
            ) by {
                assert(rest[i] == scopes[i + 1]);
            }
        }
        lemma_place_scopes(ix, show, n, rest, parent, fuel);
        let m = model::place_scopes(ix, show, n, rest, parent, fuel)->0;
        lemma_moves_chain(ix, show, l, n, m, parent);
        assert forall|i: int| 0 <= i < scopes.len() implies m.visited.contains(
            #[trigger] scopes[i],
        ) by {
            if i > 0 {
                assert(m.visited.contains(rest[i - 1]));
            } else {
                assert(n.visited.contains(scopes[0]));
            }
        }
    }
}

#[verifier::rlimit(40)]
pub(crate) proof fn lemma_place_branches(
    ix: IndexView,
    show: bool,
    l: Layout,
    nested: Seq<Hid>,
    parent: Option<ClusterId>,
    fuel: nat,
)
    requires
        sound(ix, show, l),
        is_cluster(l, parent),
        ix.edges_known(),
        parent is Some,
        model::place_branches(ix, show, l, nested, parent, fuel) is Some,
    ensures
        moves(ix, show, l, model::place_branches(ix, show, l, nested, parent, fuel)->0, parent),
        all_opened(ix, model::place_branches(ix, show, l, nested, parent, fuel)->0, nested),
    decreases fuel, 5nat, nested.len(),
{
    if nested.len() == 0 {
        lemma_moves_same(ix, show, l, parent);
    } else {
        let scope = ix.scope_of(nested[0]);
        lemma_place_scope(ix, show, l, scope, parent, fuel);
        let n = model::place_scope(ix, show, l, scope, parent, fuel)->0;
        lemma_cluster_kept(ix, l, n, parent);
        lemma_place_header(ix, show, n, nested[0], parent, fuel);
        let o = model::place_header(ix, show, n, nested[0], parent, fuel)->0.layout;
        lemma_moves_chain(ix, show, l, n, o, parent);
        lemma_cluster_kept(ix, l, o, parent);
        let rest = nested.drop_first();
        lemma_place_branches(ix, show, o, rest, parent, fuel);
        let m = model::place_branches(ix, show, o, rest, parent, fuel)->0;
        lemma_moves_chain(ix, show, l, o, m, parent);
        assert(o.visited.contains(scope));
        assert forall|i: int| 0 <= i < nested.len() implies m.entry.contains_key(
            #[trigger] nested[i],
        ) && m.visited.contains(ix.scope_of(nested[i])) by {
            if i > 0 {
                assert(m.entry.contains_key(rest[i - 1]));
            } else {
                assert(m.visited.contains(scope));
            }
        }
    }
}

/// What holds of the layout of a whole index.
pub(crate) proof fn lemma_layout(ix: IndexView, show: bool, fuel: nat)
    requires
        ix.edges_known(),
        model::layout(ix, show, fuel) is Some,
    ensures
        advances(ix, show, Layout::empty(), model::layout(ix, show, fuel)->0),
        forall|i: int|
            0 <= i < tops::top_scopes(ix).len() ==> model::layout(
                ix,
                show,
                fuel,
            )->0.visited.contains(#[trigger] tops::top_scopes(ix)[i]),
{
    lemma_place_scopes(ix, show, Layout::empty(), tops::top_scopes(ix), None, fuel);
}

} // verus!
