//! What the graph of a header index is: the traversal that lays it out, as a
//! function from state to state.
//!
//! A step yields `None` where the traversal cannot go on: an identifier would
//! not fit, a header that it needs is not laid out yet, or the headers are
//! nested in each other without end.
use vstd::prelude::*;
use crate::graph::{ClusterView, Edge, GraphView, KindView, NodeView};
use crate::ids::{ClusterId, NodeId};
use crate::index::{HeaderLabelKind, HeaderView, Hid, IndexView, ScopeId};
use crate::merge;
use crate::span::SpanView;
use crate::tops;

verus! {

/// The largest number of direct children (of the same scope and nested) with
/// which a header that is no branch is laid out in line instead of as a cluster.
/// With one, headers with no more than one child are, except that a header whose
/// only child is nested gets a cluster if that child's scope has more headers.
/// Top-level scopes are never flattened if they have any children, whatever this
/// value: a header with children that stands in no cluster gets a cluster of its
/// own.
pub const MAX_CHILDREN_TO_FLATTEN: usize = 1;

/// How far the layout of a graph has come.
#[verifier::ext_equal]
pub struct Layout {
    pub nodes: Seq<NodeView>,
    pub edges: Seq<Edge>,
    pub clusters: Seq<ClusterView>,
    /// The node at which each header that is laid out is entered.
    pub entry: Map<Hid, NodeId>,
    /// The nodes from which each header that is laid out is left.
    pub exits: Map<Hid, Seq<NodeId>>,
    /// The spans of nodes, in order.
    pub spans: Seq<(NodeId, SpanView)>,
    /// The node of each call that has one, by header and callee.
    pub calls: Map<(Hid, Seq<char>), NodeId>,
    /// The scopes whose layout has begun.
    pub visited: Set<ScopeId>,
}

/// The layout after a header, and where that header is entered and left.
pub struct Placed {
    pub layout: Layout,
    pub entry: NodeId,
    pub exits: Seq<NodeId>,
}

/// Edges from each of `froms` to `to`.
pub open spec fn edges_into(froms: Seq<NodeId>, to: NodeId) -> Seq<Edge> {
    froms.map_values(|from: NodeId| Edge { from, to })
}

/// Edges from `from` to each of `tos`.
pub open spec fn edges_out_of(from: NodeId, tos: Seq<NodeId>) -> Seq<Edge> {
    tos.map_values(|to: NodeId| Edge { from, to })
}

/// Edges from each of `ids` to the next one.
pub open spec fn edges_along(ids: Seq<NodeId>) -> Seq<Edge> {
    Seq::new(
        if ids.len() == 0 {
            0
        } else {
            (ids.len() - 1) as nat
        },
        |i: int| Edge { from: ids[i], to: ids[i + 1] },
    )
}

impl Layout {
    /// Nothing is laid out.
    pub open spec fn empty() -> Layout {
        Layout {
            nodes: seq![],
            edges: seq![],
            clusters: seq![],
            entry: Map::empty(),
            exits: Map::empty(),
            spans: seq![],
            calls: Map::empty(),
            visited: Set::empty(),
        }
    }

    /// The graph so far.
    pub open spec fn graph(self) -> GraphView {
        GraphView { nodes: self.nodes, edges: self.edges, clusters: self.clusters }
    }

    /// The identifier of the next node.
    pub open spec fn next_node(self) -> NodeId {
        NodeId::nth(self.nodes.len())
    }

    /// The identifier of the next cluster.
    pub open spec fn next_cluster(self) -> ClusterId {
        ClusterId::nth(self.clusters.len())
    }

    /// Adds a node with the next identifier.
    pub open spec fn add_node(
        self,
        label: Seq<char>,
        kind: KindView,
        cluster: Option<ClusterId>,
    ) -> Option<Layout> {
        if self.nodes.len() < u32::MAX {
            Some(
                Layout {
                    nodes: self.nodes.push(
                        NodeView { id: self.next_node(), label, kind, cluster },
                    ),
                    ..self
                },
            )
        } else {
            None
        }
    }

    /// Adds a cluster with the next identifier.
    pub open spec fn add_cluster(
        self,
        label: Seq<char>,
        parent: Option<ClusterId>,
    ) -> Option<Layout> {
        if self.clusters.len() < u32::MAX {
            Some(
                Layout {
                    clusters: self.clusters.push(
                        ClusterView { id: self.next_cluster(), label, parent },
                    ),
                    ..self
                },
            )
        } else {
            None
        }
    }

    /// Adds edges.
    pub open spec fn link(self, edges: Seq<Edge>) -> Layout {
        Layout { edges: self.edges + edges, ..self }
    }

    /// Adds the node of a header, its span, and the node as the header's entry.
    pub open spec fn place_node(
        self,
        h: HeaderView,
        hid: Hid,
        decision: bool,
        cluster: Option<ClusterId>,
    ) -> Option<Layout> {
        let kind = if decision {
            KindView::Decision(hid, Some(h.span))
        } else {
            KindView::Header(hid, Some(h.span))
        };
        match self.add_node(h.title, kind, cluster) {
            None => None,
            Some(l) => Some(
                Layout {
                    entry: self.entry.insert(hid, self.next_node()),
                    spans: self.spans.push((self.next_node(), h.span)),
                    ..l
                },
            ),
        }
    }

    /// Sets where a header is left.
    pub open spec fn set_exits(self, hid: Hid, exits: Seq<NodeId>) -> Layout {
        Layout { exits: self.exits.insert(hid, exits), ..self }
    }

    /// Sets where a header is entered.
    pub open spec fn set_entry(self, hid: Hid, entry: NodeId) -> Layout {
        Layout { entry: self.entry.insert(hid, entry), ..self }
    }

    /// Begins the layout of a scope.
    pub open spec fn visit(self, scope: ScopeId) -> Layout {
        Layout { visited: self.visited.insert(scope), ..self }
    }

    /// Whether all the headers have entries.
    pub open spec fn all_entered(self, hids: Seq<Hid>) -> bool {
        forall|i: int| 0 <= i < hids.len() ==> self.entry.contains_key(#[trigger] hids[i])
    }

    /// Whether all the headers have exits.
    pub open spec fn all_left(self, hids: Seq<Hid>) -> bool {
        forall|i: int| 0 <= i < hids.len() ==> self.exits.contains_key(#[trigger] hids[i])
    }

    /// The entries of headers.
    pub open spec fn entries(self, hids: Seq<Hid>) -> Seq<NodeId> {
        hids.map_values(|hid: Hid| self.entry[hid])
    }

    /// The exits of headers, one after the other.
    pub open spec fn exits_of(self, hids: Seq<Hid>) -> Seq<NodeId> {
        hids.map_values(|hid: Hid| self.exits[hid]).flatten()
    }
}

/// Links one call to the node of its header. The first time that a header calls
/// a function the call gets a node; later on that node is linked again.
pub open spec fn place_call(
    l: Layout,
    hid: Hid,
    callee: Seq<char>,
    rep: NodeId,
    cluster: Option<ClusterId>,
) -> Option<Layout> {
    if l.calls.contains_key((hid, callee)) {
        Some(l.link(seq![Edge { from: l.calls[(hid, callee)], to: rep }]))
    } else {
        match l.add_node(callee, KindView::Call { header: hid, callee }, cluster) {
            None => None,
            Some(m) => Some(
                Layout {
                    calls: l.calls.insert((hid, callee), l.next_node()),
                    ..m.link(seq![Edge { from: l.next_node(), to: rep }])
                },
            ),
        }
    }
}

/// Links calls to the node of their header, in turn.
pub open spec fn place_calls(
    l: Layout,
    hid: Hid,
    callees: Seq<Seq<char>>,
    rep: NodeId,
    cluster: Option<ClusterId>,
) -> Option<Layout>
    decreases callees.len(),
{
    if callees.len() == 0 {
        Some(l)
    } else {
        match place_call(l, hid, callees[0], rep, cluster) {
            None => None,
            Some(m) => place_calls(m, hid, callees.drop_first(), rep, cluster),
        }
    }
}

/// Links the calls of a header to its node, if calls are shown.
pub open spec fn show_calls(
    ix: IndexView,
    show: bool,
    l: Layout,
    hid: Hid,
    rep: NodeId,
    cluster: Option<ClusterId>,
) -> Option<Layout> {
    if show {
        place_calls(l, hid, ix.calls(hid), rep, cluster)
    } else {
        Some(l)
    }
}

/// Links the calls of several headers to their entries.
pub open spec fn show_calls_of_all(
    ix: IndexView,
    l: Layout,
    hids: Seq<Hid>,
    cluster: Option<ClusterId>,
) -> Option<Layout>
    decreases hids.len(),
{
    if hids.len() == 0 {
        Some(l)
    } else {
        match place_calls(l, hids[0], ix.calls(hids[0]), l.entry[hids[0]], cluster) {
            None => None,
            Some(m) => show_calls_of_all(ix, m, hids.drop_first(), cluster),
        }
    }
}

/// How a header is laid out.
pub enum Shape {
    /// A node.
    Leaf,
    /// A decision node in a cluster of its own, with its branches.
    Branch,
    /// A node followed by its only child, within a cluster.
    Flat,
    /// A cluster of its children, without a node of its own.
    Container,
}

/// Whether what stands below a header is little enough for the header to be laid
/// out in line: no more children than the limit, and no single nested child with
/// more headers in its scope.
pub open spec fn fits_in_line(ix: IndexView, hid: Hid) -> bool {
    let md = ix.md_children(hid);
    let nested = ix.nested_children(hid);
    &&& md.len() + nested.len() <= MAX_CHILDREN_TO_FLATTEN
    &&& !(nested.len() == 1 && ix.headers_in_scope(ix.scope_of(nested[0])).len() > 1)
}

/// How a header is laid out in the cluster `parent`: by its kind, by what stands
/// below it, and by whether there is a cluster around it.
pub open spec fn shape(ix: IndexView, hid: Hid, parent: Option<ClusterId>) -> Shape {
    if ix.md_children(hid).len() == 0 && ix.nested_children(hid).len() == 0 {
        Shape::Leaf
    } else if ix.header(hid)->0.label_kind == HeaderLabelKind::If {
        Shape::Branch
    } else if parent is Some && fits_in_line(ix, hid) {
        Shape::Flat
    } else {
        Shape::Container
    }
}

/// The children of a header in order of position.
pub open spec fn children(ix: IndexView, hid: Hid) -> Seq<Hid> {
    merge::merged(merge::spans_of(ix), ix.md_children(hid), ix.nested_children(hid))
}

/// The scopes that headers stand in.
pub open spec fn scopes_of(ix: IndexView, hids: Seq<Hid>) -> Seq<ScopeId> {
    hids.map_values(|hid: Hid| ix.scope_of(hid))
}

/// The header whose exits lead on from `child` within a container. For a child
/// that opens a scope, that is the last item of the scope once it is laid out.
pub open spec fn leaves_by(ix: IndexView, l: Layout, nested: Seq<Hid>, child: Hid) -> Hid {
    let items = ix.scope_items(ix.scope_of(child));
    if nested.contains(child) && items.len() > 0 && l.exits.contains_key(items.last()) {
        items.last()
    } else {
        child
    }
}

/// Links the remaining children of a container, each to where the one before
/// it is left. The result tells by which header the last one is left.
pub open spec fn chain_children(
    ix: IndexView,
    l: Layout,
    nested: Seq<Hid>,
    rest: Seq<Hid>,
    prev: Hid,
) -> Option<(Layout, Hid)>
    decreases rest.len(),
{
    if rest.len() == 0 {
        Some((l, prev))
    } else if !l.entry.contains_key(rest[0]) || !l.exits.contains_key(prev) {
        None
    } else {
        chain_children(
            ix,
            l.link(edges_into(l.exits[prev], l.entry[rest[0]])),
            nested,
            rest.drop_first(),
            leaves_by(ix, l, nested, rest[0]),
        )
    }
}

/// Completes a branch whose children are laid out: the decision leads to every
/// nested child; the exits of those lead to the first child of the same scope,
/// and from there on these follow each other.
pub open spec fn close_branch(
    ix: IndexView,
    show: bool,
    l: Layout,
    hid: Hid,
    decision: NodeId,
    cluster: ClusterId,
) -> Option<Placed> {
    let md = ix.md_children(hid);
    let nested = ix.nested_children(hid);
    if !l.all_entered(nested) {
        None
    } else {
        let linked = l.link(edges_out_of(decision, l.entries(nested)));
        let called = if show {
            show_calls_of_all(ix, linked, nested, Some(cluster))
        } else {
            Some(linked)
        };
        match called {
            None => None,
            Some(m) => if !m.all_left(nested) || !m.all_entered(md) {
                None
            } else {
                let branch_exits = m.exits_of(nested);
                let steps = m.entries(md);
                let into_first = if steps.len() == 0 {
                    seq![]
                } else if branch_exits.len() == 0 {
                    seq![Edge { from: decision, to: steps[0] }]
                } else {
                    edges_into(branch_exits, steps[0])
                };
                let exits = if steps.len() == 0 {
                    branch_exits
                } else {
                    seq![steps.last()]
                };
                Some(
                    Placed {
                        layout: m.link(into_first).link(edges_along(steps)).set_exits(hid, exits),
                        entry: decision,
                        exits,
                    },
                )
            },
        }
    }
}

/// Completes a header that is laid out in line with its only child.
pub open spec fn close_flat(
    ix: IndexView,
    l: Layout,
    hid: Hid,
    node: NodeId,
    child: Hid,
) -> Option<Placed> {
    if !l.entry.contains_key(child) || !l.exits.contains_key(child) {
        None
    } else {
        Some(
            Placed {
                layout: l.link(seq![Edge { from: node, to: l.entry[child] }]).set_exits(
                    hid,
                    l.exits[child],
                ),
                entry: node,
                exits: l.exits[child],
            },
        )
    }
}

/// Completes a container whose children are laid out: it is entered by its
/// first child and left by its last one.
pub open spec fn close_container(ix: IndexView, l: Layout, hid: Hid) -> Option<Placed> {
    let nested = ix.nested_children(hid);
    let all = children(ix, hid);
    if !l.entry.contains_key(all[0]) {
        None
    } else {
        match chain_children(ix, l, nested, all.drop_first(), leaves_by(ix, l, nested, all[0])) {
            None => None,
            Some((m, last)) => if !m.exits.contains_key(last) {
                None
            } else {
                Some(
                    Placed {
                        layout: m.set_entry(hid, l.entry[all[0]]).set_exits(hid, m.exits[last]),
                        entry: l.entry[all[0]],
                        exits: m.exits[last],
                    },
                )
            },
        }
    }
}

/// Lays out a header in the cluster `parent`, unless it is laid out already.
/// `fuel` bounds how deep headers may be nested.
pub open spec fn place_header(
    ix: IndexView,
    show: bool,
    l: Layout,
    hid: Hid,
    parent: Option<ClusterId>,
    fuel: nat,
) -> Option<Placed>
    decreases fuel, 2nat, 0nat,
{
    if l.entry.contains_key(hid) {
        let entry = l.entry[hid];
        let exits = if l.exits.contains_key(hid) {
            l.exits[hid]
        } else {
            seq![entry]
        };
        Some(Placed { layout: l, entry, exits })
    } else if fuel == 0 || ix.header(hid) is None {
        None
    } else {
        match shape(ix, hid, parent) {
            Shape::Leaf => place_leaf(ix, show, l, hid, parent),
            Shape::Branch => place_branch(ix, show, l, hid, parent, fuel),
            Shape::Flat => place_flat(ix, show, l, hid, parent, fuel),
            Shape::Container => place_container(ix, show, l, hid, parent, fuel),
        }
    }
}

/// Lays out a header without children.
pub open spec fn place_leaf(
    ix: IndexView,
    show: bool,
    l: Layout,
    hid: Hid,
    parent: Option<ClusterId>,
) -> Option<Placed> {
    let node = l.next_node();
    match l.place_node(ix.header(hid)->0, hid, false, parent) {
        None => None,
        Some(m) => match show_calls(
            ix,
            show,
            m.set_exits(hid, seq![node]),
            hid,
            node,
            parent,
        ) {
            None => None,
            Some(layout) => Some(Placed { layout, entry: node, exits: seq![node] }),
        },
    }
}

/// Lays out a branch.
pub open spec fn place_branch(
    ix: IndexView,
    show: bool,
    l: Layout,
    hid: Hid,
    parent: Option<ClusterId>,
    fuel: nat,
) -> Option<Placed>
    decreases fuel, 1nat, 0nat,
{
    let h = ix.header(hid)->0;
    let cluster = l.next_cluster();
    let decision = l.next_node();
    if fuel == 0 {
        None
    } else {
        match l.add_cluster(h.title, parent) {
            None => None,
            Some(l1) => match l1.place_node(h, hid, true, Some(cluster)) {
                None => None,
                Some(l2) => match show_calls(ix, show, l2, hid, decision, Some(cluster)) {
                    None => None,
                    Some(l3) => match place_branches(
                        ix,
                        show,
                        l3,
                        ix.nested_children(hid),
                        Some(cluster),
                        (fuel - 1) as nat,
                    ) {
                        None => None,
                        Some(l4) => match place_headers(
                            ix,
                            show,
                            l4,
                            ix.md_children(hid),
                            Some(cluster),
                            (fuel - 1) as nat,
                        ) {
                            None => None,
                            Some(l5) => close_branch(ix, show, l5, hid, decision, cluster),
                        },
                    },
                },
            },
        }
    }
}

/// Lays out a header in line with its only child.
pub open spec fn place_flat(
    ix: IndexView,
    show: bool,
    l: Layout,
    hid: Hid,
    parent: Option<ClusterId>,
    fuel: nat,
) -> Option<Placed>
    decreases fuel, 1nat, 0nat,
{
    let md = ix.md_children(hid);
    let nested = ix.nested_children(hid);
    let node = l.next_node();
    if fuel == 0 {
        None
    } else {
        match l.place_node(ix.header(hid)->0, hid, false, parent) {
            None => None,
            Some(l1) => if md.len() == 1 {
                match place_headers(ix, show, l1, md, parent, (fuel - 1) as nat) {
                    None => None,
                    Some(l2) => close_flat(ix, l2, hid, node, md[0]),
                }
            } else {
                match place_branches(ix, show, l1, nested, parent, (fuel - 1) as nat) {
                    None => None,
                    Some(l2) => close_flat(ix, l2, hid, node, nested[0]),
                }
            },
        }
    }
}

/// Lays out a container.
pub open spec fn place_container(
    ix: IndexView,
    show: bool,
    l: Layout,
    hid: Hid,
    parent: Option<ClusterId>,
    fuel: nat,
) -> Option<Placed>
    decreases fuel, 1nat, 0nat,
{
    let cluster = l.next_cluster();
    if fuel == 0 {
        None
    } else {
        match l.add_cluster(ix.header(hid)->0.title, parent) {
            None => None,
            Some(l1) => match place_scopes(
                ix,
                show,
                l1,
                scopes_of(ix, ix.nested_children(hid)),
                Some(cluster),
                (fuel - 1) as nat,
            ) {
                None => None,
                Some(l2) => match place_headers(
                    ix,
                    show,
                    l2,
                    children(ix, hid),
                    Some(cluster),
                    (fuel - 1) as nat,
                ) {
                    None => None,
                    Some(l3) => close_container(ix, l3, hid),
                },
            },
        }
    }
}

/// Lays out headers in turn.
pub open spec fn place_headers(
    ix: IndexView,
    show: bool,
    l: Layout,
    hids: Seq<Hid>,
    parent: Option<ClusterId>,
    fuel: nat,
) -> Option<Layout>
    decreases fuel, 3nat, hids.len(),
{
    if hids.len() == 0 {
        Some(l)
    } else {
        match place_header(ix, show, l, hids[0], parent, fuel) {
            None => None,
            Some(p) => place_headers(ix, show, p.layout, hids.drop_first(), parent, fuel),
        }
    }
}

/// Lays out the items of a scope in turn, each linked to where the one before
/// it is left.
pub open spec fn place_items(
    ix: IndexView,
    show: bool,
    l: Layout,
    items: Seq<Hid>,
    prev: Seq<NodeId>,
    parent: Option<ClusterId>,
    fuel: nat,
) -> Option<Layout>
    decreases fuel, 3nat, items.len(),
{
    if items.len() == 0 {
        Some(l)
    } else {
        match place_header(ix, show, l, items[0], parent, fuel) {
            None => None,
            Some(p) => place_items(
                ix,
                show,
                p.layout.link(edges_into(prev, p.entry)),
                items.drop_first(),
                p.exits,
                parent,
                fuel,
            ),
        }
    }
}

/// Lays out a scope, unless its layout has begun already.
pub open spec fn place_scope(
    ix: IndexView,
    show: bool,
    l: Layout,
    scope: ScopeId,
    parent: Option<ClusterId>,
    fuel: nat,
) -> Option<Layout>
    decreases fuel, 4nat, 0nat,
{
    if l.visited.contains(scope) {
        Some(l)
    } else {
        place_items(ix, show, l.visit(scope), ix.scope_items(scope), seq![], parent, fuel)
    }
}

/// Lays out scopes in turn.
pub open spec fn place_scopes(
    ix: IndexView,
    show: bool,
    l: Layout,
    scopes: Seq<ScopeId>,
    parent: Option<ClusterId>,
    fuel: nat,
) -> Option<Layout>
    decreases fuel, 5nat, scopes.len(),
{
    if scopes.len() == 0 {
        Some(l)
    } else {
        match place_scope(ix, show, l, scopes[0], parent, fuel) {
            None => None,
            Some(m) => place_scopes(ix, show, m, scopes.drop_first(), parent, fuel),
        }
    }
}

/// Lays out nested children in turn: of each its scope, then the child itself.
pub open spec fn place_branches(
    ix: IndexView,
    show: bool,
    l: Layout,
    nested: Seq<Hid>,
    parent: Option<ClusterId>,
    fuel: nat,
) -> Option<Layout>
    decreases fuel, 5nat, nested.len(),
{
    if nested.len() == 0 {
        Some(l)
    } else {
        match place_scope(ix, show, l, ix.scope_of(nested[0]), parent, fuel) {
            None => None,
            Some(m) => match place_header(ix, show, m, nested[0], parent, fuel) {
                None => None,
                Some(p) => place_branches(ix, show, p.layout, nested.drop_first(), parent, fuel),
            },
        }
    }
}

/// The layout of a whole index: of its top-level scopes, in order.
pub open spec fn layout(ix: IndexView, show: bool, fuel: nat) -> Option<Layout> {
    place_scopes(ix, show, Layout::empty(), tops::top_scopes(ix), None, fuel)
}

/// Whether the index can be laid out.
pub open spec fn has_layout(ix: IndexView, show: bool) -> bool {
    exists|fuel: nat| layout(ix, show, fuel) is Some
}

/// The layout of an index that can be laid out.
pub open spec fn layout_of(ix: IndexView, show: bool) -> Layout {
    layout(ix, show, choose|fuel: nat| layout(ix, show, fuel) is Some)->0
}

} // verus!
