//! The graph model: nodes, edges, clusters and the spans of nodes.
use vstd::prelude::*;
use crate::ids::{ClusterId, NodeId};
use crate::index::Hid;
use crate::span::{Span, SpanView};

verus! {

/// Whether diagrams show call nodes unless told otherwise.
pub const SHOW_CALL_NODES: bool = true;

/// The direction in which a diagram is laid out.
#[derive(Debug, Clone, Copy)]
pub enum Direction {
    TD,
    LR,
}

/// What a node stands for.
#[derive(Debug, Clone)]
pub enum NodeKind<'index> {
    /// A header, and where it stands.
    Header(Hid, Option<&'index Span>),
    /// A header that introduces a branch, and where it stands.
    Decision(Hid, Option<&'index Span>),
    /// A call to `callee` under a header.
    Call { header: Hid, callee: &'index str },
}

pub enum KindView {
    Header(Hid, Option<SpanView>),
    Decision(Hid, Option<SpanView>),
    Call { header: Hid, callee: Seq<char> },
}

pub open spec fn span_view(span: Option<&Span>) -> Option<SpanView> {
    match span {
        Some(s) => Some(s@),
        None => None,
    }
}

impl<'index> NodeKind<'index> {
    pub open spec fn view(&self) -> KindView {
        match *self {
            NodeKind::Header(hid, span) => KindView::Header(hid, span_view(span)),
            NodeKind::Decision(hid, span) => KindView::Decision(hid, span_view(span)),
            NodeKind::Call { header, callee } => KindView::Call { header, callee: callee@ },
        }
    }
}

/// A node of the graph.
#[derive(Debug, Clone)]
pub struct Node<'index> {
    pub id: NodeId,
    pub label: &'index str,
    pub kind: NodeKind<'index>,
    /// The cluster that the node is drawn in.
    pub cluster: Option<ClusterId>,
}

pub struct NodeView {
    pub id: NodeId,
    pub label: Seq<char>,
    pub kind: KindView,
    pub cluster: Option<ClusterId>,
}

impl<'index> Node<'index> {
    pub open spec fn view(&self) -> NodeView {
        NodeView { id: self.id, label: self.label@, kind: self.kind@, cluster: self.cluster }
    }
}

/// A directed edge between two nodes.
#[derive(Debug, Clone)]
pub struct Edge {
    pub from: NodeId,
    pub to: NodeId,
}

/// A group of nodes that is drawn as a subgraph.
#[derive(Debug, Clone)]
pub struct Cluster<'index> {
    pub id: ClusterId,
    pub label: &'index str,
    /// The cluster that this one is drawn in.
    pub parent: Option<ClusterId>,
}

pub struct ClusterView {
    pub id: ClusterId,
    pub label: Seq<char>,
    pub parent: Option<ClusterId>,
}

impl<'index> Cluster<'index> {
    pub open spec fn view(&self) -> ClusterView {
        ClusterView { id: self.id, label: self.label@, parent: self.parent }
    }
}

/// A graph with clustered nodes.
#[derive(Debug)]
pub struct Graph<'index> {
    pub nodes: Vec<Node<'index>>,
    pub edges: Vec<Edge>,
    pub clusters: Vec<Cluster<'index>>,
}

pub struct GraphView {
    pub nodes: Seq<NodeView>,
    pub edges: Seq<Edge>,
    pub clusters: Seq<ClusterView>,
}

/// The views of a list of nodes.
pub open spec fn node_views(nodes: Seq<Node<'_>>) -> Seq<NodeView> {
    nodes.map_values(|n: Node<'_>| n@)
}

/// The views of a list of clusters.
pub open spec fn cluster_views(clusters: Seq<Cluster<'_>>) -> Seq<ClusterView> {
    clusters.map_values(|c: Cluster<'_>| c@)
}

impl<'index> Graph<'index> {
    pub open spec fn view(&self) -> GraphView {
        GraphView {
            nodes: node_views(self.nodes@),
            edges: self.edges@,
            clusters: cluster_views(self.clusters@),
        }
    }
}

impl<'index> Default for Graph<'index> {
    /// The empty graph.
    fn default() -> (g: Self)
        ensures
            g@ == (GraphView { nodes: seq![], edges: seq![], clusters: seq![] }),
    {
        let g = Graph { nodes: Vec::new(), edges: Vec::new(), clusters: Vec::new() };
        assert(g@.nodes =~= seq![]);
        assert(g@.clusters =~= seq![]);
        g
    }
}

/// How a graph is built.
#[derive(Debug, Clone, Copy)]
pub struct BuilderConfig {
    /// Whether calls are shown as nodes of their own.
    pub show_call_nodes: bool,
}

impl Default for BuilderConfig {
    fn default() -> (cfg: Self)
        ensures
            cfg.show_call_nodes == SHOW_CALL_NODES,
    {
        BuilderConfig { show_call_nodes: SHOW_CALL_NODES }
    }
}

/// The source spans of nodes: a map that is walked in the order in which its
/// keys were inserted.
#[derive(Debug)]
pub struct SpanMap<'index> {
    entries: Vec<(NodeId, &'index Span)>,
}

impl<'index> SpanMap<'index> {
    /// The entries in insertion order.
    pub closed spec fn view(&self) -> Seq<(NodeId, SpanView)> {
        self.entries@.map_values(|e: (NodeId, &'index Span)| (e.0, e.1@))
    }

    /// No key occurs twice.
    pub open spec fn wf(&self) -> bool {
        forall|i: int, j: int|
            0 <= i < j < self@.len() ==> (#[trigger] self@[i]).0 != (#[trigger] self@[j]).0
    }

    /// The empty map.
    pub fn new() -> (m: Self)
        ensures
            m.wf(),
            m@ == Seq::<(NodeId, SpanView)>::empty(),
    {
        let m = SpanMap { entries: Vec::new() };
        assert(m@ =~= Seq::<(NodeId, SpanView)>::empty());
        m
    }

    /// Adds an entry for a node that has none.
    pub(crate) fn insert_new(&mut self, id: NodeId, span: &'index Span)
        requires
            old(self).wf(),
            forall|i: int| 0 <= i < old(self)@.len() ==> (#[trigger] old(self)@[i]).0 != id,
        ensures
            final(self).wf(),
            final(self)@ == old(self)@.push((id, span@)),
    {
        self.entries.push((id, span));
        assert(self@ =~= old(self)@.push((id, span@)));
    }

    /// The number of entries.
    pub fn len(&self) -> (n: usize)
        ensures
            n == self@.len(),
    {
        self.entries.len()
    }

    /// The span of a node, if the map has one.
    pub fn get(&self, id: NodeId) -> (found: Option<&'index Span>)
        ensures
            match found {
                Some(span) => self@.contains((id, span@)),
                None => forall|i: int| 0 <= i < self@.len() ==> (#[trigger] self@[i]).0 != id,
            },
    {
        let mut i: usize = 0;
        while i < self.entries.len()
            invariant
                i <= self.entries.len(),
                forall|j: int| 0 <= j < i ==> (#[trigger] self@[j]).0 != id,
            decreases self.entries.len() - i,
        {
            let (key, span) = self.entries[i];
            assert(self@[i as int] == (key, span@));
            if key == id {
                return Some(span);
            }
            i = i + 1;
        }
        None
    }

    /// The entry at a place of the insertion order.
    pub fn entry_at(&self, i: usize) -> (e: (NodeId, &'index Span))
        requires
            i < self@.len(),
        ensures
            (e.0, e.1@) == self@[i as int],
    {
        self.entries[i]
    }
}

} // verus!
