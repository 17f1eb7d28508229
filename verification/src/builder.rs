//! Building the graph of a header index.
use std::collections::{HashMap, HashSet};
use vstd::prelude::*;
use crate::calls::CallCache;
use crate::depth;
use crate::depth::find_depth_limit;
use crate::graph;
use crate::graph::{BuilderConfig, Cluster, Edge, Graph, KindView, Node, NodeKind, SpanMap};
use crate::ids::{ClusterId, NodeId};
use crate::index;
use crate::index::{HeaderIndex, HeaderLabelKind, Hid, IndexView, RenderableHeader, ScopeId};
use crate::invariants;
use crate::memory;
use crate::merge;
use crate::merge::merge_by_pos;
use crate::model;
use crate::model::{Layout, MAX_CHILDREN_TO_FLATTEN, Placed};
use crate::prelude::{knows_edges, Prelude};
use crate::tops::sorted_top_scopes;

verus! {

broadcast use vstd::std_specs::hash::group_hash_axioms;

/// Builds the graph of an index, header by header.
pub struct GraphBuilder<'index, 'pre> {
    index: &'index HeaderIndex,
    cfg: BuilderConfig,
    pre: &'pre Prelude<'index>,
    graph: Graph<'index>,
    next_node: u32,
    next_cluster: u32,
    header_entry: HashMap<Hid, NodeId>,
    header_exits: HashMap<Hid, Vec<NodeId>>,
    span_map: SpanMap<'index>,
    call_node_cache: CallCache,
    visited_scopes: HashSet<ScopeId>,
}

/// Which identifier is drawn.
pub enum Draw {
    Node,
    Cluster,
}

/// How many of `draws` are `draw`.
pub open spec fn count(draws: Seq<Draw>, draw: Draw) -> nat
    decreases draws.len(),
{
    if draws.len() == 0 {
        0
    } else {
        count(draws.drop_last(), draw) + if draws.last() == draw {
            1nat
        } else {
            0nat
        }
    }
}

/// The contents of lists of nodes.
spec fn id_lists(m: Map<Hid, Vec<NodeId>>) -> Map<Hid, Seq<NodeId>> {
    m.map_values(|v: Vec<NodeId>| v@)
}

impl<'index, 'pre> GraphBuilder<'index, 'pre> {
    /// The index that is laid out.
    pub closed spec fn source(&self) -> IndexView {
        self.index@
    }

    /// Whether calls are shown.
    pub closed spec fn shows_calls(&self) -> bool {
        self.cfg.show_call_nodes
    }

    /// How far the layout has come.
    pub closed spec fn layout(&self) -> Layout {
        Layout {
            nodes: graph::node_views(self.graph.nodes@),
            edges: self.graph.edges@,
            clusters: graph::cluster_views(self.graph.clusters@),
            entry: self.header_entry@,
            exits: id_lists(self.header_exits@),
            spans: self.span_map@,
            calls: self.call_node_cache@,
            visited: self.visited_scopes@,
        }
    }

    /// The tables are those of the index, the counters say how many nodes and
    /// clusters there are, only nodes have spans, and every call node is the one
    /// of its header and callee, with the callee as its label.
    pub closed spec fn wf(&self) -> bool {
        &&& self.counts()
        &&& invariants::calls_have_one_node(self.layout())
        &&& invariants::calls_are_labelled(self.layout())
    }

    /// The part of the invariant that does not speak of calls.
    spec fn counts(&self) -> bool {
        &&& self.pre.models(self.index@)
        &&& self.next_node == self.graph.nodes@.len()
        &&& self.next_cluster == self.graph.clusters@.len()
        &&& self.span_map.wf()
        &&& forall|i: int|
            0 <= i < self.span_map@.len() ==> (#[trigger] self.span_map@[i]).0@ < self.next_node
    }

    /// Whether two builders lay out the same index, with calls shown alike.
    pub open spec fn same_source(&self, other: &Self) -> bool {
        &&& self.source() == other.source()
        &&& self.shows_calls() == other.shows_calls()
    }

    /// Whether a step from `start` came to `goal`, or stopped where there is none.
    pub open spec fn reaches(&self, start: &Self, goal: Option<Layout>, done: Option<()>) -> bool {
        match goal {
            Some(l) => done is Some && self.wf() && self.same_source(start) && self.layout() == l,
            None => done is None,
        }
    }

    /// Whether a step from `start` laid out a header as `goal` says, or stopped
    /// where that says nothing.
    pub open spec fn places(
        &self,
        start: &Self,
        goal: Option<Placed>,
        ends: Option<(NodeId, Vec<NodeId>)>,
    ) -> bool {
        match goal {
            Some(p) => {
                &&& ends is Some
                &&& self.wf()
                &&& self.same_source(start)
                &&& self.layout() == p.layout
                &&& (ends->0).0 == p.entry
                &&& (ends->0).1@ == p.exits
            },
            None => ends is None,
        }
    }

    /// The identifier that the next node gets.
    pub closed spec fn next_node_id(&self) -> NodeId {
        NodeId::nth(self.next_node as nat)
    }

    /// The identifier that the next cluster gets.
    pub closed spec fn next_cluster_id(&self) -> ClusterId {
        ClusterId::nth(self.next_cluster as nat)
    }

    /// How many identifiers of nodes were drawn.
    pub closed spec fn node_ids(&self) -> nat {
        self.next_node as nat
    }

    /// How many identifiers of clusters were drawn.
    pub closed spec fn cluster_ids(&self) -> nat {
        self.next_cluster as nat
    }

    /// The builder after an identifier was drawn.
    pub closed spec fn drawn(self, draw: Draw) -> Self {
        match draw {
            Draw::Node => GraphBuilder { next_node: (self.next_node + 1) as u32, ..self },
            Draw::Cluster => GraphBuilder { next_cluster: (self.next_cluster + 1) as u32, ..self },
        }
    }

    /// The builder after identifiers were drawn in turn.
    pub open spec fn drawing(self, draws: Seq<Draw>) -> Self
        decreases draws.len(),
    {
        if draws.len() == 0 {
            self
        } else {
            self.drawing(draws.drop_last()).drawn(draws.last())
        }
    }

    /// A builder that has laid out nothing yet.
    pub fn new(
        index: &'index HeaderIndex,
        pre: &'pre Prelude<'index>,
        cfg: BuilderConfig,
    ) -> (builder: Self)
        requires
            pre.models(index@),
        ensures
            builder.wf(),
            builder.source() == index@,
            builder.shows_calls() == cfg.show_call_nodes,
            builder.layout() == Layout::empty(),
            builder.node_ids() == 0,
            builder.cluster_ids() == 0,
    {
        let builder = GraphBuilder {
            index,
            cfg,
            pre,
            graph: Graph::default(),
            next_node: 0,
            next_cluster: 0,
            header_entry: HashMap::new(),
            header_exits: HashMap::new(),
            span_map: SpanMap::new(),
            call_node_cache: CallCache::new(),
            visited_scopes: HashSet::new(),
        };
        proof {
            assert(builder.graph@.nodes.len() == 0);
            assert(builder.graph@.clusters.len() == 0);
            assert(builder.layout() =~= Layout::empty());
        }
        builder
    }

    /// Draws the identifier of a node that is still to be added.
    pub fn new_node_id(&mut self) -> (id: NodeId)
        requires
            old(self).node_ids() < u32::MAX,
        ensures
            id == old(self).next_node_id(),
            id@ == old(self).node_ids(),
            *final(self) == old(self).drawn(Draw::Node),
    {
        let id = NodeId::new(self.next_node);
        self.next_node = self.next_node + 1;
        id
    }

    /// Draws the identifier of a cluster that is still to be added.
    pub fn new_cluster_id(&mut self) -> (id: ClusterId)
        requires
            old(self).cluster_ids() < u32::MAX,
        ensures
            id == old(self).next_cluster_id(),
            id@ == old(self).cluster_ids(),
            *final(self) == old(self).drawn(Draw::Cluster),
    {
        let id = ClusterId::new(self.next_cluster);
        self.next_cluster = self.next_cluster + 1;
        id
    }

    /// Adds a node, unless the identifiers are used up. A call node is still to
    /// be entered into the cache.
    fn push_node(
        &mut self,
        label: &'index str,
        kind: NodeKind<'index>,
        cluster: Option<ClusterId>,
    ) -> (id: Option<NodeId>)
        requires
            old(self).wf(),
        ensures
            id is Some <==> old(self).layout().add_node(label@, kind@, cluster) is Some,
            id matches Some(node) ==> {
                &&& final(self).counts()
                &&& final(self).same_source(old(self))
                &&& final(self).span_map == old(self).span_map
                &&& node == old(self).layout().next_node()
                &&& node@ == old(self).next_node
                &&& final(self).next_node == old(self).next_node + 1
                &&& Some(final(self).layout()) == old(self).layout().add_node(
                    label@,
                    kind@,
                    cluster,
                )
            },
    {
        let ghost before = self.graph.nodes@;
        if self.next_node == u32::MAX {
            return None;
        }
        let id = self.new_node_id();
        let node = Node { id, label, kind, cluster };
        self.graph.nodes.push(node);
        proof {
            assert(graph::node_views(before.push(node)) =~= graph::node_views(before).push(node@));
            assert(self.layout() =~= old(self).layout().add_node(label@, kind@, cluster)->0);
        }
        Some(id)
    }

    /// Adds a cluster, unless the identifiers are used up.
    fn push_cluster(
        &mut self,
        label: &'index str,
        parent: Option<ClusterId>,
    ) -> (id: Option<ClusterId>)
        requires
            old(self).wf(),
        ensures
            id is Some <==> old(self).layout().add_cluster(label@, parent) is Some,
            id matches Some(cluster) ==> {
                &&& final(self).wf()
                &&& final(self).same_source(old(self))
                &&& cluster == old(self).layout().next_cluster()
                &&& Some(final(self).layout()) == old(self).layout().add_cluster(label@, parent)
            },
    {
        let ghost before = self.graph.clusters@;
        if self.next_cluster == u32::MAX {
            return None;
        }
        let id = self.new_cluster_id();
        let cluster = Cluster { id, label, parent };
        self.graph.clusters.push(cluster);
        proof {
            assert(graph::cluster_views(before.push(cluster)) =~= graph::cluster_views(before).push(
                cluster@,
            ));
            assert(self.layout() =~= old(self).layout().add_cluster(label@, parent)->0);
        }
        Some(id)
    }

    fn push_edge(&mut self, from: NodeId, to: NodeId)
        requires
            old(self).wf(),
        ensures
            final(self).wf(),
            final(self).same_source(old(self)),
            final(self).layout() == old(self).layout().link(seq![Edge { from, to }]),
    {
        let edge = Edge { from, to };
        self.graph.edges.push(edge);
        assert(self.layout() =~= old(self).layout().link(seq![edge]));
    }

    /// Adds edges from each of `froms` to `to`.
    fn link_into(&mut self, froms: &Vec<NodeId>, to: NodeId)
        requires
            old(self).wf(),
        ensures
            final(self).wf(),
            final(self).same_source(old(self)),
            final(self).layout() == old(self).layout().link(model::edges_into(froms@, to)),
    {
        let ghost all = model::edges_into(froms@, to);
        let mut i: usize = 0;
        assert(self.layout() =~= old(self).layout().link(all.take(0)));
        while i < froms.len()
            invariant
                i <= froms.len(),
                all == model::edges_into(froms@, to),
                self.wf(),
                self.same_source(old(self)),
                self.layout() == old(self).layout().link(all.take(i as int)),
            decreases froms.len() - i,
        {
            self.push_edge(froms[i], to);
            proof {
                let e = all[i as int];
                assert(old(self).layout().edges + all.take(i as int) + seq![e] =~= old(
                    self,
                ).layout().edges + all.take(i + 1));
                assert(self.layout() =~= old(self).layout().link(all.take(i + 1)));
            }
            i = i + 1;
        }
        assert(all.take(i as int) =~= all);
    }

    /// Adds edges from `from` to the entry of each of `hids`, if all are entered.
    fn link_to_entries(&mut self, from: NodeId, hids: &Vec<Hid>) -> (done: Option<()>)
        requires
            old(self).wf(),
        ensures
            done is Some <==> old(self).layout().all_entered(hids@),
            done is Some ==> {
                &&& final(self).wf()
                &&& final(self).same_source(old(self))
                &&& final(self).layout() == old(self).layout().link(
                    model::edges_out_of(from, old(self).layout().entries(hids@)),
                )
            },
    {
        let ghost start = self.layout();
        let ghost all = model::edges_out_of(from, start.entries(hids@));
        let mut i: usize = 0;
        assert(self.layout() =~= start.link(all.take(0)));
        while i < hids.len()
            invariant
                i <= hids.len(),
                start == old(self).layout(),
                forall|j: int| 0 <= j < i ==> start.entry.contains_key(#[trigger] hids@[j]),
                all == model::edges_out_of(from, start.entries(hids@)),
                self.wf(),
                self.same_source(old(self)),
                self.layout() == start.link(all.take(i as int)),
            decreases hids.len() - i,
        {
            let to = self.entry_of(hids[i])?;
            self.push_edge(from, to);
            proof {
                let e = all[i as int];
                assert(e == Edge { from, to });
                assert(start.edges + all.take(i as int) + seq![e] =~= start.edges + all.take(
                    i + 1,
                ));
                assert(self.layout() =~= start.link(all.take(i + 1)));
            }
            i = i + 1;
        }
        assert(all.take(i as int) =~= all);
        Some(())
    }

    /// Adds edges from each of `ids` to the next one.
    fn link_along(&mut self, ids: &Vec<NodeId>)
        requires
            old(self).wf(),
        ensures
            final(self).wf(),
            final(self).same_source(old(self)),
            final(self).layout() == old(self).layout().link(model::edges_along(ids@)),
    {
        let ghost start = self.layout();
        let ghost all = model::edges_along(ids@);
        if ids.len() == 0 {
            assert(self.layout() =~= start.link(all));
            return;
        }
        let mut i: usize = 0;
        assert(self.layout() =~= start.link(all.take(0)));
        while i < ids.len() - 1
            invariant
                0 <= i < ids.len(),
                start == old(self).layout(),
                all == model::edges_along(ids@),
                self.wf(),
                self.same_source(old(self)),
                self.layout() == start.link(all.take(i as int)),
            decreases ids.len() - i,
        {
            self.push_edge(ids[i], ids[i + 1]);
            proof {
                let e = all[i as int];
                assert(start.edges + all.take(i as int) + seq![e] =~= start.edges + all.take(
                    i + 1,
                ));
                assert(self.layout() =~= start.link(all.take(i + 1)));
            }
            i = i + 1;
        }
        assert(all.take(i as int) =~= all);
    }

    /// Where a header is entered, if it is.
    fn entry_of(&self, hid: Hid) -> (id: Option<NodeId>)
        ensures
            id == if self.layout().entry.contains_key(hid) {
                Some(self.layout().entry[hid])
            } else {
                None
            },
    {
        match self.header_entry.get(&hid) {
            Some(id) => Some(*id),
            None => None,
        }
    }

    /// Where a header is left, if it is.
    fn exits_of(&self, hid: Hid) -> (ids: Option<Vec<NodeId>>)
        ensures
            match ids {
                Some(v) => self.layout().exits.contains_key(hid) && v@ == self.layout().exits[hid],
                None => !self.layout().exits.contains_key(hid),
            },
    {
        match self.header_exits.get(&hid) {
            Some(ids) => Some(copy_ids(ids)),
            None => None,
        }
    }

    fn set_entry(&mut self, hid: Hid, id: NodeId)
        requires
            old(self).wf(),
        ensures
            final(self).wf(),
            final(self).same_source(old(self)),
            final(self).layout() == old(self).layout().set_entry(hid, id),
    {
        self.header_entry.insert(hid, id);
        assert(self.layout() =~= old(self).layout().set_entry(hid, id));
    }

    fn set_exits(&mut self, hid: Hid, ids: Vec<NodeId>)
        requires
            old(self).wf(),
        ensures
            final(self).wf(),
            final(self).same_source(old(self)),
            final(self).layout() == old(self).layout().set_exits(hid, ids@),
    {
        let ghost before = self.header_exits@;
        self.header_exits.insert(hid, ids);
        proof {
            assert(id_lists(before.insert(hid, ids)) =~= id_lists(before).insert(hid, ids@));
            assert(self.layout() =~= old(self).layout().set_exits(hid, ids@));
        }
    }

    /// Adds the node of a header with its span, and enters the header there.
    fn place_node(
        &mut self,
        header: &'index RenderableHeader,
        hid: Hid,
        decision: bool,
        cluster: Option<ClusterId>,
    ) -> (id: Option<NodeId>)
        requires
            old(self).wf(),
        ensures
            id is Some <==> old(self).layout().place_node(
                header@,
                hid,
                decision,
                cluster,
            ) is Some,
            id matches Some(node) ==> {
                &&& final(self).wf()
                &&& final(self).same_source(old(self))
                &&& node == old(self).layout().next_node()
                &&& Some(final(self).layout()) == old(self).layout().place_node(
                    header@,
                    hid,
                    decision,
                    cluster,
                )
            },
    {
        let kind = if decision {
            NodeKind::Decision(hid, Some(&header.span))
        } else {
            NodeKind::Header(hid, Some(&header.span))
        };
        let id = self.push_node(header.title.as_str(), kind, cluster)?;
        self.span_map.insert_new(id, &header.span);
        self.header_entry.insert(hid, id);
        assert(self.layout() =~= old(self).layout().place_node(
            header@,
            hid,
            decision,
            cluster,
        )->0);
        Some(id)
    }

    /// Links one call to the node of its header. A call that has no node yet gets
    /// one.
    fn render_call(
        &mut self,
        hid: Hid,
        callee: &'index str,
        header_rep_id: NodeId,
        cluster: Option<ClusterId>,
    ) -> (done: Option<()>)
        requires
            old(self).wf(),
        ensures
            final(self).reaches(
                old(self),
                model::place_call(old(self).layout(), hid, callee@, header_rep_id, cluster),
                done,
            ),
    {
        match self.call_node_cache.get(hid, callee) {
            Some(cached_id) => {
                self.push_edge(cached_id, header_rep_id);
            },
            None => {
                let call_node_id = self.push_node(
                    callee,
                    NodeKind::Call { header: hid, callee },
                    cluster,
                )?;
                self.call_node_cache.insert(hid, callee, call_node_id);
                proof {
                    let old_layout = old(self).layout();
                    let added = old_layout.add_node(
                        callee@,
                        KindView::Call { header: hid, callee: callee@ },
                        cluster,
                    )->0;
                    assert(self.layout() =~= (Layout {
                        calls: old_layout.calls.insert((hid, callee@), call_node_id),
                        ..added
                    }));
                }
                self.push_edge(call_node_id, header_rep_id);
                assert(self.layout() =~= model::place_call(
                    old(self).layout(),
                    hid,
                    callee@,
                    header_rep_id,
                    cluster,
                )->0);
            },
        }
        Some(())
    }

    /// Links the calls of a header to its node. Calls that have no node yet get
    /// one.
    pub fn render_calls_for_header(
        &mut self,
        hid: Hid,
        header_rep_id: NodeId,
        cluster: Option<ClusterId>,
    ) -> (done: Option<()>)
        requires
            old(self).wf(),
        ensures
            final(self).reaches(
                old(self),
                model::place_calls(
                    old(self).layout(),
                    hid,
                    old(self).source().calls(hid),
                    header_rep_id,
                    cluster,
                ),
                done,
            ),
    {
        let index: &'index HeaderIndex = self.index;
        let ghost all = self.source().calls(hid);
        let ghost goal = model::place_calls(self.layout(), hid, all, header_rep_id, cluster);
        if let Some(callees) = index.header_calls.get(&hid) {
            assert(all =~= index::texts(callees@));
            let mut i: usize = 0;
            assert(all.skip(0) =~= all);
            while i < callees.len()
                invariant
                    i <= callees.len(),
                    all == index::texts(callees@),
                    all == old(self).source().calls(hid),
                    self.wf(),
                    self.same_source(old(self)),
                    goal == model::place_calls(
                        old(self).layout(),
                        hid,
                        all,
                        header_rep_id,
                        cluster,
                    ),
                    model::place_calls(
                        self.layout(),
                        hid,
                        all.skip(i as int),
                        header_rep_id,
                        cluster,
                    ) == goal,
                decreases callees.len() - i,
            {
                let callee: &'index str = callees[i].as_str();
                assert(all.skip(i as int)[0] == callee@);
                assert(all.skip(i as int).drop_first() =~= all.skip(i + 1));
                self.render_call(hid, callee, header_rep_id, cluster)?;
                i = i + 1;
            }
        } else {
            assert(all =~= seq![]);
        }
        Some(())
    }

    fn header_of(&self, hid: Hid) -> (h: &'index RenderableHeader)
        requires
            self.wf(),
            self.source().header(hid) is Some,
        ensures
            h@ == self.source().header(hid)->0,
    {
        assert(self.pre.by_hid@.contains_key(hid));
        *self.pre.by_hid.get(&hid).unwrap()
    }

    /// Lays out a scope: its items in turn, each leading on to the next. Headers
    /// may be nested as deep as `depth`.
    fn build_scope_sequence(
        &mut self,
        scope: ScopeId,
        parent_cluster: Option<ClusterId>,
        depth: u128,
    ) -> (done: Option<()>)
        requires
            old(self).wf(),
        ensures
            final(self).reaches(
                old(self),
                model::place_scope(
                    old(self).source(),
                    old(self).shows_calls(),
                    old(self).layout(),
                    scope,
                    parent_cluster,
                    depth as nat,
                ),
                done,
            ),
        decreases depth, 4nat,
    {
        let ghost ix = self.source();
        let ghost show = self.shows_calls();
        if !self.visited_scopes.insert(scope) {
            assert(self.layout() =~= old(self).layout());
            return Some(());
        }
        let ghost start = self.layout();
        assert(start =~= old(self).layout().visit(scope));
        let items = self.pre.scope_items(self.index, scope);
        let ghost all = items@;
        proof {
            assert forall|i: int| 0 <= i < all.len() implies ix.header(#[trigger] all[i]) is Some by {
                assert(all.contains(all[i]));
                index::lemma_scope_item(ix, scope, all[i]);
            }
        }
        let mut prev_exits: Vec<NodeId> = Vec::new();
        let mut i: usize = 0;
        assert(all.skip(0) =~= all);
        assert(prev_exits@ =~= seq![]);
        while i < items.len()
            invariant
                i <= items.len(),
                all == items@,
                all == ix.scope_items(scope),
                self.wf(),
                self.same_source(old(self)),
                ix == old(self).source(),
                show == old(self).shows_calls(),
                !old(self).layout().visited.contains(scope),
                start == old(self).layout().visit(scope),
                forall|i: int| 0 <= i < all.len() ==> ix.header(#[trigger] all[i]) is Some,
                model::place_items(
                    ix,
                    show,
                    self.layout(),
                    all.skip(i as int),
                    prev_exits@,
                    parent_cluster,
                    depth as nat,
                ) == model::place_items(
                    ix,
                    show,
                    start,
                    all,
                    seq![],
                    parent_cluster,
                    depth as nat,
                ),
            decreases items.len() - i,
        {
            assert(all.skip(i as int)[0] == items[i as int]);
            assert(all.skip(i as int).drop_first() =~= all.skip(i + 1));
            let (entry, exits) = self.build_header(items[i], parent_cluster, depth)?;
            self.link_into(&prev_exits, entry);
            prev_exits = exits;
            i = i + 1;
        }
        Some(())
    }

    /// Lays out headers in turn.
    fn build_headers(
        &mut self,
        hids: &Vec<Hid>,
        parent_cluster: Option<ClusterId>,
        depth: u128,
    ) -> (done: Option<()>)
        requires
            old(self).wf(),
            forall|i: int|
                0 <= i < hids@.len() ==> old(self).source().header(#[trigger] hids@[i]) is Some,
        ensures
            final(self).reaches(
                old(self),
                model::place_headers(
                    old(self).source(),
                    old(self).shows_calls(),
                    old(self).layout(),
                    hids@,
                    parent_cluster,
                    depth as nat,
                ),
                done,
            ),
        decreases depth, 3nat,
    {
        let ghost ix = self.source();
        let ghost show = self.shows_calls();
        let ghost all = hids@;
        let mut i: usize = 0;
        assert(all.skip(0) =~= all);
        while i < hids.len()
            invariant
                i <= hids.len(),
                all == hids@,
                self.wf(),
                self.same_source(old(self)),
                ix == old(self).source(),
                show == old(self).shows_calls(),
                forall|i: int| 0 <= i < hids@.len() ==> ix.header(#[trigger] hids@[i]) is Some,
                model::place_headers(
                    ix,
                    show,
                    self.layout(),
                    all.skip(i as int),
                    parent_cluster,
                    depth as nat,
                ) == model::place_headers(
                    ix,
                    show,
                    old(self).layout(),
                    all,
                    parent_cluster,
                    depth as nat,
                ),
            decreases hids.len() - i,
        {
            assert(all.skip(i as int)[0] == hids[i as int]);
            assert(all.skip(i as int).drop_first() =~= all.skip(i + 1));
            self.build_header(hids[i], parent_cluster, depth)?;
            i = i + 1;
        }
        Some(())
    }

    /// Lays out the scopes of headers in turn.
    fn build_scopes_of(
        &mut self,
        hids: &Vec<Hid>,
        parent_cluster: Option<ClusterId>,
        depth: u128,
    ) -> (done: Option<()>)
        requires
            old(self).wf(),
            forall|i: int|
                0 <= i < hids@.len() ==> old(self).source().header(#[trigger] hids@[i]) is Some,
        ensures
            final(self).reaches(
                old(self),
                model::place_scopes(
                    old(self).source(),
                    old(self).shows_calls(),
                    old(self).layout(),
                    model::scopes_of(old(self).source(), hids@),
                    parent_cluster,
                    depth as nat,
                ),
                done,
            ),
        decreases depth, 5nat,
    {
        let ghost ix = self.source();
        let ghost show = self.shows_calls();
        let ghost all = model::scopes_of(ix, hids@);
        let mut i: usize = 0;
        assert(all.skip(0) =~= all);
        while i < hids.len()
            invariant
                i <= hids.len(),
                self.wf(),
                self.same_source(old(self)),
                ix == old(self).source(),
                show == old(self).shows_calls(),
                all == model::scopes_of(ix, hids@),
                forall|i: int| 0 <= i < hids@.len() ==> ix.header(#[trigger] hids@[i]) is Some,
                model::place_scopes(
                    ix,
                    show,
                    self.layout(),
                    all.skip(i as int),
                    parent_cluster,
                    depth as nat,
                ) == model::place_scopes(
                    ix,
                    show,
                    old(self).layout(),
                    all,
                    parent_cluster,
                    depth as nat,
                ),
            decreases hids.len() - i,
        {
            assert(all.skip(i as int)[0] == ix.scope_of(hids[i as int]));
            assert(all.skip(i as int).drop_first() =~= all.skip(i + 1));
            let scope = self.header_of(hids[i]).scope;
            self.build_scope_sequence(scope, parent_cluster, depth)?;
            i = i + 1;
        }
        Some(())
    }

    /// Lays out nested children in turn: of each its scope, then the child.
    fn build_branches(
        &mut self,
        nested: &Vec<Hid>,
        parent_cluster: Option<ClusterId>,
        depth: u128,
    ) -> (done: Option<()>)
        requires
            old(self).wf(),
            forall|i: int|
                0 <= i < nested@.len() ==> old(self).source().header(#[trigger] nested@[i]) is Some,
        ensures
            final(self).reaches(
                old(self),
                model::place_branches(
                    old(self).source(),
                    old(self).shows_calls(),
                    old(self).layout(),
                    nested@,
                    parent_cluster,
                    depth as nat,
                ),
                done,
            ),
        decreases depth, 5nat,
    {
        let ghost ix = self.source();
        let ghost show = self.shows_calls();
        let ghost all = nested@;
        let mut i: usize = 0;
        assert(all.skip(0) =~= all);
        while i < nested.len()
            invariant
                i <= nested.len(),
                all == nested@,
                self.wf(),
                self.same_source(old(self)),
                ix == old(self).source(),
                show == old(self).shows_calls(),
                forall|i: int| 0 <= i < nested@.len() ==> ix.header(#[trigger] nested@[i]) is Some,
                model::place_branches(
                    ix,
                    show,
                    self.layout(),
                    all.skip(i as int),
                    parent_cluster,
                    depth as nat,
                ) == model::place_branches(
                    ix,
                    show,
                    old(self).layout(),
                    all,
                    parent_cluster,
                    depth as nat,
                ),
            decreases nested.len() - i,
        {
            assert(all.skip(i as int)[0] == nested[i as int]);
            assert(all.skip(i as int).drop_first() =~= all.skip(i + 1));
            let child_scope = self.header_of(nested[i]).scope;
            self.build_scope_sequence(child_scope, parent_cluster, depth)?;
            self.build_header(nested[i], parent_cluster, depth)?;
            i = i + 1;
        }
        Some(())
    }

    /// Lays out a header, unless it is laid out already, and tells where it is
    /// entered and left. Headers may be nested as deep as `depth`.
    pub fn build_header(
        &mut self,
        hid: Hid,
        parent_cluster: Option<ClusterId>,
        depth: u128,
    ) -> (ends: Option<(NodeId, Vec<NodeId>)>)
        requires
            old(self).wf(),
            old(self).source().header(hid) is Some,
        ensures
            final(self).places(
                old(self),
                model::place_header(
                    old(self).source(),
                    old(self).shows_calls(),
                    old(self).layout(),
                    hid,
                    parent_cluster,
                    depth as nat,
                ),
                ends,
            ),
        decreases depth, 2nat,
    {
        let ghost ix = self.source();
        if let Some(entry) = self.entry_of(hid) {
            if let Some(exits) = self.exits_of(hid) {
                return Some((entry, exits));
            }
            let mut exits: Vec<NodeId> = Vec::new();
            exits.push(entry);
            assert(exits@ =~= seq![entry]);
            return Some((entry, exits));
        }
        if depth == 0 {
            return None;
        }
        let header = self.header_of(hid);
        let pre: &'pre Prelude<'index> = self.pre;
        let none: Vec<Hid> = Vec::new();
        let md_children: &Vec<Hid> = match pre.md_children.get(&hid) {
            Some(v) => v,
            None => &none,
        };
        let nested_children: &Vec<Hid> = match pre.nested_children.get(&hid) {
            Some(v) => v,
            None => &none,
        };
        proof {
            let md = |p: Hid| ix.md_children(p);
            let nested = |p: Hid| ix.nested_children(p);
            assert(pre.md_children@.contains_key(hid) <==> md(hid).len() > 0);
            assert(pre.nested_children@.contains_key(hid) <==> nested(hid).len() > 0);
            assert(md_children@ =~= ix.md_children(hid));
            assert(nested_children@ =~= ix.nested_children(hid));
            depth::lemma_children_known(ix, hid);
        }
        if md_children.len() == 0 && nested_children.len() == 0 {
            return self.build_leaf(header, hid, parent_cluster);
        }
        if header.label_kind == HeaderLabelKind::If {
            return self.build_branch(
                header,
                hid,
                md_children,
                nested_children,
                parent_cluster,
                depth,
            );
        }
        let single_nested_child_has_multiple_items = nested_children.len() == 1 && {
            let child_root = self.header_of(nested_children[0]);
            self.count_in_scope(child_root.scope) > 1
        };
        let should_flatten = parent_cluster.is_some() && md_children.len()
            <= MAX_CHILDREN_TO_FLATTEN && nested_children.len() <= MAX_CHILDREN_TO_FLATTEN
            - md_children.len() && !single_nested_child_has_multiple_items;
        if should_flatten {
            return self.build_flat(
                header,
                hid,
                md_children,
                nested_children,
                parent_cluster,
                depth,
            );
        }
        self.build_container(header, hid, md_children, nested_children, parent_cluster, depth)
    }

    fn count_in_scope(&self, scope: ScopeId) -> (n: usize)
        ensures
            n == self.source().headers_in_scope(scope).len(),
    {
        let found = self.index.headers_in_scope(scope);
        assert(found@.map_values(|h: &RenderableHeader| h@).len() == found.len());
        found.len()
    }

    /// Lays out a header without children: as a node.
    fn build_leaf(
        &mut self,
        header: &'index RenderableHeader,
        hid: Hid,
        parent_cluster: Option<ClusterId>,
    ) -> (ends: Option<(NodeId, Vec<NodeId>)>)
        requires
            old(self).wf(),
            Some(header@) == old(self).source().header(hid),
        ensures
            final(self).places(
                old(self),
                model::place_leaf(
                    old(self).source(),
                    old(self).shows_calls(),
                    old(self).layout(),
                    hid,
                    parent_cluster,
                ),
                ends,
            ),
    {
        let node_id = self.place_node(header, hid, false, parent_cluster)?;
        let mut exits: Vec<NodeId> = Vec::new();
        exits.push(node_id);
        assert(exits@ =~= seq![node_id]);
        self.set_exits(hid, copy_ids(&exits));
        if self.cfg.show_call_nodes {
            self.render_calls_for_header(hid, node_id, parent_cluster)?;
        }
        Some((node_id, exits))
    }

    /// Lays out a branch: a cluster with a decision node, from which each of
    /// the nested children is reached; the children of the same scope follow.
    fn build_branch(
        &mut self,
        header: &'index RenderableHeader,
        hid: Hid,
        md_children: &Vec<Hid>,
        nested_children: &Vec<Hid>,
        parent_cluster: Option<ClusterId>,
        depth: u128,
    ) -> (ends: Option<(NodeId, Vec<NodeId>)>)
        requires
            old(self).wf(),
            Some(header@) == old(self).source().header(hid),
            md_children@ == old(self).source().md_children(hid),
            nested_children@ == old(self).source().nested_children(hid),
            depth > 0,
        ensures
            final(self).places(
                old(self),
                model::place_branch(
                    old(self).source(),
                    old(self).shows_calls(),
                    old(self).layout(),
                    hid,
                    parent_cluster,
                    depth as nat,
                ),
                ends,
            ),
        decreases depth, 1nat,
    {
        let ghost ix = self.source();
        let ghost show = self.shows_calls();
        proof {
            depth::lemma_children_known(ix, hid);
        }
        let cluster_id = self.push_cluster(header.title.as_str(), parent_cluster)?;
        let decision_id = self.place_node(header, hid, true, Some(cluster_id))?;
        if self.cfg.show_call_nodes {
            self.render_calls_for_header(hid, decision_id, Some(cluster_id))?;
        }
        self.build_branches(nested_children, Some(cluster_id), depth - 1)?;
        self.build_headers(md_children, Some(cluster_id), depth - 1)?;
        let ghost l = self.layout();
        assert(model::place_branch(
            ix,
            show,
            old(self).layout(),
            hid,
            parent_cluster,
            depth as nat,
        ) == model::close_branch(ix, show, l, hid, decision_id, cluster_id));
        self.link_to_entries(decision_id, nested_children)?;
        if self.cfg.show_call_nodes {
            proof {
                memory::lemma_calls_of_all(ix, self.layout(), nested_children@, Some(cluster_id));
            }
            self.render_calls_of_all(nested_children, Some(cluster_id))?;
        }
        let ghost m = self.layout();
        let branch_exits = self.exits_of_all(nested_children)?;
        let md_ids = self.entries_of_all(md_children)?;
        if md_ids.len() > 0 {
            let first_md = md_ids[0];
            if branch_exits.len() > 0 {
                self.link_into(&branch_exits, first_md);
            } else {
                self.push_edge(decision_id, first_md);
            }
        } else {
            assert(m.link(seq![]) =~= m);
        }
        self.link_along(&md_ids);
        let outward = if md_ids.len() > 0 {
            let mut last: Vec<NodeId> = Vec::new();
            last.push(md_ids[md_ids.len() - 1]);
            assert(last@ =~= seq![md_ids@.last()]);
            last
        } else {
            branch_exits
        };
        self.set_exits(hid, copy_ids(&outward));
        Some((decision_id, outward))
    }

    /// Links the calls of headers that are entered to their entries.
    fn render_calls_of_all(
        &mut self,
        hids: &Vec<Hid>,
        cluster: Option<ClusterId>,
    ) -> (done: Option<()>)
        requires
            old(self).wf(),
            old(self).layout().all_entered(hids@),
        ensures
            final(self).reaches(
                old(self),
                model::show_calls_of_all(
                    old(self).source(),
                    old(self).layout(),
                    hids@,
                    cluster,
                ),
                done,
            ),
    {
        let ghost ix = self.source();
        let ghost all = hids@;
        let mut i: usize = 0;
        assert(all.skip(0) =~= all);
        while i < hids.len()
            invariant
                i <= hids.len(),
                all == hids@,
                self.wf(),
                self.same_source(old(self)),
                ix == old(self).source(),
                self.layout().all_entered(hids@),
                model::show_calls_of_all(ix, self.layout(), all.skip(i as int), cluster)
                    == model::show_calls_of_all(ix, old(self).layout(), all, cluster),
            decreases hids.len() - i,
        {
            assert(all.skip(i as int)[0] == hids[i as int]);
            assert(all.skip(i as int).drop_first() =~= all.skip(i + 1));
            let rep = self.entry_of(hids[i])?;
            proof {
                let hid = hids[i as int];
                memory::lemma_calls(self.layout(), hid, ix.calls(hid), rep, cluster);
            }
            self.render_calls_for_header(hids[i], rep, cluster)?;
            i = i + 1;
        }
        Some(())
    }

    /// The exits of headers one after the other, if all are left.
    fn exits_of_all(&self, hids: &Vec<Hid>) -> (ids: Option<Vec<NodeId>>)
        ensures
            ids is Some <==> self.layout().all_left(hids@),
            ids matches Some(v) ==> v@ == self.layout().exits_of(hids@),
    {
        let ghost l = self.layout();
        let ghost lists = hids@.map_values(|hid: Hid| l.exits[hid]);
        let mut ids: Vec<NodeId> = Vec::new();
        let mut i: usize = 0;
        assert(lists.take(0) =~= seq![]);
        assert(ids@ =~= lists.take(0).flatten());
        while i < hids.len()
            invariant
                i <= hids.len(),
                l == self.layout(),
                forall|j: int| 0 <= j < i ==> l.exits.contains_key(#[trigger] hids@[j]),
                lists == hids@.map_values(|hid: Hid| l.exits[hid]),
                ids@ == lists.take(i as int).flatten(),
            decreases hids.len() - i,
        {
            let mut more = self.exits_of(hids[i])?;
            proof {
                assert(lists.take(i + 1) =~= lists.take(i as int).push(lists[i as int]));
                lists.take(i as int).lemma_flatten_push(lists[i as int]);
            }
            ids.append(&mut more);
            i = i + 1;
        }
        assert(lists.take(i as int) =~= lists);
        Some(ids)
    }

    /// The entries of headers, if all are entered.
    fn entries_of_all(&self, hids: &Vec<Hid>) -> (ids: Option<Vec<NodeId>>)
        ensures
            ids is Some <==> self.layout().all_entered(hids@),
            ids matches Some(v) ==> v@ == self.layout().entries(hids@),
    {
        let mut ids: Vec<NodeId> = Vec::new();
        let mut i: usize = 0;
        while i < hids.len()
            invariant
                i <= hids.len(),
                forall|j: int|
                    0 <= j < i ==> self.layout().entry.contains_key(#[trigger] hids@[j]),
                ids@ =~= self.layout().entries(hids@).take(i as int),
            decreases hids.len() - i,
        {
            ids.push(self.entry_of(hids[i])?);
            i = i + 1;
        }
        assert(ids@ =~= self.layout().entries(hids@));
        Some(ids)
    }

    /// Lays out a header in line with its only child: a node that leads to
    /// where the child is entered.
    fn build_flat(
        &mut self,
        header: &'index RenderableHeader,
        hid: Hid,
        md_children: &Vec<Hid>,
        nested_children: &Vec<Hid>,
        parent_cluster: Option<ClusterId>,
        depth: u128,
    ) -> (ends: Option<(NodeId, Vec<NodeId>)>)
        requires
            old(self).wf(),
            Some(header@) == old(self).source().header(hid),
            md_children@ == old(self).source().md_children(hid),
            nested_children@ == old(self).source().nested_children(hid),
            md_children@.len() + nested_children@.len() == 1,
            depth > 0,
        ensures
            final(self).places(
                old(self),
                model::place_flat(
                    old(self).source(),
                    old(self).shows_calls(),
                    old(self).layout(),
                    hid,
                    parent_cluster,
                    depth as nat,
                ),
                ends,
            ),
        decreases depth, 1nat,
    {
        proof {
            depth::lemma_children_known(self.source(), hid);
        }
        let node_id = self.place_node(header, hid, false, parent_cluster)?;
        let child = if md_children.len() == 1 {
            self.build_headers(md_children, parent_cluster, depth - 1)?;
            md_children[0]
        } else {
            self.build_branches(nested_children, parent_cluster, depth - 1)?;
            nested_children[0]
        };
        let c_entry = self.entry_of(child)?;
        let exits = self.exits_of(child)?;
        self.push_edge(node_id, c_entry);
        self.set_exits(hid, copy_ids(&exits));
        Some((node_id, exits))
    }

    /// The header whose exits lead on from `child` within a container.
    fn choose_exits_hid(&self, nested_children: &Vec<Hid>, child: Hid) -> (by: Hid)
        requires
            self.wf(),
            self.source().header(child) is Some,
        ensures
            by == model::leaves_by(self.source(), self.layout(), nested_children@, child),
    {
        if contains_hid(nested_children, child) {
            let items = self.pre.scope_items(self.index, self.header_of(child).scope);
            if items.len() > 0 {
                let last = items[items.len() - 1];
                if self.header_exits.contains_key(&last) {
                    return last;
                }
            }
        }
        child
    }

    /// Lays out a container: a cluster of its children, which follow each other
    /// in order of position.
    fn build_container(
        &mut self,
        header: &'index RenderableHeader,
        hid: Hid,
        md_children: &Vec<Hid>,
        nested_children: &Vec<Hid>,
        parent_cluster: Option<ClusterId>,
        depth: u128,
    ) -> (ends: Option<(NodeId, Vec<NodeId>)>)
        requires
            old(self).wf(),
            Some(header@) == old(self).source().header(hid),
            md_children@ == old(self).source().md_children(hid),
            nested_children@ == old(self).source().nested_children(hid),
            md_children@.len() + nested_children@.len() > 0,
            depth > 0,
        ensures
            final(self).places(
                old(self),
                model::place_container(
                    old(self).source(),
                    old(self).shows_calls(),
                    old(self).layout(),
                    hid,
                    parent_cluster,
                    depth as nat,
                ),
                ends,
            ),
        decreases depth, 1nat,
    {
        let ghost ix = self.source();
        let ghost show = self.shows_calls();
        let cluster_id = self.push_cluster(header.title.as_str(), parent_cluster)?;
        proof {
            depth::lemma_children_known(ix, hid);
            merge::lemma_mergeable(merge::spans_of(ix), md_children@, nested_children@);
            lemma_children_nonempty(ix, hid);
        }
        self.build_scopes_of(nested_children, Some(cluster_id), depth - 1)?;
        proof {
            merge::lemma_span_table(self.pre.by_hid@, ix);
        }
        let items_merged = merge_by_pos(
            &self.pre.by_hid,
            md_children.as_slice(),
            nested_children.as_slice(),
        );
        let ghost all = items_merged@;
        assert(all == model::children(ix, hid));
        self.build_headers(&items_merged, Some(cluster_id), depth - 1)?;
        let ghost l = self.layout();
        let ghost whole = model::place_container(
            ix,
            show,
            old(self).layout(),
            hid,
            parent_cluster,
            depth as nat,
        );
        assert(whole == model::close_container(ix, l, hid));
        let first_rep = self.entry_of(items_merged[0])?;
        let mut prev_exits_hid = self.choose_exits_hid(nested_children, items_merged[0]);
        let ghost goal = model::chain_children(
            ix,
            l,
            nested_children@,
            all.drop_first(),
            prev_exits_hid,
        );
        let mut i: usize = 1;
        assert(all.skip(1) =~= all.drop_first());
        while i < items_merged.len()
            invariant
                1 <= i <= items_merged.len(),
                all == items_merged@,
                self.wf(),
                self.same_source(old(self)),
                ix == self.source(),
                forall|i: int| 0 <= i < all.len() ==> ix.header(#[trigger] all[i]) is Some,
                whole == model::place_container(
                    ix,
                    show,
                    old(self).layout(),
                    hid,
                    parent_cluster,
                    depth as nat,
                ),
                goal is None ==> whole is None,
                show == old(self).shows_calls(),
                model::chain_children(
                    ix,
                    self.layout(),
                    nested_children@,
                    all.skip(i as int),
                    prev_exits_hid,
                ) == goal,
            decreases items_merged.len() - i,
        {
            let child_hid = items_merged[i];
            assert(all.skip(i as int)[0] == child_hid);
            assert(all.skip(i as int).drop_first() =~= all.skip(i + 1));
            let entry = self.entry_of(child_hid)?;
            let exits_hid = self.choose_exits_hid(nested_children, child_hid);
            let prev = self.exits_of(prev_exits_hid)?;
            self.link_into(&prev, entry);
            prev_exits_hid = exits_hid;
            i = i + 1;
        }
        assert(goal == Some((self.layout(), prev_exits_hid)));
        let exits = self.exits_of(prev_exits_hid)?;
        self.set_entry(hid, first_rep);
        self.set_exits(hid, copy_ids(&exits));
        Some((first_rep, exits))
    }

    /// Lays out the top-level scopes in order, and hands out the graph with the
    /// spans of its nodes, if the index can be laid out.
    pub fn try_build(self) -> (built: Option<(Graph<'index>, SpanMap<'index>)>)
        requires
            self.wf(),
            self.layout() == Layout::empty(),
        ensures
            built is Some <==> model::has_layout(self.source(), self.shows_calls()),
            built matches Some(b) ==> {
                &&& b.0@ == model::layout_of(self.source(), self.shows_calls()).graph()
                &&& b.1@ == model::layout_of(self.source(), self.shows_calls()).spans
                &&& b.1.wf()
            },
    {
        let ghost ix = self.source();
        let ghost show = self.shows_calls();
        let depth = find_depth_limit(self.index);
        proof {
            depth::layouts_keep_to_the_depth_limit(ix, show);
        }
        let scopes = sorted_top_scopes(self.index, self.pre);
        let ghost all = scopes@;
        let ghost goal = model::layout(ix, show, depth as nat);
        let mut builder = self;
        let mut i: usize = 0;
        assert(all.skip(0) =~= all);
        while i < scopes.len()
            invariant
                i <= scopes.len(),
                all == scopes@,
                builder.wf(),
                ix == builder.source(),
                show == builder.shows_calls(),
                ix == self.source(),
                show == self.shows_calls(),
                goal is Some <==> model::has_layout(ix, show),
                model::place_scopes(
                    ix,
                    show,
                    builder.layout(),
                    all.skip(i as int),
                    None,
                    depth as nat,
                ) == goal,
            decreases scopes.len() - i,
        {
            assert(all.skip(i as int)[0] == scopes[i as int]);
            assert(all.skip(i as int).drop_first() =~= all.skip(i + 1));
            builder.build_scope_sequence(scopes[i], None, depth)?;
            i = i + 1;
        }
        Some((builder.graph, builder.span_map))
    }

    /// Lays out the top-level scopes in order, and hands out the graph with the
    /// spans of its nodes.
    pub fn build(self) -> (built: (Graph<'index>, SpanMap<'index>))
        requires
            self.wf(),
            self.layout() == Layout::empty(),
            model::has_layout(self.source(), self.shows_calls()),
        ensures
            built.0@ == model::layout_of(self.source(), self.shows_calls()).graph(),
            built.1@ == model::layout_of(self.source(), self.shows_calls()).spans,
            built.1.wf(),
    {
        self.try_build().unwrap()
    }
}

fn contains_hid(hids: &Vec<Hid>, hid: Hid) -> (found: bool)
    ensures
        found == hids@.contains(hid),
{
    let mut i: usize = 0;
    while i < hids.len()
        invariant
            i <= hids.len(),
            forall|j: int| 0 <= j < i ==> hids@[j] != hid,
        decreases hids.len() - i,
    {
        if hids[i] == hid {
            return true;
        }
        i = i + 1;
    }
    false
}

/// In every state that a builder reaches, a header and a callee have at most one
/// call node, which the cache finds and which is labelled with the callee; and
/// the identifiers that come next follow on from the nodes and clusters there are.
pub proof fn builders_have_one_node_per_call(builder: GraphBuilder)
    requires
        builder.wf(),
    ensures
        invariants::calls_have_one_node(builder.layout()),
        invariants::calls_are_labelled(builder.layout()),
        builder.next_node_id() == builder.layout().next_node(),
        builder.next_cluster_id() == builder.layout().next_cluster(),
        builder.node_ids() == builder.layout().nodes.len(),
        builder.cluster_ids() == builder.layout().clusters.len(),
{
}

/// Identifiers count up without gaps from those that come next, whichever order
/// they are drawn in: each is the one after as many as were drawn of its kind
/// before it, the two kinds do not disturb each other, and nothing is laid out.
pub proof fn identifiers_count_up(builder: GraphBuilder, draws: Seq<Draw>)
    requires
        builder.node_ids() + count(draws, Draw::Node) <= u32::MAX,
        builder.cluster_ids() + count(draws, Draw::Cluster) <= u32::MAX,
    ensures
        forall|i: int|
            0 <= i <= draws.len() ==> {
                let b = #[trigger] builder.drawing(draws.take(i));
                &&& b.next_node_id() == NodeId::nth(
                    builder.node_ids() + count(draws.take(i), Draw::Node),
                )
                &&& b.next_cluster_id() == ClusterId::nth(
                    builder.cluster_ids() + count(draws.take(i), Draw::Cluster),
                )
                &&& b.node_ids() == builder.node_ids() + count(draws.take(i), Draw::Node)
                &&& b.cluster_ids() == builder.cluster_ids() + count(draws.take(i), Draw::Cluster)
                &&& b.layout() == builder.layout()
                &&& b.source() == builder.source()
                &&& b.shows_calls() == builder.shows_calls()
            },
    decreases draws.len(),
{
    assert forall|i: int| 0 <= i <= draws.len() implies {
        let b = #[trigger] builder.drawing(draws.take(i));
        &&& b.next_node_id() == NodeId::nth(builder.node_ids() + count(draws.take(i), Draw::Node))
        &&& b.next_cluster_id() == ClusterId::nth(
            builder.cluster_ids() + count(draws.take(i), Draw::Cluster),
        )
        &&& b.node_ids() == builder.node_ids() + count(draws.take(i), Draw::Node)
        &&& b.cluster_ids() == builder.cluster_ids() + count(draws.take(i), Draw::Cluster)
        &&& b.layout() == builder.layout()
        &&& b.source() == builder.source()
        &&& b.shows_calls() == builder.shows_calls()
    } by {
        lemma_count(draws, Draw::Node, i);
        lemma_count(draws, Draw::Cluster, i);
        if i > 0 {
            let rest = draws.drop_last();
            identifiers_count_up(builder, rest);
            assert(draws.take(i).drop_last() =~= rest.take(i - 1));
            assert(builder.drawing(rest.take(i - 1)).layout() == builder.layout());
        }
    }
}

proof fn lemma_count(draws: Seq<Draw>, draw: Draw, i: int)
    requires
        0 <= i <= draws.len(),
    ensures
        count(draws.take(i), draw) <= count(draws, draw),
    decreases draws.len(),
{
    if i == draws.len() {
        assert(draws.take(i) =~= draws);
    } else {
        lemma_count(draws.drop_last(), draw, i);
        assert(draws.drop_last().take(i) =~= draws.take(i));
    }
}

/// A header that has children has a first one.
proof fn lemma_children_nonempty(ix: IndexView, hid: Hid)
    requires
        ix.md_children(hid).len() + ix.nested_children(hid).len() > 0,
    ensures
        model::children(ix, hid).len() > 0,
{
}

/// Builds the graph of an index, and the map from its nodes to where they stand
/// in the source.
pub fn build<'index>(
    index: &'index HeaderIndex,
    config: BuilderConfig,
) -> (built: (Graph<'index>, SpanMap<'index>))
    requires
        index@.edges_known(),
        model::has_layout(index@, config.show_call_nodes),
    ensures
        built.0@ == model::layout_of(index@, config.show_call_nodes).graph(),
        built.1@ == model::layout_of(index@, config.show_call_nodes).spans,
        built.1.wf(),
{
    let pre = Prelude::from_index(index);
    let builder = GraphBuilder::new(index, &pre, config);
    builder.build()
}

/// Builds the graph of an index, and the map from its nodes to where they stand
/// in the source, if nested edges join headers of the index and the index can be
/// laid out.
pub fn try_build<'index>(
    index: &'index HeaderIndex,
    config: BuilderConfig,
) -> (built: Option<(Graph<'index>, SpanMap<'index>)>)
    ensures
        built is Some <==> index@.edges_known() && model::has_layout(
            index@,
            config.show_call_nodes,
        ),
        built matches Some(b) ==> {
            &&& b.0@ == model::layout_of(index@, config.show_call_nodes).graph()
            &&& b.1@ == model::layout_of(index@, config.show_call_nodes).spans
            &&& b.1.wf()
        },
{
    if !knows_edges(index) {
        return None;
    }
    let pre = Prelude::from_index(index);
    let builder = GraphBuilder::new(index, &pre, config);
    builder.try_build()
}

fn copy_ids(ids: &Vec<NodeId>) -> (out: Vec<NodeId>)
    ensures
        out@ == ids@,
{
    let mut out: Vec<NodeId> = Vec::new();
    let mut i: usize = 0;
    while i < ids.len()
        invariant
            i <= ids.len(),
            out@ =~= ids@.take(i as int),
        decreases ids.len() - i,
    {
        out.push(ids[i]);
        i = i + 1;
    }
    out
}

} // verus!
