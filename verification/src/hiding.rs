//! Showing calls only adds to a graph: without the nodes of calls and the edges
//! that leave these, and with the other nodes numbered anew in their order, it is
//! the graph that does not show calls.
use vstd::prelude::*;
use crate::fuel;
use crate::graph::{Edge, NodeView};
use crate::ids;
use crate::ids::{ClusterId, NodeId};
use crate::index::{Hid, IndexView, ScopeId};
use crate::invariants;
use crate::memory;
use crate::model;
use crate::model::{Layout, Placed, Shape};
use crate::span::SpanView;
use crate::tops;

verus! {

broadcast use {
    ids::lemma_node_id,
    ids::lemma_node_nth,
    ids::lemma_cluster_id,
    ids::lemma_cluster_nth,
};

/// How many of the first `n` nodes do not stand for calls.
pub open spec fn kept_before(nodes: Seq<NodeView>, n: nat) -> nat
    decreases n,
{
    if n == 0 {
        0
    } else {
        kept_before(nodes, (n - 1) as nat) + if nodes[n - 1].kind is Call {
            0nat
        } else {
            1nat
        }
    }
}

/// The number of a node once the nodes of calls are gone.
pub open spec fn renumbered(nodes: Seq<NodeView>, id: NodeId) -> NodeId {
    NodeId::nth(kept_before(nodes, id@))
}

/// Identifiers once the nodes of calls are gone.
pub open spec fn all_renumbered(nodes: Seq<NodeView>, ids: Seq<NodeId>) -> Seq<NodeId> {
    ids.map_values(|id: NodeId| renumbered(nodes, id))
}

/// The nodes that do not stand for calls, numbered anew.
pub open spec fn without_calls(nodes: Seq<NodeView>) -> Seq<NodeView>
    decreases nodes.len(),
{
    if nodes.len() == 0 {
        seq![]
    } else {
        let before = without_calls(nodes.drop_last());
        if nodes.last().kind is Call {
            before
        } else {
            before.push(NodeView { id: NodeId::nth(before.len()), ..nodes.last() })
        }
    }
}

/// The edges that do not leave the node of a call, between the nodes numbered
/// anew.
pub open spec fn edges_without_calls(nodes: Seq<NodeView>, edges: Seq<Edge>) -> Seq<Edge>
    decreases edges.len(),
{
    if edges.len() == 0 {
        seq![]
    } else {
        let before = edges_without_calls(nodes, edges.drop_last());
        let e = edges.last();
        if nodes[e.from@ as int].kind is Call {
            before
        } else {
            before.push(Edge { from: renumbered(nodes, e.from), to: renumbered(nodes, e.to) })
        }
    }
}

/// A layout without the nodes of calls and the edges that leave these.
pub open spec fn hidden(l: Layout) -> Layout {
    Layout {
        nodes: without_calls(l.nodes),
        edges: edges_without_calls(l.nodes, l.edges),
        clusters: l.clusters,
        entry: l.entry.map_values(|id: NodeId| renumbered(l.nodes, id)),
        exits: l.exits.map_values(|ids: Seq<NodeId>| all_renumbered(l.nodes, ids)),
        spans: l.spans.map_values(|e: (NodeId, SpanView)| (renumbered(l.nodes, e.0), e.1)),
        calls: Map::empty(),
        visited: l.visited,
    }
}

/// The ends of a header once the nodes of calls are gone.
pub open spec fn hidden_ends(p: Placed) -> Placed {
    Placed {
        layout: hidden(p.layout),
        entry: renumbered(p.layout.nodes, p.entry),
        exits: all_renumbered(p.layout.nodes, p.exits),
    }
}

proof fn lemma_kept_before(a: Seq<NodeView>, b: Seq<NodeView>, n: nat)
    requires
        a.is_prefix_of(b),
        n <= a.len(),
    ensures
        kept_before(b, n) == kept_before(a, n),
        kept_before(a, n) <= n,
    decreases n,
{
    if n > 0 {
        lemma_kept_before(a, b, (n - 1) as nat);
        assert(b[n - 1] == a[n - 1]);
    }
}

proof fn lemma_without_calls_len(nodes: Seq<NodeView>)
    ensures
        without_calls(nodes).len() == kept_before(nodes, nodes.len()),
        without_calls(nodes).len() <= nodes.len(),
    decreases nodes.len(),
{
    if nodes.len() > 0 {
        let rest = nodes.drop_last();
        lemma_without_calls_len(rest);
        assert(rest =~= nodes.subrange(0, rest.len() as int));
        lemma_kept_before(rest, nodes, rest.len());
    }
}

proof fn lemma_renumbered(a: Seq<NodeView>, b: Seq<NodeView>, ids: Seq<NodeId>)
    requires
        a.is_prefix_of(b),
        forall|i: int| 0 <= i < ids.len() ==> (#[trigger] ids[i])@ < a.len(),
    ensures
        all_renumbered(b, ids) == all_renumbered(a, ids),
{
    assert forall|i: int| 0 <= i < ids.len() implies renumbered(b, #[trigger] ids[i]) == renumbered(
        a,
        ids[i],
    ) by {
        lemma_kept_before(a, b, ids[i]@);
    }
    assert(all_renumbered(b, ids) =~= all_renumbered(a, ids));
}

proof fn lemma_edges_renumbered(a: Seq<NodeView>, b: Seq<NodeView>, edges: Seq<Edge>)
    requires
        a.is_prefix_of(b),
        forall|i: int|
            0 <= i < edges.len() ==> (#[trigger] edges[i]).from@ < a.len() && edges[i].to@ < a.len(),
    ensures
        edges_without_calls(b, edges) == edges_without_calls(a, edges),
    decreases edges.len(),
{
    if edges.len() > 0 {
        let rest = edges.drop_last();
        let e = edges[edges.len() - 1];
        assert forall|i: int| 0 <= i < rest.len() implies (#[trigger] rest[i]).from@ < a.len()
            && rest[i].to@ < a.len() by {
            assert(rest[i] == edges[i]);
        }
        lemma_edges_renumbered(a, b, rest);
        assert(b[e.from@ as int] == a[e.from@ as int]);
        lemma_kept_before(a, b, e.from@);
        lemma_kept_before(a, b, e.to@);
    }
}

proof fn lemma_edges_added(nodes: Seq<NodeView>, edges: Seq<Edge>, more: Seq<Edge>)
    ensures
        edges_without_calls(nodes, edges + more) == edges_without_calls(nodes, edges)
            + edges_without_calls(nodes, more),
    decreases more.len(),
{
    if more.len() == 0 {
        assert(edges + more =~= edges);
        assert(edges_without_calls(nodes, edges) + edges_without_calls(nodes, more)
            =~= edges_without_calls(nodes, edges));
    } else {
        lemma_edges_added(nodes, edges, more.drop_last());
        assert((edges + more).drop_last() =~= edges + more.drop_last());
        assert(edges_without_calls(nodes, edges + more) =~= edges_without_calls(nodes, edges)
            + edges_without_calls(nodes, more));
    }
}

/// Edges that leave nodes of headers are all kept.
proof fn lemma_edges_kept(nodes: Seq<NodeView>, edges: Seq<Edge>)
    requires
        forall|i: int|
            0 <= i < edges.len() ==> !(nodes[(#[trigger] edges[i]).from@ as int].kind is Call),
    ensures
        edges_without_calls(nodes, edges) == edges.map_values(
            |e: Edge| Edge { from: renumbered(nodes, e.from), to: renumbered(nodes, e.to) },
        ),
    decreases edges.len(),
{
    let f = |e: Edge| Edge { from: renumbered(nodes, e.from), to: renumbered(nodes, e.to) };
    if edges.len() > 0 {
        let rest = edges.drop_last();
        assert forall|i: int| 0 <= i < rest.len() implies !(nodes[(
        #[trigger] rest[i]).from@ as int].kind is Call) by {
            assert(rest[i] == edges[i]);
        }
        lemma_edges_kept(nodes, rest);
        assert(edges[edges.len() - 1] == edges.last());
        assert(edges.map_values(f) =~= rest.map_values(f).push(f(edges.last())));
    } else {
        assert(edges.map_values(f) =~= seq![]);
    }
}

/// Linking nodes of headers.
proof fn lemma_link(l: Layout, edges: Seq<Edge>)
    requires
        forall|i: int|
            0 <= i < edges.len() ==> invariants::is_header_node(l, (#[trigger] edges[i]).from),
    ensures
        hidden(l.link(edges)) == hidden(l).link(
            edges.map_values(
                |e: Edge|
                    Edge { from: renumbered(l.nodes, e.from), to: renumbered(l.nodes, e.to) },
            ),
        ),
{
    assert forall|i: int| 0 <= i < edges.len() implies !(l.nodes[(
    #[trigger] edges[i]).from@ as int].kind is Call) by {
        assert(invariants::is_header_node(l, edges[i].from));
    }
    lemma_edges_added(l.nodes, l.edges, edges);
    lemma_edges_kept(l.nodes, edges);
}

proof fn lemma_link_into(l: Layout, froms: Seq<NodeId>, to: NodeId)
    requires
        invariants::are_header_nodes(l, froms),
    ensures
        hidden(l.link(model::edges_into(froms, to))) == hidden(l).link(
            model::edges_into(all_renumbered(l.nodes, froms), renumbered(l.nodes, to)),
        ),
{
    let edges = model::edges_into(froms, to);
    assert forall|i: int| 0 <= i < edges.len() implies invariants::is_header_node(
        l,
        (#[trigger] edges[i]).from,
    ) by {
        assert(invariants::is_header_node(l, froms[i]));
    }
    lemma_link(l, edges);
    let f = |e: Edge| Edge { from: renumbered(l.nodes, e.from), to: renumbered(l.nodes, e.to) };
    assert(edges.map_values(f) =~= model::edges_into(
        all_renumbered(l.nodes, froms),
        renumbered(l.nodes, to),
    ));
}

proof fn lemma_link_out_of(l: Layout, from: NodeId, tos: Seq<NodeId>)
    requires
        invariants::is_header_node(l, from),
    ensures
        hidden(l.link(model::edges_out_of(from, tos))) == hidden(l).link(
            model::edges_out_of(renumbered(l.nodes, from), all_renumbered(l.nodes, tos)),
        ),
{
    let edges = model::edges_out_of(from, tos);
    lemma_link(l, edges);
    let f = |e: Edge| Edge { from: renumbered(l.nodes, e.from), to: renumbered(l.nodes, e.to) };
    assert(edges.map_values(f) =~= model::edges_out_of(
        renumbered(l.nodes, from),
        all_renumbered(l.nodes, tos),
    ));
}

proof fn lemma_link_along(l: Layout, ids: Seq<NodeId>)
    requires
        invariants::are_header_nodes(l, ids),
    ensures
        hidden(l.link(model::edges_along(ids))) == hidden(l).link(
            model::edges_along(all_renumbered(l.nodes, ids)),
        ),
{
    let edges = model::edges_along(ids);
    assert forall|i: int| 0 <= i < edges.len() implies invariants::is_header_node(
        l,
        (#[trigger] edges[i]).from,
    ) by {
        assert(invariants::is_header_node(l, ids[i]));
    }
    lemma_link(l, edges);
    let f = |e: Edge| Edge { from: renumbered(l.nodes, e.from), to: renumbered(l.nodes, e.to) };
    assert(edges.map_values(f) =~= model::edges_along(all_renumbered(l.nodes, ids)));
}

/// The spans of nodes belong to nodes.
proof fn lemma_span_ids(nodes: Seq<NodeView>, i: int)
    requires
        forall|k: int| 0 <= k < nodes.len() ==> (#[trigger] nodes[k]).id@ == k,
        0 <= i < invariants::node_spans(nodes).len(),
    ensures
        invariants::node_spans(nodes)[i].0@ < nodes.len(),
    decreases nodes.len(),
{
    let rest = nodes.drop_last();
    assert forall|k: int| 0 <= k < rest.len() implies (#[trigger] rest[k]).id@ == k by {
        assert(rest[k] == nodes[k]);
    }
    assert(nodes[nodes.len() - 1] == nodes.last());
    if i < invariants::node_spans(rest).len() {
        lemma_span_ids(rest, i);
    }
}

/// What is laid out keeps its number when nodes are added.
proof fn lemma_more_nodes(ix: IndexView, l: Layout, nodes: Seq<NodeView>)
    requires
        invariants::sound(ix, true, l),
        l.nodes.is_prefix_of(nodes),
    ensures
        hidden(Layout { nodes, ..l }) == (Layout { nodes: without_calls(nodes), ..hidden(l) }),
{
    let m = Layout { nodes, ..l };
    assert forall|i: int| 0 <= i < l.edges.len() implies (#[trigger] l.edges[i]).from@
        < l.nodes.len() && l.edges[i].to@ < l.nodes.len() by {
        assert(invariants::is_node(l, l.edges[i].from));
    }
    lemma_edges_renumbered(l.nodes, nodes, l.edges);
    assert(hidden(m).entry =~= hidden(l).entry) by {
        assert forall|h: Hid| #[trigger] l.entry.contains_key(h) implies renumbered(
            nodes,
            l.entry[h],
        ) == renumbered(l.nodes, l.entry[h]) by {
            lemma_kept_before(l.nodes, nodes, l.entry[h]@);
        }
    }
    assert(hidden(m).exits =~= hidden(l).exits) by {
        assert forall|h: Hid| #[trigger] l.exits.contains_key(h) implies all_renumbered(
            nodes,
            l.exits[h],
        ) == all_renumbered(l.nodes, l.exits[h]) by {
            invariants::lemma_exits(ix, true, l, h);
            lemma_renumbered(l.nodes, nodes, l.exits[h]);
        }
    }
    assert(hidden(m).spans =~= hidden(l).spans) by {
        assert forall|i: int| 0 <= i < l.spans.len() implies renumbered(
            nodes,
            (#[trigger] l.spans[i]).0,
        ) == renumbered(l.nodes, l.spans[i].0) by {
            lemma_span_ids(l.nodes, i);
            lemma_kept_before(l.nodes, nodes, l.spans[i].0@);
        }
    }
}

proof fn lemma_place_node(
    ix: IndexView,
    l: Layout,
    hid: Hid,
    decision: bool,
    cluster: Option<ClusterId>,
)
    requires
        invariants::sound(ix, true, l),
        l.place_node(ix.header(hid)->0, hid, decision, cluster) is Some,
    ensures
        ({
            let m = l.place_node(ix.header(hid)->0, hid, decision, cluster)->0;
            &&& hidden(l).place_node(ix.header(hid)->0, hid, decision, cluster) == Some(hidden(m))
            &&& renumbered(m.nodes, l.next_node()) == hidden(l).next_node()
        }),
{
    let h = ix.header(hid)->0;
    let m = l.place_node(h, hid, decision, cluster)->0;
    let node = m.nodes.last();
    assert(m.nodes.drop_last() =~= l.nodes);
    assert(l.nodes =~= m.nodes.subrange(0, l.nodes.len() as int));
    lemma_more_nodes(ix, l, m.nodes);
    lemma_without_calls_len(l.nodes);
    lemma_kept_before(l.nodes, m.nodes, l.nodes.len());
    let k = hidden(l).place_node(h, hid, decision, cluster)->0;
    assert(renumbered(m.nodes, l.next_node()) == hidden(l).next_node());
    assert(hidden(m).entry =~= k.entry) by {
        assert(hidden(Layout { nodes: m.nodes, ..l }).entry =~= hidden(l).entry);
        assert forall|g: Hid| l.entry.contains_key(g) implies #[trigger] renumbered(
            m.nodes,
            l.entry[g],
        ) == renumbered(l.nodes, l.entry[g]) by {
            lemma_kept_before(l.nodes, m.nodes, l.entry[g]@);
        }
    }
    assert(hidden(m).spans =~= k.spans) by {
        assert(hidden(Layout { nodes: m.nodes, ..l }).spans =~= hidden(l).spans);
        assert forall|i: int| 0 <= i < l.spans.len() implies hidden(m).spans[i] == hidden(
            l,
        ).spans[i] by {
            assert(hidden(Layout { nodes: m.nodes, ..l }).spans[i] == hidden(l).spans[i]);
        }
    }
    assert(hidden(m).nodes =~= k.nodes);
    assert(hidden(m) =~= k);
}

proof fn lemma_place_call(
    ix: IndexView,
    l: Layout,
    hid: Hid,
    callee: Seq<char>,
    rep: NodeId,
    cluster: Option<ClusterId>,
)
    requires
        invariants::sound(ix, true, l),
        model::place_call(l, hid, callee, rep, cluster) is Some,
    ensures
        hidden(model::place_call(l, hid, callee, rep, cluster)->0) == hidden(l),
{
    let key = (hid, callee);
    let m = model::place_call(l, hid, callee, rep, cluster)->0;
    let from = if l.calls.contains_key(key) {
        l.calls[key]
    } else {
        l.next_node()
    };
    let e = Edge { from, to: rep };
    assert(m.nodes[from@ as int].kind is Call) by {
        if l.calls.contains_key(key) {
            assert(l.nodes[l.calls[key]@ as int].kind is Call);
        }
    }
    if !l.calls.contains_key(key) {
        assert(m.nodes.drop_last() =~= l.nodes);
    }
    assert(l.nodes =~= m.nodes.subrange(0, l.nodes.len() as int));
    lemma_more_nodes(ix, l, m.nodes);
    assert(m.edges == l.edges + seq![e]);
    lemma_edges_added(m.nodes, l.edges, seq![e]);
    assert(seq![e].last() == e);
    assert(edges_without_calls(m.nodes, seq![e].drop_last()) =~= seq![]);
    assert(edges_without_calls(m.nodes, seq![e]) =~= seq![]);
    assert(edges_without_calls(m.nodes, l.edges) == hidden(Layout { nodes: m.nodes, ..l }).edges);
    assert(hidden(m).edges =~= hidden(l).edges);
    assert(hidden(m).nodes =~= hidden(l).nodes);
    assert(hidden(m) =~= hidden(l));
}

proof fn lemma_place_calls(
    ix: IndexView,
    l: Layout,
    hid: Hid,
    callees: Seq<Seq<char>>,
    rep: NodeId,
    cluster: Option<ClusterId>,
)
    requires
        invariants::sound(ix, true, l),
        invariants::is_cluster(l, cluster),
        invariants::is_node(l, rep),
        ix.header(hid) is Some,
        forall|i: int| 0 <= i < callees.len() ==> ix.calls(hid).contains(#[trigger] callees[i]),
        model::place_calls(l, hid, callees, rep, cluster) is Some,
    ensures
        hidden(model::place_calls(l, hid, callees, rep, cluster)->0) == hidden(l),
    decreases callees.len(),
{
    if callees.len() > 0 {
        assert(ix.calls(hid).contains(callees[0]));
        lemma_place_call(ix, l, hid, callees[0], rep, cluster);
        invariants::lemma_place_call(ix, l, hid, callees[0], rep, cluster);
        let n = model::place_call(l, hid, callees[0], rep, cluster)->0;
        let rest = callees.drop_first();
        assert forall|i: int| 0 <= i < rest.len() implies ix.calls(hid).contains(
            #[trigger] rest[i],
        ) by {
            assert(rest[i] == callees[i + 1]);
        }
        assert(l.nodes.len() <= n.nodes.len());
        lemma_place_calls(ix, n, hid, rest, rep, cluster);
    }
}

proof fn lemma_show_calls(
    ix: IndexView,
    l: Layout,
    hid: Hid,
    cluster: Option<ClusterId>,
)
    requires
        invariants::sound(ix, true, l),
        invariants::is_cluster(l, cluster),
        l.entry.contains_key(hid),
        model::place_calls(l, hid, ix.calls(hid), l.entry[hid], cluster) is Some,
    ensures
        hidden(model::place_calls(l, hid, ix.calls(hid), l.entry[hid], cluster)->0) == hidden(l),
{
    let callees = ix.calls(hid);
    assert forall|i: int| 0 <= i < callees.len() implies ix.calls(hid).contains(
        #[trigger] callees[i],
    ) by {}
    lemma_place_calls(ix, l, hid, callees, l.entry[hid], cluster);
}

proof fn lemma_show_calls_of_all(
    ix: IndexView,
    l: Layout,
    hids: Seq<Hid>,
    cluster: Option<ClusterId>,
)
    requires
        invariants::sound(ix, true, l),
        invariants::is_cluster(l, cluster),
        l.all_entered(hids),
        model::show_calls_of_all(ix, l, hids, cluster) is Some,
    ensures
        hidden(model::show_calls_of_all(ix, l, hids, cluster)->0) == hidden(l),
    decreases hids.len(),
{
    if hids.len() > 0 {
        assert(l.entry.contains_key(hids[0]));
        lemma_show_calls(ix, l, hids[0], cluster);
        invariants::lemma_show_calls(ix, true, l, hids[0], cluster);
        let n = model::place_calls(l, hids[0], ix.calls(hids[0]), l.entry[hids[0]], cluster)->0;
        let rest = hids.drop_first();
        assert(n.all_entered(rest)) by {
            assert forall|i: int| 0 <= i < rest.len() implies n.entry.contains_key(
                #[trigger] rest[i],
            ) by {
                assert(rest[i] == hids[i + 1]);
            }
        }
        lemma_show_calls_of_all(ix, n, rest, cluster);
    }
}

proof fn lemma_set_exits(l: Layout, hid: Hid, exits: Seq<NodeId>)
    ensures
        hidden(l.set_exits(hid, exits)) == hidden(l).set_exits(
            hid,
            all_renumbered(l.nodes, exits),
        ),
{
    assert(hidden(l.set_exits(hid, exits)) =~= hidden(l).set_exits(
        hid,
        all_renumbered(l.nodes, exits),
    ));
}

proof fn lemma_set_entry(l: Layout, hid: Hid, id: NodeId)
    ensures
        hidden(l.set_entry(hid, id)) == hidden(l).set_entry(hid, renumbered(l.nodes, id)),
{
    assert(hidden(l.set_entry(hid, id)) =~= hidden(l).set_entry(hid, renumbered(l.nodes, id)));
}

proof fn lemma_entries(l: Layout, hids: Seq<Hid>)
    requires
        l.all_entered(hids),
    ensures
        hidden(l).all_entered(hids),
        hidden(l).entries(hids) == all_renumbered(l.nodes, l.entries(hids)),
{
    assert forall|i: int| 0 <= i < hids.len() implies hidden(l).entry.contains_key(
        #[trigger] hids[i],
    ) && hidden(l).entry[hids[i]] == renumbered(l.nodes, l.entry[hids[i]]) by {
        assert(l.entry.contains_key(hids[i]));
    }
    assert(hidden(l).entries(hids) =~= all_renumbered(l.nodes, l.entries(hids)));
}

proof fn lemma_exits_of(l: Layout, hids: Seq<Hid>)
    requires
        l.all_left(hids),
    ensures
        hidden(l).all_left(hids),
        hidden(l).exits_of(hids) == all_renumbered(l.nodes, l.exits_of(hids)),
    decreases hids.len(),
{
    let f = |hid: Hid| l.exits[hid];
    let g = |hid: Hid| hidden(l).exits[hid];
    assert forall|i: int| 0 <= i < hids.len() implies hidden(l).exits.contains_key(
        #[trigger] hids[i],
    ) by {
        assert(l.exits.contains_key(hids[i]));
    }
    if hids.len() > 0 {
        let rest = hids.drop_first();
        assert forall|i: int| 0 <= i < rest.len() implies l.exits.contains_key(
            #[trigger] rest[i],
        ) by {
            assert(rest[i] == hids[i + 1]);
        }
        lemma_exits_of(l, rest);
        assert(l.exits.contains_key(hids[0]));
        assert(hids.map_values(f).drop_first() =~= rest.map_values(f));
        assert(hids.map_values(g).drop_first() =~= rest.map_values(g));
        assert(l.exits_of(hids) =~= l.exits[hids[0]] + l.exits_of(rest));
        assert(hidden(l).exits_of(hids) =~= hidden(l).exits[hids[0]] + hidden(l).exits_of(rest));
        assert(all_renumbered(l.nodes, l.exits[hids[0]] + l.exits_of(rest)) =~= all_renumbered(
            l.nodes,
            l.exits[hids[0]],
        ) + all_renumbered(l.nodes, l.exits_of(rest)));
    } else {
        assert(hids.map_values(f) =~= seq![]);
        assert(hids.map_values(g) =~= seq![]);
        assert(hidden(l).exits_of(hids) =~= all_renumbered(l.nodes, l.exits_of(hids)));
    }
}

/// The edges by which a branch joins at its first child of the same scope.
spec fn into_first(decision: NodeId, branch_exits: Seq<NodeId>, steps: Seq<NodeId>) -> Seq<Edge> {
    if steps.len() == 0 {
        seq![]
    } else if branch_exits.len() == 0 {
        seq![Edge { from: decision, to: steps[0] }]
    } else {
        model::edges_into(branch_exits, steps[0])
    }
}

proof fn lemma_into_first(
    m: Layout,
    decision: NodeId,
    branch_exits: Seq<NodeId>,
    steps: Seq<NodeId>,
)
    requires
        invariants::is_header_node(m, decision),
        invariants::are_header_nodes(m, branch_exits),
    ensures
        hidden(m.link(into_first(decision, branch_exits, steps))) == hidden(m).link(
            into_first(
                renumbered(m.nodes, decision),
                all_renumbered(m.nodes, branch_exits),
                all_renumbered(m.nodes, steps),
            ),
        ),
{
    let d = renumbered(m.nodes, decision);
    if steps.len() == 0 {
        assert(m.link(seq![]) =~= m);
        assert(hidden(m).link(seq![]) =~= hidden(m));
    } else if branch_exits.len() == 0 {
        let to = renumbered(m.nodes, steps[0]);
        lemma_link_into(m, seq![decision], steps[0]);
        assert(model::edges_into(seq![decision], steps[0]) =~= seq![
            Edge { from: decision, to: steps[0] },
        ]);
        assert(all_renumbered(m.nodes, seq![decision]) =~= seq![d]);
        assert(model::edges_into(seq![d], to) =~= seq![Edge { from: d, to }]);
    } else {
        lemma_link_into(m, branch_exits, steps[0]);
    }
}

#[verifier::rlimit(40)]
proof fn lemma_close_branch(ix: IndexView, l: Layout, hid: Hid, cluster: ClusterId)
    requires
        invariants::sound(ix, true, l),
        l.entry.contains_key(hid),
        invariants::is_cluster(l, Some(cluster)),
        model::close_branch(ix, true, l, hid, l.entry[hid], cluster) is Some,
    ensures
        model::close_branch(ix, false, hidden(l), hid, hidden(l).entry[hid], cluster) == Some(
            hidden_ends(model::close_branch(ix, true, l, hid, l.entry[hid], cluster)->0),
        ),
{
    let md = ix.md_children(hid);
    let nested = ix.nested_children(hid);
    let decision = l.entry[hid];
    let p = model::close_branch(ix, true, l, hid, decision, cluster)->0;
    lemma_entries(l, nested);
    lemma_link_out_of(l, decision, l.entries(nested));
    invariants::lemma_entries(ix, true, l, nested);
    let out = model::edges_out_of(decision, l.entries(nested));
    assert forall|i: int| 0 <= i < out.len() implies invariants::is_node(
        l,
        (#[trigger] out[i]).from,
    ) && invariants::is_node(l, out[i].to) by {
        assert(invariants::is_header_node(l, l.entries(nested)[i]));
    }
    invariants::lemma_link(ix, true, l, out);
    let linked = l.link(out);
    assert(linked.all_entered(nested));
    lemma_show_calls_of_all(ix, linked, nested, Some(cluster));
    invariants::lemma_show_calls_of_all(ix, linked, nested, Some(cluster));
    let m = model::show_calls_of_all(ix, linked, nested, Some(cluster))->0;
    assert(hidden(m) == hidden(linked));
    lemma_exits_of(m, nested);
    lemma_entries(m, md);
    let branch_exits = m.exits_of(nested);
    let steps = m.entries(md);
    invariants::lemma_exits_of(ix, true, m, nested);
    invariants::lemma_entries(ix, true, m, md);
    let d = renumbered(m.nodes, decision);
    assert(d == renumbered(l.nodes, decision)) by {
        lemma_kept_before(l.nodes, m.nodes, decision@);
    }
    assert(invariants::is_header_node(m, decision)) by {
        assert(m.entry.contains_key(hid));
    }
    let m1 = m.link(into_first(decision, branch_exits, steps));
    lemma_into_first(m, decision, branch_exits, steps);
    lemma_link_along(m1, steps);
    let m2 = m1.link(model::edges_along(steps));
    let exits = if steps.len() == 0 {
        branch_exits
    } else {
        seq![steps.last()]
    };
    lemma_set_exits(m2, hid, exits);
    assert(p.layout == m2.set_exits(hid, exits));
    if steps.len() > 0 {
        assert(all_renumbered(m.nodes, seq![steps.last()]) =~= seq![
            all_renumbered(m.nodes, steps).last(),
        ]);
    }
}

proof fn lemma_close_flat(ix: IndexView, l: Layout, hid: Hid, child: Hid)
    requires
        invariants::sound(ix, true, l),
        l.entry.contains_key(hid),
        model::close_flat(ix, l, hid, l.entry[hid], child) is Some,
    ensures
        model::close_flat(ix, hidden(l), hid, hidden(l).entry[hid], child) == Some(
            hidden_ends(model::close_flat(ix, l, hid, l.entry[hid], child)->0),
        ),
{
    let node = l.entry[hid];
    let to = l.entry[child];
    let m = l.link(seq![Edge { from: node, to }]);
    lemma_link_into(l, seq![node], to);
    assert(model::edges_into(seq![node], to) =~= seq![Edge { from: node, to }]);
    assert(all_renumbered(l.nodes, seq![node]) =~= seq![renumbered(l.nodes, node)]);
    assert(model::edges_into(seq![renumbered(l.nodes, node)], renumbered(l.nodes, to)) =~= seq![
        Edge { from: renumbered(l.nodes, node), to: renumbered(l.nodes, to) },
    ]);
    lemma_set_exits(m, hid, l.exits[child]);
}

proof fn lemma_chain_children(
    ix: IndexView,
    l: Layout,
    nested: Seq<Hid>,
    rest: Seq<Hid>,
    prev: Hid,
)
    requires
        invariants::sound(ix, true, l),
        model::chain_children(ix, l, nested, rest, prev) is Some,
    ensures
        ({
            let (m, last) = model::chain_children(ix, l, nested, rest, prev)->0;
            model::chain_children(ix, hidden(l), nested, rest, prev) == Some((hidden(m), last))
        }),
    decreases rest.len(),
{
    if rest.len() > 0 {
        let froms = l.exits[prev];
        let to = l.entry[rest[0]];
        invariants::lemma_exits(ix, true, l, prev);
        lemma_link_into(l, froms, to);
        invariants::lemma_link_into(ix, true, l, froms, to);
        let n = l.link(model::edges_into(froms, to));
        let next = model::leaves_by(ix, l, nested, rest[0]);
        assert(model::leaves_by(ix, hidden(l), nested, rest[0]) == next);
        lemma_chain_children(ix, n, nested, rest.drop_first(), next);
    }
}

proof fn lemma_close_container(ix: IndexView, l: Layout, hid: Hid)
    requires
        invariants::sound(ix, true, l),
        model::close_container(ix, l, hid) is Some,
    ensures
        model::close_container(ix, hidden(l), hid) == Some(
            hidden_ends(model::close_container(ix, l, hid)->0),
        ),
{
    let nested = ix.nested_children(hid);
    let all = model::children(ix, hid);
    let from = model::leaves_by(ix, l, nested, all[0]);
    assert(model::leaves_by(ix, hidden(l), nested, all[0]) == from);
    lemma_chain_children(ix, l, nested, all.drop_first(), from);
    memory::lemma_chain(ix, l, nested, all.drop_first(), from);
    let (m, last) = model::chain_children(ix, l, nested, all.drop_first(), from)->0;
    lemma_set_entry(m, hid, l.entry[all[0]]);
    let n = m.set_entry(hid, l.entry[all[0]]);
    lemma_set_exits(n, hid, m.exits[last]);
}

proof fn lemma_header(
    ix: IndexView,
    l: Layout,
    hid: Hid,
    parent: Option<ClusterId>,
    f: nat,
)
    requires
        invariants::sound(ix, true, l),
        invariants::is_cluster(l, parent),
        ix.edges_known(),
        invariants::homed(ix, parent, hid),
        model::place_header(ix, true, l, hid, parent, f) is Some,
    ensures
        model::place_header(ix, false, hidden(l), hid, parent, f) == Some(
            hidden_ends(model::place_header(ix, true, l, hid, parent, f)->0),
        ),
    decreases f, 2nat, 0nat,
{
    if l.entry.contains_key(hid) {
        let entry = l.entry[hid];
        assert(all_renumbered(l.nodes, seq![entry]) =~= seq![renumbered(l.nodes, entry)]);
    } else {
        match model::shape(ix, hid, parent) {
            Shape::Leaf => lemma_leaf(ix, l, hid, parent),
            Shape::Branch => lemma_branch(ix, l, hid, parent, f),
            Shape::Flat => lemma_flat(ix, l, hid, parent, f),
            Shape::Container => lemma_container(ix, l, hid, parent, f),
        }
    }
}

proof fn lemma_leaf(ix: IndexView, l: Layout, hid: Hid, parent: Option<ClusterId>)
    requires
        invariants::sound(ix, true, l),
        invariants::is_cluster(l, parent),
        !l.entry.contains_key(hid),
        ix.header(hid) is Some,
        model::shape(ix, hid, parent) == Shape::Leaf,
        model::place_leaf(ix, true, l, hid, parent) is Some,
    ensures
        model::place_leaf(ix, false, hidden(l), hid, parent) == Some(
            hidden_ends(model::place_leaf(ix, true, l, hid, parent)->0),
        ),
{
    let node = l.next_node();
    lemma_place_node(ix, l, hid, false, parent);
    invariants::lemma_place_node(ix, true, l, hid, false, parent);
    let l1 = l.place_node(ix.header(hid)->0, hid, false, parent)->0;
    assert(invariants::are_header_nodes(l1, seq![node]));
    lemma_set_exits(l1, hid, seq![node]);
    invariants::lemma_set_exits(ix, true, l1, hid, seq![node]);
    let l2 = l1.set_exits(hid, seq![node]);
    lemma_show_calls(ix, l2, hid, parent);
    invariants::lemma_show_calls(ix, true, l2, hid, parent);
    let m = model::show_calls(ix, true, l2, hid, node, parent)->0;
    lemma_kept_before(l2.nodes, m.nodes, node@);
    let d = hidden(l).next_node();
    assert(renumbered(m.nodes, node) == d);
    assert(all_renumbered(l1.nodes, seq![node]) =~= seq![d]);
    assert(all_renumbered(m.nodes, seq![node]) =~= seq![d]);
}

proof fn lemma_branch(
    ix: IndexView,
    l: Layout,
    hid: Hid,
    parent: Option<ClusterId>,
    f: nat,
)
    requires
        invariants::sound(ix, true, l),
        invariants::is_cluster(l, parent),
        ix.edges_known(),
        !l.entry.contains_key(hid),
        ix.header(hid) is Some,
        model::shape(ix, hid, parent) == Shape::Branch,
        model::place_branch(ix, true, l, hid, parent, f) is Some,
    ensures
        model::place_branch(ix, false, hidden(l), hid, parent, f) == Some(
            hidden_ends(model::place_branch(ix, true, l, hid, parent, f)->0),
        ),
    decreases f, 1nat, 0nat,
{
    let h = ix.header(hid)->0;
    let md = ix.md_children(hid);
    let nested = ix.nested_children(hid);
    let c = l.next_cluster();
    let cluster = Some(c);
    let node = l.next_node();
    let less = (f - 1) as nat;
    invariants::lemma_add_cluster(ix, true, l, h.title, parent);
    let l1 = l.add_cluster(h.title, parent)->0;
    assert(hidden(l).add_cluster(h.title, parent) == Some(hidden(l1))) by {
        assert(hidden(l).add_cluster(h.title, parent)->0 =~= hidden(l1));
    }
    lemma_place_node(ix, l1, hid, true, cluster);
    invariants::lemma_place_node(ix, true, l1, hid, true, cluster);
    let l2 = l1.place_node(h, hid, true, cluster)->0;
    lemma_show_calls(ix, l2, hid, cluster);
    invariants::lemma_show_calls(ix, true, l2, hid, cluster);
    let l3 = model::show_calls(ix, true, l2, hid, node, cluster)->0;
    assert(hidden(l3) == hidden(l2));
    lemma_branches(ix, l3, nested, cluster, less);
    invariants::lemma_place_branches(ix, true, l3, nested, cluster, less);
    let l4 = model::place_branches(ix, true, l3, nested, cluster, less)->0;
    invariants::lemma_cluster_kept(ix, l3, l4, cluster);
    lemma_headers(ix, l4, md, cluster, less);
    invariants::lemma_place_headers(ix, true, l4, md, cluster, less);
    let l5 = model::place_headers(ix, true, l4, md, cluster, less)->0;
    invariants::lemma_cluster_kept(ix, l4, l5, cluster);
    assert(l3.entry.contains_key(hid));
    assert(l4.entry.contains_key(hid));
    assert(l5.entry[hid] == node);
    lemma_close_branch(ix, l5, hid, c);
    let d = hidden(l).next_node();
    assert(hidden(l5).entry[hid] == d) by {
        assert(l2.nodes.len() <= l3.nodes.len());
        lemma_kept_before(l2.nodes, l3.nodes, node@);
        lemma_kept_before(l3.nodes, l4.nodes, node@);
        lemma_kept_before(l4.nodes, l5.nodes, node@);
    }
    assert(hidden(l).next_cluster() == c);
}

proof fn lemma_flat(
    ix: IndexView,
    l: Layout,
    hid: Hid,
    parent: Option<ClusterId>,
    f: nat,
)
    requires
        invariants::sound(ix, true, l),
        invariants::is_cluster(l, parent),
        ix.edges_known(),
        !l.entry.contains_key(hid),
        ix.header(hid) is Some,
        model::shape(ix, hid, parent) == Shape::Flat,
        model::place_flat(ix, true, l, hid, parent, f) is Some,
    ensures
        model::place_flat(ix, false, hidden(l), hid, parent, f) == Some(
            hidden_ends(model::place_flat(ix, true, l, hid, parent, f)->0),
        ),
    decreases f, 1nat, 0nat,
{
    let h = ix.header(hid)->0;
    let md = ix.md_children(hid);
    let nested = ix.nested_children(hid);
    let node = l.next_node();
    let less = (f - 1) as nat;
    lemma_place_node(ix, l, hid, false, parent);
    invariants::lemma_place_node(ix, true, l, hid, false, parent);
    let l1 = l.place_node(h, hid, false, parent)->0;
    let l2 = if md.len() == 1 {
        lemma_headers(ix, l1, md, parent, less);
        invariants::lemma_place_headers(ix, true, l1, md, parent, less);
        model::place_headers(ix, true, l1, md, parent, less)->0
    } else {
        lemma_branches(ix, l1, nested, parent, less);
        invariants::lemma_place_branches(ix, true, l1, nested, parent, less);
        model::place_branches(ix, true, l1, nested, parent, less)->0
    };
    let child = if md.len() == 1 {
        md[0]
    } else {
        nested[0]
    };
    assert(l1.entry.contains_key(hid));
    assert(l2.entry[hid] == node);
    lemma_close_flat(ix, l2, hid, child);
    lemma_kept_before(l1.nodes, l2.nodes, node@);
    assert(hidden(l2).entry[hid] == hidden(l).next_node());
}

proof fn lemma_container(
    ix: IndexView,
    l: Layout,
    hid: Hid,
    parent: Option<ClusterId>,
    f: nat,
)
    requires
        invariants::sound(ix, true, l),
        invariants::is_cluster(l, parent),
        ix.edges_known(),
        ix.header(hid) is Some,
        model::place_container(ix, true, l, hid, parent, f) is Some,
    ensures
        model::place_container(ix, false, hidden(l), hid, parent, f) == Some(
            hidden_ends(model::place_container(ix, true, l, hid, parent, f)->0),
        ),
    decreases f, 1nat, 0nat,
{
    let title = ix.header(hid)->0.title;
    let all = model::children(ix, hid);
    let scopes = model::scopes_of(ix, ix.nested_children(hid));
    let cluster = Some(l.next_cluster());
    let less = (f - 1) as nat;
    invariants::lemma_add_cluster(ix, true, l, title, parent);
    let l1 = l.add_cluster(title, parent)->0;
    assert(hidden(l).add_cluster(title, parent) == Some(hidden(l1))) by {
        assert(hidden(l).add_cluster(title, parent)->0 =~= hidden(l1));
    }
    lemma_scopes(ix, l1, scopes, cluster, less);
    invariants::lemma_place_scopes(ix, true, l1, scopes, cluster, less);
    let l2 = model::place_scopes(ix, true, l1, scopes, cluster, less)->0;
    invariants::lemma_cluster_kept(ix, l1, l2, cluster);
    lemma_headers(ix, l2, all, cluster, less);
    invariants::lemma_place_headers(ix, true, l2, all, cluster, less);
    let l3 = model::place_headers(ix, true, l2, all, cluster, less)->0;
    lemma_close_container(ix, l3, hid);
}

proof fn lemma_headers(
    ix: IndexView,
    l: Layout,
    hids: Seq<Hid>,
    parent: Option<ClusterId>,
    f: nat,
)
    requires
        invariants::sound(ix, true, l),
        invariants::is_cluster(l, parent),
        ix.edges_known(),
        parent is Some,
        model::place_headers(ix, true, l, hids, parent, f) is Some,
    ensures
        model::place_headers(ix, false, hidden(l), hids, parent, f) == Some(
            hidden(model::place_headers(ix, true, l, hids, parent, f)->0),
        ),
    decreases f, 3nat, hids.len(),
{
    if hids.len() > 0 {
        lemma_header(ix, l, hids[0], parent, f);
        invariants::lemma_place_header(ix, true, l, hids[0], parent, f);
        let n = model::place_header(ix, true, l, hids[0], parent, f)->0.layout;
        invariants::lemma_cluster_kept(ix, l, n, parent);
        lemma_headers(ix, n, hids.drop_first(), parent, f);
    }
}

proof fn lemma_items(
    ix: IndexView,
    l: Layout,
    items: Seq<Hid>,
    prev: Seq<NodeId>,
    parent: Option<ClusterId>,
    f: nat,
)
    requires
        invariants::sound(ix, true, l),
        invariants::is_cluster(l, parent),
        ix.edges_known(),
        invariants::are_header_nodes(l, prev),
        forall|i: int| 0 <= i < items.len() ==> invariants::homed(ix, parent, #[trigger] items[i]),
        model::place_items(ix, true, l, items, prev, parent, f) is Some,
    ensures
        model::place_items(
            ix,
            false,
            hidden(l),
            items,
            all_renumbered(l.nodes, prev),
            parent,
            f,
        ) == Some(hidden(model::place_items(ix, true, l, items, prev, parent, f)->0)),
    decreases f, 3nat, items.len(),
{
    if items.len() > 0 {
        let rest = items.drop_first();
        assert(invariants::homed(ix, parent, items[0]));
        lemma_header(ix, l, items[0], parent, f);
        invariants::lemma_place_header(ix, true, l, items[0], parent, f);
        let p = model::place_header(ix, true, l, items[0], parent, f)->0;
        invariants::lemma_nodes_kept(ix, l, p.layout, prev);
        lemma_renumbered(l.nodes, p.layout.nodes, prev);
        lemma_link_into(p.layout, prev, p.entry);
        invariants::lemma_link_item(ix, true, l, p, items[0], prev, parent);
        let n = p.layout.link(model::edges_into(prev, p.entry));
        assert forall|i: int| 0 <= i < rest.len() implies invariants::homed(
            ix,
            parent,
            #[trigger] rest[i],
        ) by {
            assert(rest[i] == items[i + 1]);
        }
        lemma_items(ix, n, rest, p.exits, parent, f);
    }
}

proof fn lemma_scope(
    ix: IndexView,
    l: Layout,
    scope: ScopeId,
    parent: Option<ClusterId>,
    f: nat,
)
    requires
        invariants::sound(ix, true, l),
        invariants::is_cluster(l, parent),
        ix.edges_known(),
        parent is Some || tops::top_scopes(ix).contains(scope),
        model::place_scope(ix, true, l, scope, parent, f) is Some,
    ensures
        model::place_scope(ix, false, hidden(l), scope, parent, f) == Some(
            hidden(model::place_scope(ix, true, l, scope, parent, f)->0),
        ),
    decreases f, 4nat, 0nat,
{
    if !l.visited.contains(scope) {
        let v = l.visit(scope);
        let items = ix.scope_items(scope);
        invariants::lemma_visit(ix, true, l, scope);
        assert(hidden(l).visit(scope) =~= hidden(v));
        assert forall|i: int| 0 <= i < items.len() implies invariants::homed(
            ix,
            parent,
            #[trigger] items[i],
        ) by {
            assert(items.contains(items[i]));
        }
        lemma_items(ix, v, items, seq![], parent, f);
        assert(all_renumbered(v.nodes, seq![]) =~= seq![]);
    }
}

proof fn lemma_scopes(
    ix: IndexView,
    l: Layout,
    scopes: Seq<ScopeId>,
    parent: Option<ClusterId>,
    f: nat,
)
    requires
        invariants::sound(ix, true, l),
        invariants::is_cluster(l, parent),
        ix.edges_known(),
        parent is Some || forall|i: int|
            0 <= i < scopes.len() ==> tops::top_scopes(ix).contains(#[trigger] scopes[i]),
        model::place_scopes(ix, true, l, scopes, parent, f) is Some,
    ensures
        model::place_scopes(ix, false, hidden(l), scopes, parent, f) == Some(
            hidden(model::place_scopes(ix, true, l, scopes, parent, f)->0),
        ),
    decreases f, 5nat, scopes.len(),
{
    if scopes.len() > 0 {
        let rest = scopes.drop_first();
        assert(parent is Some || tops::top_scopes(ix).contains(scopes[0]));
        lemma_scope(ix, l, scopes[0], parent, f);
        invariants::lemma_place_scope(ix, true, l, scopes[0], parent, f);
        let n = model::place_scope(ix, true, l, scopes[0], parent, f)->0;
        invariants::lemma_cluster_kept(ix, l, n, parent);
        if parent is None {
            assert forall|i: int| 0 <= i < rest.len() implies tops::top_scopes(ix).contains(
                #[trigger] rest[i],
            ) by {
                assert(rest[i] == scopes[i + 1]);
            }
        }
        lemma_scopes(ix, n, rest, parent, f);
    }
}

proof fn lemma_branches(
    ix: IndexView,
    l: Layout,
    nested: Seq<Hid>,
    parent: Option<ClusterId>,
    f: nat,
)
    requires
        invariants::sound(ix, true, l),
        invariants::is_cluster(l, parent),
        ix.edges_known(),
        parent is Some,
        model::place_branches(ix, true, l, nested, parent, f) is Some,
    ensures
        model::place_branches(ix, false, hidden(l), nested, parent, f) == Some(
            hidden(model::place_branches(ix, true, l, nested, parent, f)->0),
        ),
    decreases f, 5nat, nested.len(),
{
    if nested.len() > 0 {
        let scope = ix.scope_of(nested[0]);
        lemma_scope(ix, l, scope, parent, f);
        invariants::lemma_place_scope(ix, true, l, scope, parent, f);
        let n = model::place_scope(ix, true, l, scope, parent, f)->0;
        invariants::lemma_cluster_kept(ix, l, n, parent);
        lemma_header(ix, n, nested[0], parent, f);
        invariants::lemma_place_header(ix, true, n, nested[0], parent, f);
        let o = model::place_header(ix, true, n, nested[0], parent, f)->0.layout;
        invariants::lemma_cluster_kept(ix, n, o, parent);
        lemma_branches(ix, o, nested.drop_first(), parent, f);
    }
}

/// Showing calls only adds to the graph: an index that can be laid out with calls
/// can be laid out without them, and that layout is the one with calls, less the
/// nodes of calls and the edges that leave these, the other nodes numbered anew
/// in their order.
pub proof fn showing_calls_only_adds(ix: IndexView)
    requires
        ix.edges_known(),
        model::has_layout(ix, true),
    ensures
        model::has_layout(ix, false),
        model::layout_of(ix, false) == hidden(model::layout_of(ix, true)),
{
    let f = choose|f: nat| model::layout(ix, true, f) is Some;
    let scopes = tops::top_scopes(ix);
    let l = Layout::empty();
    assert forall|i: int| 0 <= i < scopes.len() implies tops::top_scopes(ix).contains(
        #[trigger] scopes[i],
    ) by {}
    lemma_scopes(ix, l, scopes, None, f);
    assert(hidden(l) =~= l);
    fuel::layout_is_unique(ix, true, f);
    fuel::layout_is_unique(ix, false, f);
}

} // verus!
