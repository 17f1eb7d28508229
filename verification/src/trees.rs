//! What grows from different top-level scopes stays apart.
//!
//! Scopes are coloured so that a nested edge joins scopes of one colour. Then a
//! header, all that is laid out as part of it, its calls, and the edges between
//! these have one colour.
use vstd::prelude::*;
use crate::cycles;
use crate::graph::{Edge, KindView, NodeView};
use crate::ids;
use crate::ids::{ClusterId, NodeId};
use crate::index::{Hid, IndexView, ScopeId};
use crate::laws;
use crate::memory;
use crate::merge;
use crate::model;
use crate::model::{Layout, Placed, Shape};
use crate::tops;

verus! {

broadcast use {ids::lemma_node_id, ids::lemma_node_nth};

/// The header that a node stands for, or whose call it stands for.
pub open spec fn subject(kind: KindView) -> Hid {
    match kind {
        KindView::Header(hid, _) => hid,
        KindView::Decision(hid, _) => hid,
        KindView::Call { header, .. } => header,
    }
}

/// The scope that a node belongs to: that of its header.
pub open spec fn node_scope(ix: IndexView, node: NodeView) -> ScopeId {
    ix.scope_of(subject(node.kind))
}

/// Whether `color` is the same for the two ends of every nested edge.
pub open spec fn joins_colors<C>(ix: IndexView, color: spec_fn(ScopeId) -> C) -> bool {
    forall|s: ScopeId, t: ScopeId| #[trigger]
        cycles::leads_into(ix, s, t) ==> color(s) == color(t)
}

/// Whether headers have the colour of what they are laid out as part of.
spec fn colored<C>(ix: IndexView, color: spec_fn(ScopeId) -> C) -> bool {
    &&& forall|p: Hid, c: Hid| #[trigger]
        ix.md_children(p).contains(c) ==> color(ix.scope_of(c)) == color(ix.scope_of(p))
    &&& forall|p: Hid, c: Hid| #[trigger]
        ix.nested_children(p).contains(c) ==> color(ix.scope_of(c)) == color(ix.scope_of(p))
    &&& forall|s: ScopeId, c: Hid| #[trigger]
        ix.scope_items(s).contains(c) ==> color(ix.scope_of(c)) == color(s)
}

proof fn lemma_colored<C>(ix: IndexView, color: spec_fn(ScopeId) -> C)
    requires
        laws::numbers_differ(ix),
        joins_colors(ix, color),
    ensures
        colored(ix, color),
{
    assert forall|p: Hid, c: Hid| #[trigger] ix.md_children(p).contains(c) implies color(
        ix.scope_of(c),
    ) == color(ix.scope_of(p)) by {
        laws::md_children_share_the_scope(ix, p, c);
    }
    assert forall|p: Hid, c: Hid| #[trigger] ix.nested_children(p).contains(c) implies color(
        ix.scope_of(c),
    ) == color(ix.scope_of(p)) by {
        cycles::lemma_nested_leads(ix, p, c);
    }
    assert forall|s: ScopeId, c: Hid| #[trigger] ix.scope_items(s).contains(c) implies color(
        ix.scope_of(c),
    ) == color(s) by {
        laws::items_stand_in_their_scope(ix, s, c);
    }
}

/// Whether a node of the layout has a colour.
spec fn has_color<C>(
    ix: IndexView,
    color: spec_fn(ScopeId) -> C,
    l: Layout,
    id: NodeId,
    c: C,
) -> bool {
    id@ < l.nodes.len() && color(node_scope(ix, l.nodes[id@ as int])) == c
}

spec fn have_color<C>(
    ix: IndexView,
    color: spec_fn(ScopeId) -> C,
    l: Layout,
    ids: Seq<NodeId>,
    c: C,
) -> bool {
    forall|i: int| 0 <= i < ids.len() ==> has_color(ix, color, l, #[trigger] ids[i], c)
}

/// Whether edges join nodes of one colour, and headers are entered and left at
/// nodes of their colour, as are their calls.
spec fn tinted<C>(ix: IndexView, color: spec_fn(ScopeId) -> C, l: Layout) -> bool {
    &&& forall|i: int|
        0 <= i < l.edges.len() ==> joins_one_color(ix, color, l, #[trigger] l.edges[i])
    &&& forall|h: Hid| #[trigger]
        l.entry.contains_key(h) ==> has_color(ix, color, l, l.entry[h], color(ix.scope_of(h)))
    &&& forall|h: Hid| #[trigger]
        l.exits.contains_key(h) ==> have_color(ix, color, l, l.exits[h], color(ix.scope_of(h)))
    &&& forall|k: (Hid, Seq<char>)| #[trigger]
        l.calls.contains_key(k) ==> has_color(ix, color, l, l.calls[k], color(ix.scope_of(k.0)))
}

spec fn joins_one_color<C>(
    ix: IndexView,
    color: spec_fn(ScopeId) -> C,
    l: Layout,
    e: Edge,
) -> bool {
    &&& e.from@ < l.nodes.len()
    &&& e.to@ < l.nodes.len()
    &&& color(node_scope(ix, l.nodes[e.from@ as int])) == color(
        node_scope(ix, l.nodes[e.to@ as int]),
    )
}

/// Whether `m` adds to `l` nodes of one colour only.
spec fn adds<C>(
    ix: IndexView,
    color: spec_fn(ScopeId) -> C,
    l: Layout,
    m: Layout,
    c: C,
) -> bool {
    &&& l.nodes.len() <= m.nodes.len()
    &&& forall|i: int| 0 <= i < l.nodes.len() ==> #[trigger] m.nodes[i] == l.nodes[i]
    &&& forall|i: int|
        l.nodes.len() <= i < m.nodes.len() ==> color(node_scope(ix, #[trigger] m.nodes[i])) == c
    &&& tinted(ix, color, m)
}

proof fn lemma_chain<C>(
    ix: IndexView,
    color: spec_fn(ScopeId) -> C,
    a: Layout,
    b: Layout,
    d: Layout,
    c: C,
)
    requires
        adds(ix, color, a, b, c),
        adds(ix, color, b, d, c),
    ensures
        adds(ix, color, a, d, c),
{
    assert forall|i: int| 0 <= i < a.nodes.len() implies #[trigger] d.nodes[i] == a.nodes[i] by {
        assert(b.nodes[i] == a.nodes[i]);
    }
    assert forall|i: int| a.nodes.len() <= i < d.nodes.len() implies color(
        node_scope(ix, #[trigger] d.nodes[i]),
    ) == c by {
        if i < b.nodes.len() {
            assert(d.nodes[i] == b.nodes[i]);
        }
    }
}

proof fn lemma_kept<C>(
    ix: IndexView,
    color: spec_fn(ScopeId) -> C,
    l: Layout,
    m: Layout,
    ids: Seq<NodeId>,
    c: C,
    d: C,
)
    requires
        adds(ix, color, l, m, c),
        have_color(ix, color, l, ids, d),
    ensures
        have_color(ix, color, m, ids, d),
{
    assert forall|i: int| 0 <= i < ids.len() implies has_color(
        ix,
        color,
        m,
        #[trigger] ids[i],
        d,
    ) by {
        assert(has_color(ix, color, l, ids[i], d));
        assert(m.nodes[ids[i]@ as int] == l.nodes[ids[i]@ as int]);
    }
}

proof fn lemma_link<C>(
    ix: IndexView,
    color: spec_fn(ScopeId) -> C,
    l: Layout,
    edges: Seq<Edge>,
    c: C,
)
    requires
        tinted(ix, color, l),
        forall|i: int| 0 <= i < edges.len() ==> joins_one_color(ix, color, l, #[trigger] edges[i]),
    ensures
        adds(ix, color, l, l.link(edges), c),
{
    let m = l.link(edges);
    lemma_grown(ix, color, l, m);
    assert forall|i: int| 0 <= i < m.edges.len() implies joins_one_color(
        ix,
        color,
        m,
        #[trigger] m.edges[i],
    ) by {
        if i < l.edges.len() {
            assert(joins_one_color(ix, color, l, l.edges[i]));
        } else {
            assert(joins_one_color(ix, color, l, edges[i - l.edges.len()]));
        }
    }
}

/// What has a colour keeps it as nodes are added.
proof fn lemma_grown<C>(ix: IndexView, color: spec_fn(ScopeId) -> C, l: Layout, m: Layout)
    requires
        l.nodes.is_prefix_of(m.nodes),
    ensures
        forall|e: Edge| joins_one_color(ix, color, l, e) ==> #[trigger] joins_one_color(
            ix,
            color,
            m,
            e,
        ),
        forall|id: NodeId, c: C| has_color(ix, color, l, id, c) ==> #[trigger] has_color(
            ix,
            color,
            m,
            id,
            c,
        ),
        forall|ids: Seq<NodeId>, c: C|
            have_color(ix, color, l, ids, c) ==> #[trigger] have_color(ix, color, m, ids, c),
{
    assert forall|id: NodeId, c: C| has_color(ix, color, l, id, c) implies #[trigger] has_color(
        ix,
        color,
        m,
        id,
        c,
    ) by {
        assert(m.nodes[id@ as int] == l.nodes[id@ as int]);
    }
    assert forall|e: Edge| joins_one_color(ix, color, l, e) implies #[trigger] joins_one_color(
        ix,
        color,
        m,
        e,
    ) by {
        assert(m.nodes[e.from@ as int] == l.nodes[e.from@ as int]);
        assert(m.nodes[e.to@ as int] == l.nodes[e.to@ as int]);
    }
}

/// Adding a node keeps what is coloured, and gives the node its colour.
proof fn lemma_add_node<C>(
    ix: IndexView,
    color: spec_fn(ScopeId) -> C,
    l: Layout,
    label: Seq<char>,
    kind: KindView,
    cluster: Option<ClusterId>,
)
    requires
        tinted(ix, color, l),
        l.add_node(label, kind, cluster) is Some,
    ensures
        adds(
            ix,
            color,
            l,
            l.add_node(label, kind, cluster)->0,
            color(ix.scope_of(subject(kind))),
        ),
        has_color(
            ix,
            color,
            l.add_node(label, kind, cluster)->0,
            l.next_node(),
            color(ix.scope_of(subject(kind))),
        ),
{
    let m = l.add_node(label, kind, cluster)->0;
    assert(l.nodes =~= m.nodes.subrange(0, l.nodes.len() as int));
    lemma_grown(ix, color, l, m);
}

/// A layout with other clusters or scopes is coloured alike.
proof fn lemma_alike<C>(ix: IndexView, color: spec_fn(ScopeId) -> C, l: Layout, m: Layout, c: C)
    requires
        tinted(ix, color, l),
        m == (Layout { clusters: m.clusters, spans: m.spans, visited: m.visited, ..l }),
    ensures
        adds(ix, color, l, m, c),
{
    lemma_grown(ix, color, l, m);
}

proof fn lemma_set_entry<C>(
    ix: IndexView,
    color: spec_fn(ScopeId) -> C,
    l: Layout,
    hid: Hid,
    id: NodeId,
)
    requires
        tinted(ix, color, l),
        has_color(ix, color, l, id, color(ix.scope_of(hid))),
    ensures
        adds(ix, color, l, l.set_entry(hid, id), color(ix.scope_of(hid))),
{
    let m = l.set_entry(hid, id);
    lemma_grown(ix, color, l, m);
    assert forall|h: Hid| #[trigger] m.entry.contains_key(h) implies has_color(
        ix,
        color,
        m,
        m.entry[h],
        color(ix.scope_of(h)),
    ) by {
        if h != hid {
            assert(l.entry.contains_key(h));
        }
    }
}

proof fn lemma_set_exits<C>(
    ix: IndexView,
    color: spec_fn(ScopeId) -> C,
    l: Layout,
    hid: Hid,
    exits: Seq<NodeId>,
)
    requires
        tinted(ix, color, l),
        have_color(ix, color, l, exits, color(ix.scope_of(hid))),
    ensures
        adds(ix, color, l, l.set_exits(hid, exits), color(ix.scope_of(hid))),
        have_color(ix, color, l.set_exits(hid, exits), exits, color(ix.scope_of(hid))),
{
    let m = l.set_exits(hid, exits);
    lemma_grown(ix, color, l, m);
    assert forall|h: Hid| #[trigger] m.exits.contains_key(h) implies have_color(
        ix,
        color,
        m,
        m.exits[h],
        color(ix.scope_of(h)),
    ) by {
        if h != hid {
            assert(l.exits.contains_key(h));
        }
    }
}

proof fn lemma_place_node<C>(
    ix: IndexView,
    color: spec_fn(ScopeId) -> C,
    l: Layout,
    hid: Hid,
    decision: bool,
    cluster: Option<ClusterId>,
)
    requires
        tinted(ix, color, l),
        l.place_node(ix.header(hid)->0, hid, decision, cluster) is Some,
    ensures
        ({
            let m = l.place_node(ix.header(hid)->0, hid, decision, cluster)->0;
            &&& adds(ix, color, l, m, color(ix.scope_of(hid)))
            &&& has_color(ix, color, m, l.next_node(), color(ix.scope_of(hid)))
        }),
{
    let h = ix.header(hid)->0;
    let c = color(ix.scope_of(hid));
    let kind = if decision {
        KindView::Decision(hid, Some(h.span))
    } else {
        KindView::Header(hid, Some(h.span))
    };
    lemma_add_node(ix, color, l, h.title, kind, cluster);
    let n = l.add_node(h.title, kind, cluster)->0;
    lemma_set_entry(ix, color, n, hid, l.next_node());
    let o = n.set_entry(hid, l.next_node());
    let m = l.place_node(h, hid, decision, cluster)->0;
    lemma_alike(ix, color, o, m, c);
    lemma_chain(ix, color, l, n, o, c);
    lemma_chain(ix, color, l, o, m, c);
}

proof fn lemma_call<C>(
    ix: IndexView,
    color: spec_fn(ScopeId) -> C,
    l: Layout,
    hid: Hid,
    callee: Seq<char>,
    rep: NodeId,
    cluster: Option<ClusterId>,
)
    requires
        tinted(ix, color, l),
        has_color(ix, color, l, rep, color(ix.scope_of(hid))),
        model::place_call(l, hid, callee, rep, cluster) is Some,
    ensures
        adds(
            ix,
            color,
            l,
            model::place_call(l, hid, callee, rep, cluster)->0,
            color(ix.scope_of(hid)),
        ),
{
    let c = color(ix.scope_of(hid));
    let key = (hid, callee);
    let m = model::place_call(l, hid, callee, rep, cluster)->0;
    if l.calls.contains_key(key) {
        lemma_link(ix, color, l, seq![Edge { from: l.calls[key], to: rep }], c);
    } else {
        let kind = KindView::Call { header: hid, callee };
        lemma_add_node(ix, color, l, callee, kind, cluster);
        let n = l.add_node(callee, kind, cluster)->0;
        assert(n.nodes[rep@ as int] == l.nodes[rep@ as int]);
        let e = Edge { from: l.next_node(), to: rep };
        lemma_link(ix, color, n, seq![e], c);
        let o = n.link(seq![e]);
        lemma_chain(ix, color, l, n, o, c);
        lemma_grown(ix, color, o, m);
        assert forall|k: (Hid, Seq<char>)| #[trigger] m.calls.contains_key(k) implies has_color(
            ix,
            color,
            m,
            m.calls[k],
            color(ix.scope_of(k.0)),
        ) by {
            if k != key {
                assert(o.calls.contains_key(k));
            }
        }
        assert forall|i: int| 0 <= i < l.nodes.len() implies #[trigger] m.nodes[i]
            == l.nodes[i] by {
            assert(o.nodes[i] == l.nodes[i]);
        }
    }
}

proof fn lemma_calls<C>(
    ix: IndexView,
    color: spec_fn(ScopeId) -> C,
    l: Layout,
    hid: Hid,
    callees: Seq<Seq<char>>,
    rep: NodeId,
    cluster: Option<ClusterId>,
)
    requires
        tinted(ix, color, l),
        has_color(ix, color, l, rep, color(ix.scope_of(hid))),
        model::place_calls(l, hid, callees, rep, cluster) is Some,
    ensures
        adds(
            ix,
            color,
            l,
            model::place_calls(l, hid, callees, rep, cluster)->0,
            color(ix.scope_of(hid)),
        ),
    decreases callees.len(),
{
    let c = color(ix.scope_of(hid));
    if callees.len() == 0 {
        lemma_alike(ix, color, l, l, c);
    } else {
        lemma_call(ix, color, l, hid, callees[0], rep, cluster);
        let n = model::place_call(l, hid, callees[0], rep, cluster)->0;
        assert(n.nodes[rep@ as int] == l.nodes[rep@ as int]);
        lemma_calls(ix, color, n, hid, callees.drop_first(), rep, cluster);
        let m = model::place_calls(n, hid, callees.drop_first(), rep, cluster)->0;
        lemma_chain(ix, color, l, n, m, c);
    }
}

proof fn lemma_show_calls<C>(
    ix: IndexView,
    color: spec_fn(ScopeId) -> C,
    show: bool,
    l: Layout,
    hid: Hid,
    rep: NodeId,
    cluster: Option<ClusterId>,
)
    requires
        tinted(ix, color, l),
        has_color(ix, color, l, rep, color(ix.scope_of(hid))),
        model::show_calls(ix, show, l, hid, rep, cluster) is Some,
    ensures
        adds(
            ix,
            color,
            l,
            model::show_calls(ix, show, l, hid, rep, cluster)->0,
            color(ix.scope_of(hid)),
        ),
{
    if show {
        lemma_calls(ix, color, l, hid, ix.calls(hid), rep, cluster);
    } else {
        lemma_alike(ix, color, l, l, color(ix.scope_of(hid)));
    }
}

/// Whether headers stand in scopes of one colour.
spec fn of_color<C>(ix: IndexView, color: spec_fn(ScopeId) -> C, hids: Seq<Hid>, c: C) -> bool {
    forall|i: int| 0 <= i < hids.len() ==> color(ix.scope_of(#[trigger] hids[i])) == c
}

proof fn lemma_rest_of_color<C>(
    ix: IndexView,
    color: spec_fn(ScopeId) -> C,
    hids: Seq<Hid>,
    c: C,
)
    requires
        of_color(ix, color, hids, c),
        hids.len() > 0,
    ensures
        color(ix.scope_of(hids[0])) == c,
        of_color(ix, color, hids.drop_first(), c),
{
    let rest = hids.drop_first();
    assert forall|i: int| 0 <= i < rest.len() implies color(ix.scope_of(#[trigger] rest[i]))
        == c by {
        assert(rest[i] == hids[i + 1]);
    }
}

proof fn lemma_calls_of_all<C>(
    ix: IndexView,
    color: spec_fn(ScopeId) -> C,
    l: Layout,
    hids: Seq<Hid>,
    cluster: Option<ClusterId>,
    c: C,
)
    requires
        tinted(ix, color, l),
        of_color(ix, color, hids, c),
        l.all_entered(hids),
        model::show_calls_of_all(ix, l, hids, cluster) is Some,
    ensures
        adds(ix, color, l, model::show_calls_of_all(ix, l, hids, cluster)->0, c),
        model::show_calls_of_all(ix, l, hids, cluster)->0.entry == l.entry,
    decreases hids.len(),
{
    if hids.len() == 0 {
        lemma_alike(ix, color, l, l, c);
    } else {
        let (hid, rest) = (hids[0], hids.drop_first());
        lemma_rest_of_color(ix, color, hids, c);
        assert(l.entry.contains_key(hid));
        lemma_calls(ix, color, l, hid, ix.calls(hid), l.entry[hid], cluster);
        memory::lemma_calls(l, hid, ix.calls(hid), l.entry[hid], cluster);
        let n = model::place_calls(l, hid, ix.calls(hid), l.entry[hid], cluster)->0;
        assert forall|i: int| 0 <= i < rest.len() implies n.entry.contains_key(
            #[trigger] rest[i],
        ) by {
            assert(rest[i] == hids[i + 1]);
        }
        lemma_calls_of_all(ix, color, n, rest, cluster, c);
        lemma_chain(
            ix,
            color,
            l,
            n,
            model::show_calls_of_all(ix, n, rest, cluster)->0,
            c,
        );
    }
}

proof fn lemma_entries<C>(
    ix: IndexView,
    color: spec_fn(ScopeId) -> C,
    l: Layout,
    hids: Seq<Hid>,
    c: C,
)
    requires
        tinted(ix, color, l),
        of_color(ix, color, hids, c),
        l.all_entered(hids),
    ensures
        have_color(ix, color, l, l.entries(hids), c),
{
    assert forall|i: int| 0 <= i < hids.len() implies has_color(
        ix,
        color,
        l,
        #[trigger] l.entries(hids)[i],
        c,
    ) by {
        assert(l.entry.contains_key(hids[i]));
    }
}

proof fn lemma_exits_of<C>(
    ix: IndexView,
    color: spec_fn(ScopeId) -> C,
    l: Layout,
    hids: Seq<Hid>,
    c: C,
)
    requires
        tinted(ix, color, l),
        of_color(ix, color, hids, c),
        l.all_left(hids),
    ensures
        have_color(ix, color, l, l.exits_of(hids), c),
    decreases hids.len(),
{
    let f = |hid: Hid| l.exits[hid];
    if hids.len() > 0 {
        let rest = hids.drop_first();
        lemma_rest_of_color(ix, color, hids, c);
        assert forall|i: int| 0 <= i < rest.len() implies l.exits.contains_key(
            #[trigger] rest[i],
        ) by {
            assert(rest[i] == hids[i + 1]);
        }
        lemma_exits_of(ix, color, l, rest, c);
        assert(l.exits.contains_key(hids[0]));
        assert(hids.map_values(f).drop_first() =~= rest.map_values(f));
        let (first, others) = (l.exits[hids[0]], l.exits_of(rest));
        assert(l.exits_of(hids) =~= first + others);
        assert forall|i: int| 0 <= i < (first + others).len() implies has_color(
            ix,
            color,
            l,
            #[trigger] (first + others)[i],
            c,
        ) by {
            if i < first.len() {
                assert(has_color(ix, color, l, first[i], c));
            } else {
                assert(has_color(ix, color, l, others[i - first.len()], c));
            }
        }
    }
}

proof fn lemma_edges_into<C>(
    ix: IndexView,
    color: spec_fn(ScopeId) -> C,
    l: Layout,
    froms: Seq<NodeId>,
    to: NodeId,
    c: C,
)
    requires
        tinted(ix, color, l),
        have_color(ix, color, l, froms, c),
        has_color(ix, color, l, to, c),
    ensures
        adds(ix, color, l, l.link(model::edges_into(froms, to)), c),
{
    let edges = model::edges_into(froms, to);
    assert forall|i: int| 0 <= i < edges.len() implies joins_one_color(
        ix,
        color,
        l,
        #[trigger] edges[i],
    ) by {
        assert(has_color(ix, color, l, froms[i], c));
    }
    lemma_link(ix, color, l, edges, c);
}

proof fn lemma_close_branch<C>(
    ix: IndexView,
    color: spec_fn(ScopeId) -> C,
    show: bool,
    l: Layout,
    hid: Hid,
    decision: NodeId,
    cluster: ClusterId,
)
    requires
        colored(ix, color),
        tinted(ix, color, l),
        has_color(ix, color, l, decision, color(ix.scope_of(hid))),
        model::close_branch(ix, show, l, hid, decision, cluster) is Some,
    ensures
        ({
            let p = model::close_branch(ix, show, l, hid, decision, cluster)->0;
            let c = color(ix.scope_of(hid));
            &&& adds(ix, color, l, p.layout, c)
            &&& has_color(ix, color, p.layout, p.entry, c)
            &&& have_color(ix, color, p.layout, p.exits, c)
        }),
{
    let c = color(ix.scope_of(hid));
    let md = ix.md_children(hid);
    let nested = ix.nested_children(hid);
    lemma_children(ix, color, hid);
    let out = model::edges_out_of(decision, l.entries(nested));
    lemma_entries(ix, color, l, nested, c);
    assert forall|i: int| 0 <= i < out.len() implies joins_one_color(
        ix,
        color,
        l,
        #[trigger] out[i],
    ) by {
        assert(has_color(ix, color, l, l.entries(nested)[i], c));
    }
    lemma_link(ix, color, l, out, c);
    let linked = l.link(out);
    let m = if show {
        lemma_calls_of_all(ix, color, linked, nested, Some(cluster), c);
        model::show_calls_of_all(ix, linked, nested, Some(cluster))->0
    } else {
        lemma_alike(ix, color, linked, linked, c);
        linked
    };
    lemma_chain(ix, color, l, linked, m, c);
    let branch_exits = m.exits_of(nested);
    let steps = m.entries(md);
    lemma_exits_of(ix, color, m, nested, c);
    lemma_entries(ix, color, m, md, c);
    assert(m.nodes[decision@ as int] == l.nodes[decision@ as int]);
    let into_first = if steps.len() == 0 {
        seq![]
    } else if branch_exits.len() == 0 {
        seq![Edge { from: decision, to: steps[0] }]
    } else {
        model::edges_into(branch_exits, steps[0])
    };
    if steps.len() > 0 {
        assert(has_color(ix, color, m, steps[0], c));
    }
    assert forall|i: int| 0 <= i < into_first.len() implies joins_one_color(
        ix,
        color,
        m,
        #[trigger] into_first[i],
    ) by {
        if branch_exits.len() > 0 {
            assert(has_color(ix, color, m, branch_exits[i], c));
        }
    }
    lemma_link(ix, color, m, into_first, c);
    let m1 = m.link(into_first);
    let along = model::edges_along(steps);
    assert forall|i: int| 0 <= i < along.len() implies joins_one_color(
        ix,
        color,
        m1,
        #[trigger] along[i],
    ) by {
        assert(has_color(ix, color, m, steps[i], c));
        assert(has_color(ix, color, m, steps[i + 1], c));
    }
    lemma_link(ix, color, m1, along, c);
    let m2 = m1.link(along);
    lemma_chain(ix, color, m, m1, m2, c);
    let exits = if steps.len() == 0 {
        branch_exits
    } else {
        seq![steps.last()]
    };
    assert(have_color(ix, color, m, exits, c)) by {
        if steps.len() > 0 {
            assert(has_color(ix, color, m, steps[steps.len() - 1], c));
        }
    }
    lemma_kept(ix, color, m, m2, exits, c, c);
    lemma_set_exits(ix, color, m2, hid, exits);
    let o = m2.set_exits(hid, exits);
    lemma_chain(ix, color, l, m, m2, c);
    lemma_chain(ix, color, l, m2, o, c);
    assert(o.nodes[decision@ as int] == l.nodes[decision@ as int]);
}

/// The children of a header have its colour, as have the scopes that they open.
proof fn lemma_children<C>(ix: IndexView, color: spec_fn(ScopeId) -> C, hid: Hid)
    requires
        colored(ix, color),
    ensures
        of_color(ix, color, ix.md_children(hid), color(ix.scope_of(hid))),
        of_color(ix, color, ix.nested_children(hid), color(ix.scope_of(hid))),
        of_color(ix, color, model::children(ix, hid), color(ix.scope_of(hid))),
{
    let md = ix.md_children(hid);
    let nested = ix.nested_children(hid);
    let all = model::children(ix, hid);
    let c = color(ix.scope_of(hid));
    assert forall|i: int| 0 <= i < md.len() implies color(ix.scope_of(#[trigger] md[i])) == c by {
        assert(md.contains(md[i]));
    }
    assert forall|i: int| 0 <= i < nested.len() implies color(ix.scope_of(#[trigger] nested[i]))
        == c by {
        assert(nested.contains(nested[i]));
    }
    assert forall|i: int| 0 <= i < all.len() implies color(ix.scope_of(#[trigger] all[i])) == c by {
        merge::lemma_merged_member(merge::spans_of(ix), md, nested, i);
    }
}

/// The header by which a child is left has the colour of the child.
proof fn lemma_leaves_by<C>(
    ix: IndexView,
    color: spec_fn(ScopeId) -> C,
    l: Layout,
    nested: Seq<Hid>,
    child: Hid,
)
    requires
        colored(ix, color),
    ensures
        color(ix.scope_of(model::leaves_by(ix, l, nested, child))) == color(ix.scope_of(child)),
{
    let items = ix.scope_items(ix.scope_of(child));
    if items.len() > 0 {
        assert(items.contains(items.last()));
    }
}

proof fn lemma_chain_children<C>(
    ix: IndexView,
    color: spec_fn(ScopeId) -> C,
    l: Layout,
    nested: Seq<Hid>,
    rest: Seq<Hid>,
    prev: Hid,
    c: C,
)
    requires
        colored(ix, color),
        tinted(ix, color, l),
        of_color(ix, color, rest, c),
        color(ix.scope_of(prev)) == c,
        model::chain_children(ix, l, nested, rest, prev) is Some,
    ensures
        ({
            let (m, last) = model::chain_children(ix, l, nested, rest, prev)->0;
            &&& adds(ix, color, l, m, c)
            &&& color(ix.scope_of(last)) == c
        }),
    decreases rest.len(),
{
    if rest.len() == 0 {
        lemma_alike(ix, color, l, l, c);
    } else {
        lemma_rest_of_color(ix, color, rest, c);
        assert(l.exits.contains_key(prev));
        assert(l.entry.contains_key(rest[0]));
        lemma_edges_into(ix, color, l, l.exits[prev], l.entry[rest[0]], c);
        let n = l.link(model::edges_into(l.exits[prev], l.entry[rest[0]]));
        let next = model::leaves_by(ix, l, nested, rest[0]);
        lemma_leaves_by(ix, color, l, nested, rest[0]);
        lemma_chain_children(ix, color, n, nested, rest.drop_first(), next, c);
        let (m, last) = model::chain_children(ix, n, nested, rest.drop_first(), next)->0;
        lemma_chain(ix, color, l, n, m, c);
    }
}

proof fn lemma_close_container<C>(
    ix: IndexView,
    color: spec_fn(ScopeId) -> C,
    l: Layout,
    hid: Hid,
)
    requires
        colored(ix, color),
        tinted(ix, color, l),
        ix.md_children(hid).len() + ix.nested_children(hid).len() > 0,
        model::close_container(ix, l, hid) is Some,
    ensures
        ({
            let p = model::close_container(ix, l, hid)->0;
            let c = color(ix.scope_of(hid));
            &&& adds(ix, color, l, p.layout, c)
            &&& has_color(ix, color, p.layout, p.entry, c)
            &&& have_color(ix, color, p.layout, p.exits, c)
        }),
{
    let c = color(ix.scope_of(hid));
    let nested = ix.nested_children(hid);
    let all = model::children(ix, hid);
    lemma_children(ix, color, hid);
    assert(all.len() > 0);
    lemma_rest_of_color(ix, color, all, c);
    let first = l.entry[all[0]];
    assert(l.entry.contains_key(all[0]));
    assert(has_color(ix, color, l, first, c));
    let from = model::leaves_by(ix, l, nested, all[0]);
    lemma_leaves_by(ix, color, l, nested, all[0]);
    lemma_chain_children(ix, color, l, nested, all.drop_first(), from, c);
    let (m, last) = model::chain_children(ix, l, nested, all.drop_first(), from)->0;
    assert(m.exits.contains_key(last));
    let exits = m.exits[last];
    assert(m.nodes[first@ as int] == l.nodes[first@ as int]);
    lemma_set_entry(ix, color, m, hid, first);
    let n = m.set_entry(hid, first);
    lemma_kept(ix, color, m, n, exits, c, c);
    lemma_set_exits(ix, color, n, hid, exits);
    let o = n.set_exits(hid, exits);
    lemma_chain(ix, color, l, m, n, c);
    lemma_chain(ix, color, l, n, o, c);
    assert(o.nodes[first@ as int] == l.nodes[first@ as int]);
}

/// A header adds nodes of its colour, and is entered and left at such nodes.
spec fn places<C>(
    ix: IndexView,
    color: spec_fn(ScopeId) -> C,
    l: Layout,
    p: Placed,
    c: C,
) -> bool {
    &&& adds(ix, color, l, p.layout, c)
    &&& has_color(ix, color, p.layout, p.entry, c)
    &&& have_color(ix, color, p.layout, p.exits, c)
}

proof fn lemma_header<C>(
    ix: IndexView,
    color: spec_fn(ScopeId) -> C,
    show: bool,
    l: Layout,
    hid: Hid,
    parent: Option<ClusterId>,
    f: nat,
)
    requires
        colored(ix, color),
        tinted(ix, color, l),
        model::place_header(ix, show, l, hid, parent, f) is Some,
    ensures
        places(
            ix,
            color,
            l,
            model::place_header(ix, show, l, hid, parent, f)->0,
            color(ix.scope_of(hid)),
        ),
    decreases f, 2nat, 0nat,
{
    let c = color(ix.scope_of(hid));
    let h = ix.header(hid)->0;
    let md = ix.md_children(hid);
    let nested = ix.nested_children(hid);
    let p = model::place_header(ix, show, l, hid, parent, f)->0;
    if l.entry.contains_key(hid) {
        lemma_alike(ix, color, l, l, c);
    } else {
        let below = (f - 1) as nat;
        lemma_children(ix, color, hid);
        match model::shape(ix, hid, parent) {
            Shape::Leaf => {
                let node = l.next_node();
                lemma_place_node(ix, color, l, hid, false, parent);
                let l1 = l.place_node(h, hid, false, parent)->0;
                assert(have_color(ix, color, l1, seq![node], c));
                lemma_set_exits(ix, color, l1, hid, seq![node]);
                let l2 = l1.set_exits(hid, seq![node]);
                lemma_chain(ix, color, l, l1, l2, c);
                lemma_show_calls(ix, color, show, l2, hid, node, parent);
                lemma_chain(ix, color, l, l2, p.layout, c);
                lemma_kept(ix, color, l2, p.layout, seq![node], c, c);
                assert(has_color(ix, color, p.layout, seq![node][0], c));
            },
            Shape::Branch => {
                let cluster = l.next_cluster();
                let decision = l.next_node();
                let l1 = l.add_cluster(h.title, parent)->0;
                lemma_alike(ix, color, l, l1, c);
                lemma_place_node(ix, color, l1, hid, true, Some(cluster));
                let l2 = l1.place_node(h, hid, true, Some(cluster))->0;
                lemma_chain(ix, color, l, l1, l2, c);
                lemma_show_calls(ix, color, show, l2, hid, decision, Some(cluster));
                let l3 = model::show_calls(ix, show, l2, hid, decision, Some(cluster))->0;
                lemma_branches(ix, color, show, l3, nested, Some(cluster), below, c);
                let l4 = model::place_branches(ix, show, l3, nested, Some(cluster), below)->0;
                lemma_headers(ix, color, show, l4, md, Some(cluster), below, c);
                let l5 = model::place_headers(ix, show, l4, md, Some(cluster), below)->0;
                lemma_chain(ix, color, l2, l3, l4, c);
                lemma_chain(ix, color, l2, l4, l5, c);
                lemma_chain(ix, color, l, l2, l5, c);
                assert(l5.nodes[decision@ as int] == l2.nodes[decision@ as int]);
                lemma_close_branch(ix, color, show, l5, hid, decision, cluster);
                lemma_chain(ix, color, l, l5, p.layout, c);
            },
            Shape::Flat => {
                let node = l.next_node();
                lemma_place_node(ix, color, l, hid, false, parent);
                let l1 = l.place_node(h, hid, false, parent)->0;
                let (l2, child) = if md.len() == 1 {
                    lemma_headers(ix, color, show, l1, md, parent, below, c);
                    (model::place_headers(ix, show, l1, md, parent, below)->0, md[0])
                } else {
                    lemma_branches(ix, color, show, l1, nested, parent, below, c);
                    (model::place_branches(ix, show, l1, nested, parent, below)->0, nested[0])
                };
                assert(color(ix.scope_of(child)) == c);
                lemma_chain(ix, color, l, l1, l2, c);
                assert(l2.nodes[node@ as int] == l1.nodes[node@ as int]);
                assert(l2.entry.contains_key(child));
                assert(l2.exits.contains_key(child));
                let e = Edge { from: node, to: l2.entry[child] };
                lemma_link(ix, color, l2, seq![e], c);
                let l3 = l2.link(seq![e]);
                lemma_kept(ix, color, l2, l3, l2.exits[child], c, c);
                lemma_set_exits(ix, color, l3, hid, l2.exits[child]);
                lemma_chain(ix, color, l, l2, l3, c);
                lemma_chain(ix, color, l, l3, p.layout, c);
                assert(p.layout.nodes[node@ as int] == l2.nodes[node@ as int]);
            },
            Shape::Container => {
                let cluster = l.next_cluster();
                let list = model::scopes_of(ix, nested);
                let all = model::children(ix, hid);
                let l1 = l.add_cluster(h.title, parent)->0;
                lemma_alike(ix, color, l, l1, c);
                assert forall|i: int| 0 <= i < list.len() implies color(#[trigger] list[i])
                    == c by {
                    assert(color(ix.scope_of(nested[i])) == c);
                }
                lemma_scopes(ix, color, show, l1, list, Some(cluster), below, c);
                let l2 = model::place_scopes(ix, show, l1, list, Some(cluster), below)->0;
                lemma_headers(ix, color, show, l2, all, Some(cluster), below, c);
                let l3 = model::place_headers(ix, show, l2, all, Some(cluster), below)->0;
                lemma_chain(ix, color, l, l1, l2, c);
                lemma_chain(ix, color, l, l2, l3, c);
                lemma_close_container(ix, color, l3, hid);
                lemma_chain(ix, color, l, l3, p.layout, c);
            },
        }
    }
}

proof fn lemma_headers<C>(
    ix: IndexView,
    color: spec_fn(ScopeId) -> C,
    show: bool,
    l: Layout,
    hids: Seq<Hid>,
    parent: Option<ClusterId>,
    f: nat,
    c: C,
)
    requires
        colored(ix, color),
        tinted(ix, color, l),
        of_color(ix, color, hids, c),
        model::place_headers(ix, show, l, hids, parent, f) is Some,
    ensures
        adds(ix, color, l, model::place_headers(ix, show, l, hids, parent, f)->0, c),
    decreases f, 3nat, hids.len(),
{
    if hids.len() == 0 {
        lemma_alike(ix, color, l, l, c);
    } else {
        let rest = hids.drop_first();
        lemma_rest_of_color(ix, color, hids, c);
        lemma_header(ix, color, show, l, hids[0], parent, f);
        let n = model::place_header(ix, show, l, hids[0], parent, f)->0.layout;
        lemma_headers(ix, color, show, n, rest, parent, f, c);
        let m = model::place_headers(ix, show, n, rest, parent, f)->0;
        lemma_chain(ix, color, l, n, m, c);
    }
}

proof fn lemma_items<C>(
    ix: IndexView,
    color: spec_fn(ScopeId) -> C,
    show: bool,
    l: Layout,
    items: Seq<Hid>,
    prev: Seq<NodeId>,
    parent: Option<ClusterId>,
    f: nat,
    c: C,
)
    requires
        colored(ix, color),
        tinted(ix, color, l),
        of_color(ix, color, items, c),
        have_color(ix, color, l, prev, c),
        model::place_items(ix, show, l, items, prev, parent, f) is Some,
    ensures
        adds(ix, color, l, model::place_items(ix, show, l, items, prev, parent, f)->0, c),
    decreases f, 3nat, items.len(),
{
    if items.len() == 0 {
        lemma_alike(ix, color, l, l, c);
    } else {
        let rest = items.drop_first();
        lemma_rest_of_color(ix, color, items, c);
        lemma_header(ix, color, show, l, items[0], parent, f);
        let p = model::place_header(ix, show, l, items[0], parent, f)->0;
        lemma_kept(ix, color, l, p.layout, prev, c, c);
        lemma_edges_into(ix, color, p.layout, prev, p.entry, c);
        let n = p.layout.link(model::edges_into(prev, p.entry));
        lemma_chain(ix, color, l, p.layout, n, c);
        lemma_kept(ix, color, p.layout, n, p.exits, c, c);
        lemma_items(ix, color, show, n, rest, p.exits, parent, f, c);
        let m = model::place_items(ix, show, n, rest, p.exits, parent, f)->0;
        lemma_chain(ix, color, l, n, m, c);
    }
}

proof fn lemma_scope<C>(
    ix: IndexView,
    color: spec_fn(ScopeId) -> C,
    show: bool,
    l: Layout,
    scope: ScopeId,
    parent: Option<ClusterId>,
    f: nat,
)
    requires
        colored(ix, color),
        tinted(ix, color, l),
        model::place_scope(ix, show, l, scope, parent, f) is Some,
    ensures
        adds(ix, color, l, model::place_scope(ix, show, l, scope, parent, f)->0, color(scope)),
    decreases f, 4nat, 0nat,
{
    let c = color(scope);
    if l.visited.contains(scope) {
        lemma_alike(ix, color, l, l, c);
    } else {
        let v = l.visit(scope);
        let items = ix.scope_items(scope);
        lemma_alike(ix, color, l, v, c);
        assert forall|i: int| 0 <= i < items.len() implies color(ix.scope_of(#[trigger] items[i]))
            == c by {
            assert(items.contains(items[i]));
        }
        lemma_items(ix, color, show, v, items, seq![], parent, f, c);
        let m = model::place_items(ix, show, v, items, seq![], parent, f)->0;
        lemma_chain(ix, color, l, v, m, c);
    }
}

proof fn lemma_scopes<C>(
    ix: IndexView,
    color: spec_fn(ScopeId) -> C,
    show: bool,
    l: Layout,
    scopes: Seq<ScopeId>,
    parent: Option<ClusterId>,
    f: nat,
    c: C,
)
    requires
        colored(ix, color),
        tinted(ix, color, l),
        forall|i: int| 0 <= i < scopes.len() ==> color(#[trigger] scopes[i]) == c,
        model::place_scopes(ix, show, l, scopes, parent, f) is Some,
    ensures
        adds(ix, color, l, model::place_scopes(ix, show, l, scopes, parent, f)->0, c),
    decreases f, 5nat, scopes.len(),
{
    if scopes.len() == 0 {
        lemma_alike(ix, color, l, l, c);
    } else {
        let rest = scopes.drop_first();
        assert(color(scopes[0]) == c);
        assert forall|i: int| 0 <= i < rest.len() implies color(#[trigger] rest[i]) == c by {
            assert(rest[i] == scopes[i + 1]);
        }
        lemma_scope(ix, color, show, l, scopes[0], parent, f);
        let n = model::place_scope(ix, show, l, scopes[0], parent, f)->0;
        lemma_scopes(ix, color, show, n, rest, parent, f, c);
        let m = model::place_scopes(ix, show, n, rest, parent, f)->0;
        lemma_chain(ix, color, l, n, m, c);
    }
}

proof fn lemma_branches<C>(
    ix: IndexView,
    color: spec_fn(ScopeId) -> C,
    show: bool,
    l: Layout,
    nested: Seq<Hid>,
    parent: Option<ClusterId>,
    f: nat,
    c: C,
)
    requires
        colored(ix, color),
        tinted(ix, color, l),
        of_color(ix, color, nested, c),
        model::place_branches(ix, show, l, nested, parent, f) is Some,
    ensures
        adds(ix, color, l, model::place_branches(ix, show, l, nested, parent, f)->0, c),
    decreases f, 5nat, nested.len(),
{
    if nested.len() == 0 {
        lemma_alike(ix, color, l, l, c);
    } else {
        let rest = nested.drop_first();
        let scope = ix.scope_of(nested[0]);
        lemma_rest_of_color(ix, color, nested, c);
        lemma_scope(ix, color, show, l, scope, parent, f);
        let n = model::place_scope(ix, show, l, scope, parent, f)->0;
        lemma_header(ix, color, show, n, nested[0], parent, f);
        let o = model::place_header(ix, show, n, nested[0], parent, f)->0.layout;
        lemma_branches(ix, color, show, o, rest, parent, f, c);
        let m = model::place_branches(ix, show, o, rest, parent, f)->0;
        lemma_chain(ix, color, l, n, o, c);
        lemma_chain(ix, color, l, o, m, c);
    }
}

/// Laying out scopes in turn adds the nodes of each scope behind those of the
/// ones before it.
proof fn lemma_in_turn<C>(
    ix: IndexView,
    color: spec_fn(ScopeId) -> C,
    show: bool,
    l: Layout,
    scopes: Seq<ScopeId>,
    f: nat,
)
    requires
        colored(ix, color),
        tinted(ix, color, l),
        model::place_scopes(ix, show, l, scopes, None, f) is Some,
    ensures
        ({
            let m = model::place_scopes(ix, show, l, scopes, None, f)->0;
            &&& tinted(ix, color, m)
            &&& l.nodes.is_prefix_of(m.nodes)
            &&& forall|a: int|
                l.nodes.len() <= a < m.nodes.len() ==> has_color_among(
                    ix,
                    color,
                    #[trigger] m.nodes[a],
                    scopes,
                )
            &&& forall|i: int, j: int, a: int, b: int|
                0 <= i < j < scopes.len() && l.nodes.len() <= a < m.nodes.len() && l.nodes.len()
                    <= b < m.nodes.len() && color(node_scope(ix, #[trigger] m.nodes[a])) == color(
                    #[trigger] scopes[i],
                ) && color(node_scope(ix, #[trigger] m.nodes[b])) == color(#[trigger] scopes[j])
                    && colors_differ(color, scopes) ==> a < b
        }),
    decreases scopes.len(),
{
    if scopes.len() == 0 {
        lemma_alike(ix, color, l, l, color(0));
        assert(l.nodes =~= l.nodes.subrange(0, l.nodes.len() as int));
    } else {
        let (first, rest) = (scopes[0], scopes.drop_first());
        lemma_scope(ix, color, show, l, first, None, f);
        let n = model::place_scope(ix, show, l, first, None, f)->0;
        lemma_in_turn(ix, color, show, n, rest, f);
        let m = model::place_scopes(ix, show, l, scopes, None, f)->0;
        assert forall|a: int| 0 <= a < n.nodes.len() implies #[trigger] m.nodes[a]
            == n.nodes[a] by {}
        assert(l.nodes =~= m.nodes.subrange(0, l.nodes.len() as int));
        assert forall|a: int| l.nodes.len() <= a < m.nodes.len() implies has_color_among(
            ix,
            color,
            #[trigger] m.nodes[a],
            scopes,
        ) by {
            if a < n.nodes.len() {
                assert(color(node_scope(ix, n.nodes[a])) == color(scopes[0]));
            } else {
                assert(has_color_among(ix, color, m.nodes[a], rest));
                let k = choose|k: int|
                    0 <= k < rest.len() && color(node_scope(ix, m.nodes[a])) == color(
                        #[trigger] rest[k],
                    );
                assert(rest[k] == scopes[k + 1]);
            }
        }
        if colors_differ(color, scopes) {
            assert(colors_differ(color, rest)) by {
                assert forall|i: int, j: int| 0 <= i < j < rest.len() implies color(
                    #[trigger] rest[i],
                ) != color(#[trigger] rest[j]) by {
                    assert(rest[i] == scopes[i + 1] && rest[j] == scopes[j + 1]);
                }
            }
            assert forall|i: int, j: int, a: int, b: int|
                0 <= i < j < scopes.len() && l.nodes.len() <= a < m.nodes.len() && l.nodes.len()
                    <= b < m.nodes.len() && color(node_scope(ix, #[trigger] m.nodes[a])) == color(
                    #[trigger] scopes[i],
                ) && color(node_scope(ix, #[trigger] m.nodes[b])) == color(
                    #[trigger] scopes[j],
                ) implies a < b by {
                if b < n.nodes.len() {
                    assert(color(node_scope(ix, n.nodes[b])) == color(scopes[0]));
                    assert(color(scopes[0]) != color(scopes[j]));
                } else if a >= n.nodes.len() {
                    assert(has_color_among(ix, color, m.nodes[a], rest));
                    let k = choose|k: int|
                        0 <= k < rest.len() && color(node_scope(ix, m.nodes[a])) == color(
                            #[trigger] rest[k],
                        );
                    assert(rest[k] == scopes[k + 1]);
                    if i == 0 {
                        assert(color(scopes[0]) != color(scopes[k + 1]));
                    }
                    assert(rest[i - 1] == scopes[i]);
                    assert(rest[j - 1] == scopes[j]);
                }
            }
        }
    }
}

/// Whether a node has the colour of one of `scopes`.
spec fn has_color_among<C>(
    ix: IndexView,
    color: spec_fn(ScopeId) -> C,
    node: NodeView,
    scopes: Seq<ScopeId>,
) -> bool {
    exists|k: int|
        0 <= k < scopes.len() && color(node_scope(ix, node)) == color(#[trigger] scopes[k])
}

spec fn colors_differ<C>(color: spec_fn(ScopeId) -> C, scopes: Seq<ScopeId>) -> bool {
    forall|i: int, j: int|
        0 <= i < j < scopes.len() ==> color(#[trigger] scopes[i]) != color(#[trigger] scopes[j])
}

proof fn lemma_layout<C>(ix: IndexView, color: spec_fn(ScopeId) -> C, show: bool)
    requires
        laws::numbers_differ(ix),
        joins_colors(ix, color),
        model::has_layout(ix, show),
    ensures
        ({
            let l = model::layout_of(ix, show);
            let scopes = tops::top_scopes(ix);
            &&& tinted(ix, color, l)
            &&& forall|a: int|
                0 <= a < l.nodes.len() ==> has_color_among(
                    ix,
                    color,
                    #[trigger] l.nodes[a],
                    scopes,
                )
            &&& forall|i: int, j: int, a: int, b: int|
                0 <= i < j < scopes.len() && 0 <= a < l.nodes.len() && 0 <= b < l.nodes.len()
                    && color(node_scope(ix, #[trigger] l.nodes[a])) == color(#[trigger] scopes[i])
                    && color(node_scope(ix, #[trigger] l.nodes[b])) == color(#[trigger] scopes[j])
                    && colors_differ(color, scopes) ==> a < b
        }),
{
    let f = choose|f: nat| model::layout(ix, show, f) is Some;
    lemma_colored(ix, color);
    lemma_in_turn(ix, color, show, Layout::empty(), tops::top_scopes(ix), f);
}

/// However scopes are coloured, if the ends of every nested edge have one colour,
/// so have the ends of every edge of the graph.
pub proof fn edges_keep_to_connected_scopes<C>(
    ix: IndexView,
    show: bool,
    color: spec_fn(ScopeId) -> C,
    e: int,
)
    requires
        laws::numbers_differ(ix),
        joins_colors(ix, color),
        model::has_layout(ix, show),
        0 <= e < model::layout_of(ix, show).edges.len(),
    ensures
        ({
            let l = model::layout_of(ix, show);
            &&& l.edges[e].from@ < l.nodes.len()
            &&& l.edges[e].to@ < l.nodes.len()
            &&& color(node_scope(ix, l.nodes[l.edges[e].from@ as int])) == color(
                node_scope(ix, l.nodes[l.edges[e].to@ as int]),
            )
        }),
{
    lemma_layout(ix, color, show);
    let l = model::layout_of(ix, show);
    assert(joins_one_color(ix, color, l, l.edges[e]));
}

/// Whether every scope is entered by at most one nested edge, at its first header.
pub open spec fn entered_once(ix: IndexView) -> bool {
    &&& forall|e: int|
        0 <= e < ix.scope_edges().len() ==> ix.scope_root(
            ix.scope_of((#[trigger] ix.scope_edges()[e]).1),
        ) == ix.scope_edges()[e].1
    &&& forall|e: int, g: int|
        0 <= e < g < ix.scope_edges().len() ==> (#[trigger] ix.scope_edges()[e]).1 != (
        #[trigger] ix.scope_edges()[g]).1
}

/// Whether nested edges lead from the scope `s` to the scope `t`, in any number of
/// steps.
pub open spec fn grows_from(ix: IndexView, s: ScopeId, t: ScopeId) -> bool {
    exists|path: Seq<ScopeId>| #[trigger]
        cycles::is_path(cycles::entrance(ix), path) && path[0] == s && path.last() == t
}

/// The top-level scope that a scope grows from, if there is one.
spec fn home(ix: IndexView, t: ScopeId) -> Option<ScopeId> {
    if exists|s: ScopeId| #[trigger] tops::top_scopes(ix).contains(s) && grows_from(ix, s, t) {
        Some(choose|s: ScopeId| #[trigger] tops::top_scopes(ix).contains(s) && grows_from(ix, s, t))
    } else {
        None
    }
}

proof fn lemma_grows_here(ix: IndexView, s: ScopeId)
    ensures
        grows_from(ix, s, s),
{
    assert(cycles::is_path(cycles::entrance(ix), seq![s]));
}

proof fn lemma_grows_on(ix: IndexView, s: ScopeId, t: ScopeId, u: ScopeId)
    requires
        grows_from(ix, s, t),
        cycles::leads_into(ix, t, u),
    ensures
        grows_from(ix, s, u),
{
    let rel = cycles::entrance(ix);
    let path = choose|path: Seq<ScopeId>| #[trigger]
        cycles::is_path(rel, path) && path[0] == s && path.last() == t;
    let more = path.push(u);
    assert forall|i: int| 0 <= i < more.len() - 1 implies #[trigger] cycles::steps(
        rel,
        more,
        i,
    ) by {
        if i < path.len() - 1 {
            assert(cycles::steps(rel, path, i));
        }
    }
    assert(cycles::is_path(rel, more));
    assert(more[0] == s && more.last() == u);
}

/// A scope that is entered is no top-level scope, and is entered from one scope.
proof fn lemma_one_way(ix: IndexView, t: ScopeId, u: ScopeId, v: ScopeId)
    requires
        entered_once(ix),
        cycles::leads_into(ix, t, u),
    ensures
        !tops::top_scopes(ix).contains(u),
        cycles::leads_into(ix, v, u) ==> v == t,
{
    let es = ix.scope_edges();
    let e = choose|e: int|
        #![trigger ix.scope_edges()[e]]
        0 <= e < es.len() && ix.scope_of(ix.scope_edges()[e].0) == t && ix.scope_of(
            ix.scope_edges()[e].1,
        ) == u;
    tops::top_scopes_are_sorted(ix);
    assert(es[e].1 == ix.scope_root(u));
    assert(ix.is_nested_target(ix.scope_root(u)));
    if cycles::leads_into(ix, v, u) {
        let g = choose|g: int|
            #![trigger ix.scope_edges()[g]]
            0 <= g < es.len() && ix.scope_of(ix.scope_edges()[g].0) == v && ix.scope_of(
                ix.scope_edges()[g].1,
            ) == u;
        assert(es[g].1 == ix.scope_root(u));
        if e < g {
            assert(es[e].1 != es[g].1);
        } else if g < e {
            assert(es[g].1 != es[e].1);
        }
    }
}

/// What a top-level scope grows into is entered from what it grows into.
proof fn lemma_grows_back(ix: IndexView, s: ScopeId, t: ScopeId, u: ScopeId)
    requires
        entered_once(ix),
        tops::top_scopes(ix).contains(s),
        grows_from(ix, s, u),
        cycles::leads_into(ix, t, u),
    ensures
        grows_from(ix, s, t),
{
    let rel = cycles::entrance(ix);
    let path = choose|path: Seq<ScopeId>| #[trigger]
        cycles::is_path(rel, path) && path[0] == s && path.last() == u;
    lemma_one_way(ix, t, u, t);
    let less = path.drop_last();
    assert(path.len() > 1);
    assert(cycles::steps(rel, path, path.len() - 2));
    lemma_one_way(ix, t, u, less.last());
    assert forall|i: int| 0 <= i < less.len() - 1 implies #[trigger] cycles::steps(
        rel,
        less,
        i,
    ) by {
        assert(cycles::steps(rel, path, i));
    }
    assert(cycles::is_path(rel, less));
    assert(less[0] == s && less.last() == t);
}

/// No scope grows from two top-level scopes.
proof fn lemma_one_home(ix: IndexView, s: ScopeId, t: ScopeId, path: Seq<ScopeId>)
    requires
        entered_once(ix),
        tops::top_scopes(ix).contains(s),
        tops::top_scopes(ix).contains(t),
        cycles::is_path(cycles::entrance(ix), path),
        path[0] == s,
        grows_from(ix, t, path.last()),
    ensures
        s == t,
    decreases path.len(),
{
    let rel = cycles::entrance(ix);
    if path.len() == 1 {
        let back = choose|back: Seq<ScopeId>| #[trigger]
            cycles::is_path(rel, back) && back[0] == t && back.last() == s;
        if back.len() > 1 {
            assert(cycles::steps(rel, back, back.len() - 2));
            lemma_one_way(ix, back[back.len() - 2], s, t);
        }
    } else {
        let less = path.drop_last();
        assert(cycles::steps(rel, path, path.len() - 2));
        lemma_grows_back(ix, t, less.last(), path.last());
        assert forall|i: int| 0 <= i < less.len() - 1 implies #[trigger] cycles::steps(
            rel,
            less,
            i,
        ) by {
            assert(cycles::steps(rel, path, i));
        }
        lemma_one_home(ix, s, t, less);
    }
}

proof fn lemma_home(ix: IndexView, s: ScopeId, t: ScopeId)
    requires
        entered_once(ix),
        tops::top_scopes(ix).contains(s),
        grows_from(ix, s, t),
    ensures
        home(ix, t) == Some(s),
{
    let h = choose|h: ScopeId| #[trigger] tops::top_scopes(ix).contains(h) && grows_from(ix, h, t);
    let path = choose|path: Seq<ScopeId>| #[trigger]
        cycles::is_path(cycles::entrance(ix), path) && path[0] == s && path.last() == t;
    lemma_one_home(ix, s, h, path);
}

/// The trees of two top-level scopes do not mix. Where headers have different
/// numbers and every scope is entered by at most one nested edge, at its first
/// header, every node belongs to a scope that grows from one top-level scope. The
/// nodes of an earlier top-level scope come before those of a later one, and no
/// edge joins them.
pub proof fn trees_of_top_level_scopes_do_not_mix(ix: IndexView, show: bool)
    requires
        laws::numbers_differ(ix),
        entered_once(ix),
        model::has_layout(ix, show),
    ensures
        forall|a: int|
            0 <= a < model::layout_of(ix, show).nodes.len() ==> grows_from_top(
                ix,
                node_scope(ix, #[trigger] model::layout_of(ix, show).nodes[a]),
            ),
        forall|i: int, j: int, a: int, b: int|
            0 <= i < j < tops::top_scopes(ix).len() && 0 <= a < model::layout_of(
                ix,
                show,
            ).nodes.len() && 0 <= b < model::layout_of(ix, show).nodes.len() && grows_from(
                ix,
                #[trigger] tops::top_scopes(ix)[i],
                node_scope(ix, #[trigger] model::layout_of(ix, show).nodes[a]),
            ) && grows_from(
                ix,
                #[trigger] tops::top_scopes(ix)[j],
                node_scope(ix, #[trigger] model::layout_of(ix, show).nodes[b]),
            ) ==> a < b && !joined(model::layout_of(ix, show), a, b),
{
    let color = |s: ScopeId| home(ix, s);
    let l = model::layout_of(ix, show);
    let scopes = tops::top_scopes(ix);
    assert(joins_colors(ix, color)) by {
        assert forall|s: ScopeId, t: ScopeId| #[trigger] cycles::leads_into(ix, s, t) implies color(
            s,
        ) == color(t) by {
            if let Some(h) = home(ix, s) {
                lemma_grows_on(ix, h, s, t);
                lemma_home(ix, h, t);
            }
            if let Some(h) = home(ix, t) {
                lemma_grows_back(ix, h, s, t);
                lemma_home(ix, h, s);
            }
        }
    }
    lemma_layout(ix, color, show);
    assert forall|k: int| 0 <= k < scopes.len() implies color(#[trigger] scopes[k]) == Some(
        scopes[k],
    ) by {
        assert(scopes.contains(scopes[k]));
        lemma_grows_here(ix, scopes[k]);
        lemma_home(ix, scopes[k], scopes[k]);
    }
    tops::top_scopes_are_sorted(ix);
    assert(colors_differ(color, scopes)) by {
        assert forall|i: int, j: int| 0 <= i < j < scopes.len() implies color(#[trigger] scopes[i])
            != color(#[trigger] scopes[j]) by {
            assert(scopes[i] != scopes[j]);
        }
    }
    assert forall|a: int| 0 <= a < l.nodes.len() implies grows_from_top(
        ix,
        node_scope(ix, #[trigger] l.nodes[a]),
    ) by {
        assert(has_color_among(ix, color, l.nodes[a], scopes));
        let t = node_scope(ix, l.nodes[a]);
        let k = choose|k: int| 0 <= k < scopes.len() && color(t) == color(#[trigger] scopes[k]);
        assert(color(scopes[k]) == Some(scopes[k]));
        assert(home(ix, t) == Some(scopes[k]));
        assert(scopes.contains(scopes[k]));
        assert(grows_from(ix, scopes[k], t));
    }
    assert forall|i: int, j: int, a: int, b: int|
        0 <= i < j < scopes.len() && 0 <= a < l.nodes.len() && 0 <= b < l.nodes.len()
            && grows_from(ix, #[trigger] scopes[i], node_scope(ix, #[trigger] l.nodes[a]))
            && grows_from(
            ix,
            #[trigger] scopes[j],
            node_scope(ix, #[trigger] l.nodes[b]),
        ) implies a < b && !joined(l, a, b) by {
        assert(scopes.contains(scopes[i]) && scopes.contains(scopes[j]));
        lemma_home(ix, scopes[i], node_scope(ix, l.nodes[a]));
        lemma_home(ix, scopes[j], node_scope(ix, l.nodes[b]));
        assert(color(scopes[i]) == Some(scopes[i]) && color(scopes[j]) == Some(scopes[j]));
        assert(color(node_scope(ix, l.nodes[a])) == color(scopes[i]));
        assert(color(node_scope(ix, l.nodes[b])) == color(scopes[j]));
        if joined(l, a, b) {
            let e = choose|e: int|
                0 <= e < l.edges.len() && (((#[trigger] l.edges[e]).from@ == a && l.edges[e].to@
                    == b) || (l.edges[e].from@ == b && l.edges[e].to@ == a));
            assert(joins_one_color(ix, color, l, l.edges[e]));
            assert(color(scopes[i]) != color(scopes[j]));
        }
    }
}

/// Whether a scope grows from a top-level scope.
pub open spec fn grows_from_top(ix: IndexView, t: ScopeId) -> bool {
    exists|k: int|
        0 <= k < tops::top_scopes(ix).len() && grows_from(
            ix,
            #[trigger] tops::top_scopes(ix)[k],
            t,
        )
}

/// Whether an edge joins two nodes, in either direction.
pub open spec fn joined(l: Layout, a: int, b: int) -> bool {
    exists|e: int|
        0 <= e < l.edges.len() && (((#[trigger] l.edges[e]).from@ == a && l.edges[e].to@ == b) || (
        l.edges[e].from@ == b && l.edges[e].to@ == a))
}

} // verus!
