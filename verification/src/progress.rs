//! A well-formed index can be laid out, and its headers follow each other as
//! they are nested.
use vstd::prelude::*;
use crate::causes;
use crate::causes::Cause;
use crate::flow;
use crate::fuel;
use crate::graph::Edge;
use crate::ids;
use crate::ids::{ClusterId, NodeId};
use crate::index;
use crate::index::{Hid, IndexView, ScopeId};
use crate::invariants;
use crate::merge;
use crate::model;
use crate::model::{Layout, Placed, Shape};
use crate::nesting;
use crate::nesting::Ranking;
use crate::placement;
use crate::tops;
use crate::turns;
use crate::turns::Turn;

verus! {

broadcast use {
    ids::lemma_node_id,
    ids::lemma_node_nth,
    ids::lemma_cluster_id,
    ids::lemma_cluster_nth,
};

/// What is known of the index.
spec fn grounded(ix: IndexView, show: bool, rank: Ranking) -> bool {
    &&& ix.edges_known()
    &&& rank.ranks(ix)
    &&& nesting::node_limit(ix, show, ix.headers) <= u32::MAX
}

/// Whether headers below `r` can be laid out next: all of these that are entered
/// can be left, and what is being laid out ranks at `r` or above.
spec fn ready(
    ix: IndexView,
    show: bool,
    rank: Ranking,
    l: Layout,
    open: Set<Hid>,
    r: nat,
) -> bool {
    &&& invariants::sound(ix, show, l)
    &&& nesting::counted(l, open)
    &&& forall|h: Hid| #[trigger]
        l.entry.contains_key(h) && rank.of(h) < r ==> l.exits.contains_key(h)
    &&& forall|h: Hid| #[trigger] open.contains(h) ==> ix.header(h) is Some && rank.of(h) >= r
}

/// Whether all items of a scope rank below `r`.
spec fn items_below(ix: IndexView, rank: Ranking, scope: ScopeId, r: nat) -> bool {
    forall|i: int|
        0 <= i < ix.scope_items(scope).len() ==> rank.of(#[trigger] ix.scope_items(scope)[i]) < r
}

/// Whether the items of those visited scopes that rank below `r` are laid out.
spec fn scopes_left(
    ix: IndexView,
    rank: Ranking,
    l: Layout,
    r: nat,
    pending: Option<ScopeId>,
) -> bool {
    forall|s: ScopeId| #[trigger]
        l.visited.contains(s) && pending != Some(s) && items_below(ix, rank, s, r) ==> l.all_left(
            ix.scope_items(s),
        )
}

/// A step of a layout that lays out headers below `r`.
spec fn goes(
    ix: IndexView,
    show: bool,
    rank: Ranking,
    l: Layout,
    m: Layout,
    open: Set<Hid>,
    r: nat,
) -> bool {
    &&& invariants::advances(ix, show, l, m)
    &&& flow::flows(ix, show, l, m)
    &&& nesting::counted(m, open)
    &&& forall|h: Hid| #[trigger]
        m.exits.contains_key(h) && !l.exits.contains_key(h) ==> rank.of(h) < r
}

proof fn lemma_goes_same(
    ix: IndexView,
    show: bool,
    rank: Ranking,
    l: Layout,
    open: Set<Hid>,
    r: nat,
)
    requires
        ready(ix, show, rank, l, open, r),
    ensures
        goes(ix, show, rank, l, l, open, r),
        causes::tells(ix, show, l, l),
{
    invariants::lemma_advances_same(ix, show, l);
    causes::lemma_tells_same(ix, show, l, l);
}

proof fn lemma_goes_chain(
    ix: IndexView,
    show: bool,
    rank: Ranking,
    a: Layout,
    b: Layout,
    c: Layout,
    open: Set<Hid>,
    r: nat,
)
    requires
        goes(ix, show, rank, a, b, open, r),
        goes(ix, show, rank, b, c, open, r),
    ensures
        goes(ix, show, rank, a, c, open, r),
{
    invariants::lemma_advances_chain(ix, show, a, b, c);
    assert forall|h: Hid| #[trigger] a.exits.contains_key(h) implies c.exits.contains_key(h)
        && c.exits[h] == a.exits[h] by {
        assert(b.exits.contains_key(h));
    }
    assert forall|h: Hid| #[trigger] a.entry.contains_key(h) implies c.entry.contains_key(h)
        && c.entry[h] == a.entry[h] by {
        assert(b.entry.contains_key(h));
    }
    assert forall|h: Hid| #[trigger]
        c.entry.contains_key(h) && !a.entry.contains_key(h) implies flow::header_flow(ix, show, c, h) by {
        if b.entry.contains_key(h) {
            flow::lemma_flow_kept(ix, show, b, c, h);
        }
    }
    assert forall|s: ScopeId| #[trigger]
        c.visited.contains(s) && !a.visited.contains(s) implies flow::in_sequence(
        c,
        ix.scope_items(s),
    ) by {
        if b.visited.contains(s) {
            flow::lemma_sequence_kept(ix, show, b, c, ix.scope_items(s));
        }
    }
}

/// Two steps, one after the other, with the causes of their edges.
proof fn lemma_tells_chain(
    ix: IndexView,
    show: bool,
    rank: Ranking,
    a: Layout,
    b: Layout,
    c: Layout,
    open: Set<Hid>,
    r: nat,
)
    requires
        goes(ix, show, rank, a, b, open, r),
        goes(ix, show, rank, b, c, open, r),
        causes::tells(ix, show, a, b),
        causes::tells(ix, show, b, c),
    ensures
        goes(ix, show, rank, a, c, open, r),
        causes::tells(ix, show, a, c),
{
    lemma_goes_chain(ix, show, rank, a, b, c, open, r);
    causes::lemma_tells_chain(ix, show, a, b, c);
}

proof fn lemma_goes_on(
    ix: IndexView,
    show: bool,
    rank: Ranking,
    l: Layout,
    m: Layout,
    open: Set<Hid>,
    r: nat,
    pending: Option<ScopeId>,
)
    requires
        ready(ix, show, rank, l, open, r),
        scopes_left(ix, rank, l, r, pending),
        goes(ix, show, rank, l, m, open, r),
    ensures
        ready(ix, show, rank, m, open, r),
        scopes_left(ix, rank, m, r, pending),
{
    assert forall|h: Hid| #[trigger]
        m.entry.contains_key(h) && rank.of(h) < r implies m.exits.contains_key(h) by {
        if l.entry.contains_key(h) {
            assert(l.exits.contains_key(h));
        } else {
            assert(flow::header_flow(ix, show, m, h));
        }
    }
    assert forall|s: ScopeId| #[trigger]
        m.visited.contains(s) && pending != Some(s) && items_below(
            ix,
            rank,
            s,
            r,
        ) implies m.all_left(ix.scope_items(s)) by {
        if l.visited.contains(s) {
            flow::lemma_left_kept(l, m, ix.scope_items(s));
        } else {
            assert(flow::in_sequence(m, ix.scope_items(s)));
        }
    }
}

proof fn lemma_narrow(
    ix: IndexView,
    show: bool,
    rank: Ranking,
    l: Layout,
    open: Set<Hid>,
    r: nat,
    q: nat,
)
    requires
        ready(ix, show, rank, l, open, r),
        q <= r,
    ensures
        ready(ix, show, rank, l, open, q),
{
}

/// A scope of which an item ranks at `q` is not among those below `q`.
proof fn lemma_scopes_narrow(
    ix: IndexView,
    rank: Ranking,
    l: Layout,
    r: nat,
    q: nat,
    pending: Option<ScopeId>,
)
    requires
        scopes_left(ix, rank, l, r, pending),
        q <= r,
        pending matches Some(s) ==> !items_below(ix, rank, s, q),
    ensures
        scopes_left(ix, rank, l, q, None),
{
    assert forall|s: ScopeId| #[trigger]
        l.visited.contains(s) && items_below(ix, rank, s, q) implies l.all_left(
        ix.scope_items(s),
    ) by {
        assert(items_below(ix, rank, s, r)) by {
            assert forall|i: int| 0 <= i < ix.scope_items(s).len() implies rank.of(
                #[trigger] ix.scope_items(s)[i],
            ) < r by {
                assert(rank.of(ix.scope_items(s)[i]) < q);
            }
        }
    }
}

/// Links and calls change neither headers nor scopes.
proof fn lemma_same_headers_goes(
    ix: IndexView,
    show: bool,
    rank: Ranking,
    l: Layout,
    m: Layout,
    open: Set<Hid>,
    r: nat,
)
    requires
        nesting::counted(l, open),
        invariants::same_headers(ix, l, m),
        invariants::sound(ix, show, m),
        m.exits == l.exits,
        m.clusters.len() == l.clusters.len(),
    ensures
        goes(ix, show, rank, l, m, open, r),
{
    invariants::lemma_same_headers_advances(ix, show, l, m);
}

proof fn lemma_calls_fit(
    ix: IndexView,
    l: Layout,
    hid: Hid,
    callees: Seq<Seq<char>>,
    rep: NodeId,
    cluster: Option<ClusterId>,
)
    requires
        invariants::sound(ix, true, l),
        invariants::is_cluster(l, cluster),
        invariants::is_node(l, rep),
        nesting::node_limit(ix, true, ix.headers) <= u32::MAX,
        ix.header(hid) is Some,
        forall|i: int| 0 <= i < callees.len() ==> ix.calls(hid).contains(#[trigger] callees[i]),
    ensures
        model::place_calls(l, hid, callees, rep, cluster) is Some,
    decreases callees.len(),
{
    if callees.len() > 0 {
        assert(ix.calls(hid).contains(callees[0]));
        if !l.calls.contains_key((hid, callees[0])) {
            nesting::lemma_call_room(ix, l, hid, callees[0]);
        }
        invariants::lemma_place_call(ix, l, hid, callees[0], rep, cluster);
        let n = model::place_call(l, hid, callees[0], rep, cluster)->0;
        let rest = callees.drop_first();
        assert forall|i: int| 0 <= i < rest.len() implies ix.calls(hid).contains(
            #[trigger] rest[i],
        ) by {
            assert(rest[i] == callees[i + 1]);
        }
        assert(l.nodes.len() <= n.nodes.len());
        lemma_calls_fit(ix, n, hid, rest, rep, cluster);
    }
}

proof fn lemma_show_calls_fit(
    ix: IndexView,
    show: bool,
    l: Layout,
    hid: Hid,
    cluster: Option<ClusterId>,
)
    requires
        invariants::sound(ix, show, l),
        invariants::is_cluster(l, cluster),
        nesting::node_limit(ix, show, ix.headers) <= u32::MAX,
        l.entry.contains_key(hid),
    ensures
        model::show_calls(ix, show, l, hid, l.entry[hid], cluster) is Some,
{
    if show {
        let callees = ix.calls(hid);
        assert forall|i: int| 0 <= i < callees.len() implies ix.calls(hid).contains(
            #[trigger] callees[i],
        ) by {}
        lemma_calls_fit(ix, l, hid, callees, l.entry[hid], cluster);
    }
}

proof fn lemma_all_calls_fit(
    ix: IndexView,
    l: Layout,
    hids: Seq<Hid>,
    cluster: Option<ClusterId>,
)
    requires
        invariants::sound(ix, true, l),
        invariants::is_cluster(l, cluster),
        nesting::node_limit(ix, true, ix.headers) <= u32::MAX,
        l.all_entered(hids),
    ensures
        model::show_calls_of_all(ix, l, hids, cluster) is Some,
    decreases hids.len(),
{
    if hids.len() > 0 {
        assert(l.entry.contains_key(hids[0]));
        lemma_show_calls_fit(ix, true, l, hids[0], cluster);
        invariants::lemma_show_calls(ix, true, l, hids[0], cluster);
        let n = model::show_calls(ix, true, l, hids[0], l.entry[hids[0]], cluster)->0;
        let rest = hids.drop_first();
        assert(n.all_entered(rest)) by {
            assert forall|i: int| 0 <= i < rest.len() implies n.entry.contains_key(
                #[trigger] rest[i],
            ) by {
                assert(rest[i] == hids[i + 1]);
            }
        }
        lemma_all_calls_fit(ix, n, rest, cluster);
    }
}

/// A header that is begun in `begun`, and completed in `m` once all below it is
/// laid out.
proof fn lemma_flow_step(
    ix: IndexView,
    show: bool,
    rank: Ranking,
    l: Layout,
    begun: Layout,
    below: Layout,
    m: Layout,
    hid: Hid,
)
    requires
        !l.exits.contains_key(hid),
        invariants::keeps_entries(l, begun),
        invariants::keeps_entries(below, m),
        begun.exits == l.exits,
        begun.visited == l.visited,
        forall|h: Hid| #[trigger]
            begun.entry.contains_key(h) && h != hid ==> l.entry.contains_key(h),
        invariants::sound(ix, show, below),
        flow::flows(ix, show, begun, below),
        forall|h: Hid| #[trigger]
            below.exits.contains_key(h) && !begun.exits.contains_key(h) ==> rank.of(h) < rank.of(hid),
        invariants::extends(ix, below, m),
        m.visited == below.visited,
        forall|h: Hid| #[trigger]
            m.entry.contains_key(h) && h != hid ==> below.entry.contains_key(h),
        m.exits == below.exits.insert(hid, m.exits[hid]),
        flow::header_flow(ix, show, m, hid),
    ensures
        flow::flows(ix, show, l, m),
        forall|h: Hid| #[trigger]
            m.exits.contains_key(h) && !l.exits.contains_key(h) ==> rank.of(h) < rank.of(hid) + 1,
{
    assert(!below.exits.contains_key(hid));
    assert(flow::keeps_exits(below, m));
    assert forall|h: Hid| #[trigger] l.entry.contains_key(h) implies m.entry.contains_key(h)
        && m.entry[h] == l.entry[h] by {
        assert(begun.entry.contains_key(h));
        assert(below.entry.contains_key(h));
    }
    assert forall|h: Hid| #[trigger] l.exits.contains_key(h) implies m.exits.contains_key(h)
        && m.exits[h] == l.exits[h] by {
        assert(begun.exits.contains_key(h));
        assert(below.exits.contains_key(h));
    }
    assert forall|h: Hid| #[trigger]
        m.entry.contains_key(h) && !l.entry.contains_key(h) implies flow::header_flow(ix, show, m, h) by {
        if h != hid {
            assert(below.entry.contains_key(h));
            assert(!begun.entry.contains_key(h));
            flow::lemma_flow_kept(ix, show, below, m, h);
        }
    }
    assert forall|s: ScopeId| #[trigger]
        m.visited.contains(s) && !l.visited.contains(s) implies flow::in_sequence(
        m,
        ix.scope_items(s),
    ) by {
        assert(below.visited.contains(s));
        flow::lemma_sequence_kept(ix, show, below, m, ix.scope_items(s));
    }
}

/// A branch can be completed once its children are laid out.
#[verifier::rlimit(40)]
proof fn lemma_branch_closes(
    ix: IndexView,
    show: bool,
    l: Layout,
    hid: Hid,
    cluster: ClusterId,
)
    requires
        invariants::sound(ix, show, l),
        nesting::node_limit(ix, show, ix.headers) <= u32::MAX,
        l.entry.contains_key(hid),
        invariants::is_cluster(l, Some(cluster)),
        flow::laid_as(ix, l, hid) == Shape::Branch,
        show ==> invariants::calls_linked(ix, l, hid),
        l.all_left(ix.md_children(hid)),
        l.all_left(ix.nested_children(hid)),
        !l.exits.contains_key(hid),
    ensures
        model::close_branch(ix, show, l, hid, l.entry[hid], cluster) is Some,
        ({
            let p = model::close_branch(ix, show, l, hid, l.entry[hid], cluster)->0;
            &&& p.layout.exits == l.exits.insert(hid, p.exits)
            &&& p.layout.clusters == l.clusters
            &&& flow::header_flow(ix, show, p.layout, hid)
            &&& p.layout.edges == l.edges + causes::edges_of(
                ix,
                p.layout,
                causes::branch_log(ix, show, p.layout, hid),
            )
        }),
{
    let md = ix.md_children(hid);
    let nested = ix.nested_children(hid);
    let decision = l.entry[hid];
    flow::lemma_left_entered(ix, show, l, md);
    flow::lemma_left_entered(ix, show, l, nested);
    let out = model::edges_out_of(decision, l.entries(nested));
    invariants::lemma_entries(ix, show, l, nested);
    assert forall|i: int| 0 <= i < out.len() implies invariants::is_node(
        l,
        (#[trigger] out[i]).from,
    ) && invariants::is_node(l, out[i].to) by {
        assert(invariants::is_header_node(l, l.entries(nested)[i]));
    }
    invariants::lemma_link(ix, show, l, out);
    let linked = l.link(out);
    invariants::lemma_entered_kept(ix, l, linked, nested);
    if show {
        lemma_all_calls_fit(ix, linked, nested, Some(cluster));
        invariants::lemma_show_calls_of_all(ix, linked, nested, Some(cluster));
    }
    let m = if show {
        model::show_calls_of_all(ix, linked, nested, Some(cluster))->0
    } else {
        linked
    };
    assert(m.exits == l.exits && m.entry == l.entry && m.clusters == l.clusters);
    assert(m.all_left(nested)) by {
        assert forall|i: int| 0 <= i < nested.len() implies m.exits.contains_key(
            #[trigger] nested[i],
        ) by {
            assert(l.exits.contains_key(nested[i]));
        }
    }
    assert(m.all_entered(md)) by {
        assert forall|i: int| 0 <= i < md.len() implies m.entry.contains_key(#[trigger] md[i]) by {
            assert(l.entry.contains_key(md[i]));
        }
    }
    assert(model::close_branch(ix, show, l, hid, decision, cluster) is Some);
    assert(invariants::header_of_kind(l.nodes[decision@ as int].kind) == Some(hid));
    invariants::lemma_close_branch(ix, show, l, hid, cluster);
    let p = model::close_branch(ix, show, l, hid, decision, cluster)->0;
    let last = p.layout;
    assert(last.nodes[decision@ as int] == l.nodes[decision@ as int]);
    let branch_exits = m.exits_of(nested);
    let steps = m.entries(md);
    invariants::lemma_exits_of(ix, show, m, nested);
    let into_first = if steps.len() == 0 {
        seq![]
    } else if branch_exits.len() == 0 {
        seq![Edge { from: decision, to: steps[0] }]
    } else {
        model::edges_into(branch_exits, steps[0])
    };
    let along = model::edges_along(steps);
    assert(last.edges == m.edges + into_first + along);
    assert(last.exits == l.exits.insert(hid, p.exits));
    assert(flow::keeps_exits(l, last));
    flow::lemma_left_kept(l, last, nested);
    flow::lemma_left_kept(l, last, md);
    assert(last.entry == l.entry);
    assert(last.entries(md) =~= steps);
    assert(nested.map_values(|h: Hid| m.exits[h]) =~= nested.map_values(|h: Hid| l.exits[h]));
    assert(last.exits_of(nested) == branch_exits);
    if md.len() > 0 {
        assert(steps.last() == l.entry[md.last()]);
        assert(steps[0] == l.entry[md[0]]);
        assert forall|i: int| 0 <= i < branch_exits.len() implies last.edges.contains(
            Edge { from: #[trigger] branch_exits[i], to: steps[0] },
        ) by {
            assert(last.edges[m.edges.len() + i] == into_first[i]);
        }
        if nested.len() == 0 {
            assert(branch_exits =~= seq![]);
            assert(last.edges[m.edges.len() as int] == into_first[0]);
            let one = seq![decision];
            assert forall|i: int| 0 <= i < one.len() implies last.edges.contains(
                Edge { from: #[trigger] one[i], to: steps[0] },
            ) by {}
        }
    }
    assert forall|i: int| 0 <= i < md.len() - 1 implies #[trigger] flow::node_leads_on(
        last,
        steps,
        i,
    ) by {
        assert(last.edges[m.edges.len() + into_first.len() + i] == along[i]);
    }
    if show {
        invariants::lemma_calls_linked_kept(ix, l, last, hid);
    }
    lemma_branch_edges(ix, show, l, linked, m, last, hid, cluster);
}

/// The edges that complete a branch, by their causes.
proof fn lemma_branch_edges(
    ix: IndexView,
    show: bool,
    l: Layout,
    linked: Layout,
    m: Layout,
    last: Layout,
    hid: Hid,
    cluster: ClusterId,
)
    requires
        linked == l.link(
            model::edges_out_of(l.entry[hid], l.entries(ix.nested_children(hid))),
        ),
        show ==> model::show_calls_of_all(
            ix,
            linked,
            ix.nested_children(hid),
            Some(cluster),
        ) == Some(m),
        !show ==> m == linked,
        m.entry == l.entry,
        last.entry == l.entry,
        last.calls == m.calls,
        last.exits_of(ix.nested_children(hid)) == m.exits_of(ix.nested_children(hid)),
        ix.nested_children(hid).len() > 0 ==> m.exits_of(ix.nested_children(hid)).len() > 0,
        ({
            let nested = ix.nested_children(hid);
            let steps = m.entries(ix.md_children(hid));
            let branch_exits = m.exits_of(nested);
            let into_first = if steps.len() == 0 {
                seq![]
            } else if branch_exits.len() == 0 {
                seq![Edge { from: l.entry[hid], to: steps[0] }]
            } else {
                model::edges_into(branch_exits, steps[0])
            };
            last.edges == m.edges + into_first + model::edges_along(steps)
        }),
    ensures
        last.edges == l.edges + causes::edges_of(
            ix,
            last,
            causes::branch_log(ix, show, last, hid),
        ),
{
    let md = ix.md_children(hid);
    let nested = ix.nested_children(hid);
    let steps = m.entries(md);
    let branch_exits = m.exits_of(nested);
    let into_first = if steps.len() == 0 {
        seq![]
    } else if branch_exits.len() == 0 {
        seq![Edge { from: l.entry[hid], to: steps[0] }]
    } else {
        model::edges_into(branch_exits, steps[0])
    };
    let out = Seq::new(nested.len(), |child: int| Cause::Branch { header: hid, child });
    let calls = if show {
        causes::branch_call_log(ix, hid, 0)
    } else {
        seq![]
    };
    let into = if md.len() == 0 {
        seq![]
    } else if nested.len() == 0 {
        seq![Cause::Follow { header: hid }]
    } else {
        Seq::new(last.exits_of(nested).len(), |from: int| Cause::Join { header: hid, from })
    };
    let n = if md.len() == 0 {
        0
    } else {
        (md.len() - 1) as nat
    };
    let along = Seq::new(n, |step: int| Cause::Along { header: hid, step });
    if nested.len() == 0 {
        assert(branch_exits =~= seq![]);
    }
    assert(causes::edges_of(ix, last, out) =~= model::edges_out_of(
        l.entry[hid],
        l.entries(nested),
    ));
    assert(causes::edges_of(ix, last, into) =~= into_first);
    assert(causes::edges_of(ix, last, along) =~= model::edges_along(steps));
    if show {
        assert(nested.skip(0) =~= nested);
        causes::lemma_branch_call_edges(ix, linked, hid, 0, Some(cluster));
        causes::lemma_branch_call_log(ix, hid, 0);
        assert forall|i: int| 0 <= i < calls.len() implies causes::edge_of(
            ix,
            last,
            #[trigger] calls[i],
        ) == causes::edge_of(ix, m, calls[i]) by {
            assert(calls.contains(calls[i]));
        }
        assert(causes::edges_of(ix, last, calls) =~= causes::edges_of(ix, m, calls));
    }
    assert(m.edges =~= linked.edges + causes::edges_of(ix, last, calls));
    let log = out + calls + into + along;
    assert(causes::edges_of(ix, last, log) =~= causes::edges_of(ix, last, out) + causes::edges_of(
        ix,
        last,
        calls,
    ) + causes::edges_of(ix, last, into) + causes::edges_of(ix, last, along));
    assert(last.edges =~= l.edges + causes::edges_of(ix, last, log));
}

proof fn lemma_flat_closes(
    ix: IndexView,
    show: bool,
    l: Layout,
    hid: Hid,
    child: Hid,
)
    requires
        invariants::sound(ix, show, l),
        l.entry.contains_key(hid),
        flow::laid_as(ix, l, hid) == Shape::Flat,
        placement::has_lone_child(ix, hid),
        l.nodes[l.entry[hid]@ as int].cluster is Some,
        child == (if ix.md_children(hid).len() == 1 {
            ix.md_children(hid)[0]
        } else {
            ix.nested_children(hid)[0]
        }),
        l.exits.contains_key(child),
        !l.exits.contains_key(hid),
    ensures
        model::close_flat(ix, l, hid, l.entry[hid], child) is Some,
        ({
            let p = model::close_flat(ix, l, hid, l.entry[hid], child)->0;
            let log = seq![Cause::Line { header: hid }];
            &&& p.layout.exits == l.exits.insert(hid, p.exits)
            &&& p.layout.clusters == l.clusters
            &&& flow::header_flow(ix, show, p.layout, hid)
            &&& p.layout.edges == l.edges + causes::edges_of(ix, p.layout, log)
        }),
{
    assert(l.entry.contains_key(child));
    let p = model::close_flat(ix, l, hid, l.entry[hid], child)->0;
    let e = Edge { from: l.entry[hid], to: l.entry[child] };
    assert(p.layout.edges[l.edges.len() as int] == e);
    let one = seq![l.entry[hid]];
    assert forall|i: int| 0 <= i < one.len() implies p.layout.edges.contains(
        Edge { from: #[trigger] one[i], to: l.entry[child] },
    ) by {}
    assert(causes::edges_of(ix, p.layout, seq![Cause::Line { header: hid }]) =~= seq![e]);
}

/// Whether the children of a container are laid out so that they can be chained.
spec fn chainable(ix: IndexView, l: Layout, hid: Hid) -> bool {
    let all = model::children(ix, hid);
    let nested = ix.nested_children(hid);
    forall|i: int|
        0 <= i < all.len() ==> {
            &&& l.entry.contains_key(#[trigger] all[i])
            &&& l.exits.contains_key(flow::left_by(ix, hid, all[i]))
            &&& model::leaves_by(ix, l, nested, all[i]) == flow::left_by(ix, hid, all[i])
        }
}

proof fn lemma_chain_closes(ix: IndexView, l: Layout, hid: Hid, k: int)
    requires
        chainable(ix, l, hid),
        0 <= k < model::children(ix, hid).len(),
    ensures
        ({
            let all = model::children(ix, hid);
            let nested = ix.nested_children(hid);
            let chained = model::chain_children(
                ix,
                l,
                nested,
                all.skip(k + 1),
                flow::left_by(ix, hid, all[k]),
            );
            &&& chained is Some
            &&& (chained->0).0 == (Layout { edges: (chained->0).0.edges, ..l })
            &&& l.edges.is_prefix_of((chained->0).0.edges)
            &&& (chained->0).1 == flow::left_by(ix, hid, all.last())
            &&& (chained->0).0.edges == l.edges + causes::edges_of(
                ix,
                l,
                causes::next_log(ix, l, hid, k),
            )
            &&& forall|i: int|
                k <= i < all.len() - 1 ==> #[trigger] flow::child_leads_on(
                    ix,
                    (chained->0).0,
                    hid,
                    i,
                )
        }),
    decreases model::children(ix, hid).len() - k,
{
    let all = model::children(ix, hid);
    let nested = ix.nested_children(hid);
    let prev = flow::left_by(ix, hid, all[k]);
    let rest = all.skip(k + 1);
    if k + 1 == all.len() {
        assert(l.edges =~= l.edges.subrange(0, l.edges.len() as int));
        assert(l.edges + causes::edges_of(ix, l, causes::next_log(ix, l, hid, k)) =~= l.edges);
    } else {
        let next = all[k + 1];
        assert(rest[0] == next);
        assert(l.entry.contains_key(all[k + 1]));
        assert(l.exits.contains_key(flow::left_by(ix, hid, all[k])));
        assert(rest.drop_first() =~= all.skip(k + 2));
        let edges = model::edges_into(l.exits[prev], l.entry[next]);
        let n = l.link(edges);
        assert(chainable(ix, n, hid)) by {
            assert forall|i: int| 0 <= i < all.len() implies {
                &&& n.entry.contains_key(#[trigger] all[i])
                &&& n.exits.contains_key(flow::left_by(ix, hid, all[i]))
                &&& model::leaves_by(ix, n, nested, all[i]) == flow::left_by(ix, hid, all[i])
            } by {
                assert(l.entry.contains_key(all[i]));
            }
        }
        lemma_chain_closes(ix, n, hid, k + 1);
        let chained = model::chain_children(
            ix,
            n,
            nested,
            all.skip(k + 2),
            flow::left_by(ix, hid, all[k + 1]),
        );
        let m = (chained->0).0;
        assert(model::leaves_by(ix, l, nested, all[k + 1]) == flow::left_by(ix, hid, all[k + 1]));
        assert(model::chain_children(ix, l, nested, rest, prev) == chained);
        assert forall|i: int| 0 <= i < l.edges.len() implies m.edges[i] == l.edges[i] by {
            assert(n.edges[i] == l.edges[i]);
        }
        assert(l.edges =~= m.edges.subrange(0, l.edges.len() as int));
        lemma_next_edges(ix, l, n, m, hid, k);
        assert(flow::child_leads_on(ix, m, hid, k)) by {
            let froms = l.exits[prev];
            assert forall|i: int| 0 <= i < froms.len() implies m.edges.contains(
                Edge { from: #[trigger] froms[i], to: l.entry[next] },
            ) by {
                assert(n.edges[l.edges.len() + i] == edges[i]);
                assert(m.edges[l.edges.len() + i] == edges[i]);
            }
        }
    }
}

/// The edges that chain the children of a container, by their causes.
proof fn lemma_next_edges(ix: IndexView, l: Layout, n: Layout, m: Layout, hid: Hid, k: int)
    requires
        0 <= k < model::children(ix, hid).len() - 1,
        n == l.link(
            model::edges_into(
                l.exits[flow::left_by(ix, hid, model::children(ix, hid)[k])],
                l.entry[model::children(ix, hid)[k + 1]],
            ),
        ),
        m.edges == n.edges + causes::edges_of(ix, n, causes::next_log(ix, n, hid, k + 1)),
    ensures
        m.edges == l.edges + causes::edges_of(ix, l, causes::next_log(ix, l, hid, k)),
{
    let all = model::children(ix, hid);
    let froms = l.exits[flow::left_by(ix, hid, all[k])];
    let row = Seq::new(froms.len(), |from: int| Cause::Next { header: hid, child: k, from });
    let rest = causes::next_log(ix, l, hid, k + 1);
    causes::lemma_next_log_same(ix, l, n, hid, k + 1);
    causes::lemma_next_log(ix, l, hid, k + 1);
    assert forall|i: int| 0 <= i < rest.len() implies causes::edge_of(ix, l, #[trigger] rest[i])
        == causes::edge_of(ix, n, rest[i]) by {
        assert(rest.contains(rest[i]));
    }
    assert(causes::edges_of(ix, l, rest) =~= causes::edges_of(ix, n, rest));
    assert(causes::edges_of(ix, l, row) =~= model::edges_into(froms, l.entry[all[k + 1]]));
    assert(causes::edges_of(ix, l, row + rest) =~= causes::edges_of(ix, l, row)
        + causes::edges_of(ix, l, rest));
    assert(m.edges =~= l.edges + causes::edges_of(ix, l, row + rest));
}

/// A container can be completed once its children are laid out.
#[verifier::rlimit(50)]
proof fn lemma_container_closes(ix: IndexView, show: bool, l: Layout, hid: Hid)
    requires
        invariants::sound(ix, show, l),
        ix.md_children(hid).len() + ix.nested_children(hid).len() > 0,
        !invariants::keeps_its_node(ix, hid),
        ix.header(hid) is Some,
        chainable(ix, l, hid),
        l.all_left(model::children(ix, hid)),
        !l.exits.contains_key(hid),
        !l.entry.contains_key(hid),
    ensures
        model::close_container(ix, l, hid) is Some,
        ({
            let p = model::close_container(ix, l, hid)->0;
            &&& p.layout.exits == l.exits.insert(hid, p.exits)
            &&& p.layout.entry == l.entry.insert(hid, p.entry)
            &&& p.layout.clusters == l.clusters
            &&& p.layout.nodes == l.nodes
            &&& p.layout.calls == l.calls
            &&& flow::laid_as(ix, p.layout, hid) == Shape::Container
            &&& flow::header_flow(ix, show, p.layout, hid)
            &&& p.layout.edges == l.edges + causes::edges_of(
                ix,
                p.layout,
                causes::next_log(ix, p.layout, hid, 0),
            )
        }),
{
    let md = ix.md_children(hid);
    let all = model::children(ix, hid);
    let nested = ix.nested_children(hid);
    merge::lemma_merged_keeps(merge::spans_of(ix), md, nested);
    assert(all.len() > 0);
    lemma_chain_closes(ix, l, hid, 0);
    assert(all.drop_first() =~= all.skip(1));
    assert(l.entry.contains_key(all[0]));
    assert(model::leaves_by(ix, l, nested, all[0]) == flow::left_by(ix, hid, all[0]));
    let (m, last) = model::chain_children(
        ix,
        l,
        nested,
        all.skip(1),
        flow::left_by(ix, hid, all[0]),
    )->0;
    assert(l.exits.contains_key(flow::left_by(ix, hid, all[all.len() - 1])));
    let p = model::close_container(ix, l, hid)->0;
    let o = p.layout;
    assert(flow::laid_as(ix, o, hid) == Shape::Container) by {
        assert(invariants::is_header_node(l, l.entry[all[0]]));
        let node = l.nodes[l.entry[all[0]]@ as int];
        assert(invariants::header_of_kind(node.kind) != Some(hid));
    }
    assert(flow::keeps_exits(l, o));
    flow::lemma_left_kept(l, o, all);
    assert forall|i: int| 0 <= i < all.len() implies o.exits.contains_key(
        flow::left_by(ix, hid, #[trigger] all[i]),
    ) by {
        assert(l.exits.contains_key(flow::left_by(ix, hid, all[i])));
    }
    assert forall|i: int| 0 <= i < all.len() - 1 implies #[trigger] flow::child_leads_on(
        ix,
        o,
        hid,
        i,
    ) by {
        assert(flow::child_leads_on(ix, m, hid, i));
        assert(l.exits.contains_key(flow::left_by(ix, hid, all[i])));
        assert(l.entry.contains_key(all[i + 1]));
        let froms = m.exits[flow::left_by(ix, hid, all[i])];
        assert forall|j: int| 0 <= j < froms.len() implies o.edges.contains(
            Edge { from: #[trigger] froms[j], to: o.entry[all[i + 1]] },
        ) by {
            assert(m.edges.contains(Edge { from: froms[j], to: m.entry[all[i + 1]] }));
        }
    }
    assert forall|i: int| 0 <= i < all.len() implies {
        &&& o.entry[#[trigger] all[i]] == l.entry[all[i]]
        &&& o.exits[flow::left_by(ix, hid, all[i])] == l.exits[flow::left_by(ix, hid, all[i])]
    } by {
        assert(l.entry.contains_key(all[i]));
    }
    causes::lemma_next_log_kept(ix, l, o, hid, 0);
    let log = causes::next_log(ix, l, hid, 0);
    causes::lemma_next_log(ix, l, hid, 0);
    assert forall|i: int| 0 <= i < log.len() implies causes::edge_of(ix, o, #[trigger] log[i])
        == causes::edge_of(ix, l, log[i]) by {
        assert(log.contains(log[i]));
        if let Cause::Next { child, .. } = log[i] {
            assert(o.entry[all[child]] == l.entry[all[child]]);
            assert(o.entry[all[child + 1]] == l.entry[all[child + 1]]);
        }
    }
    assert(causes::edges_of(ix, o, log) =~= causes::edges_of(ix, l, log));
}

/// What a laid out header leaves behind.
spec fn goes_to(
    ix: IndexView,
    show: bool,
    rank: Ranking,
    l: Layout,
    p: Option<Placed>,
    open: Set<Hid>,
    hid: Hid,
) -> bool {
    &&& p is Some
    &&& goes(ix, show, rank, l, p->0.layout, open, rank.of(hid) + 1)
    &&& causes::tells(ix, show, l, p->0.layout)
    &&& turns::take_turns(ix, l, p->0.layout, seq![hid])
    &&& p->0.layout.exits.contains_key(hid)
    &&& p->0.layout.exits[hid] == p->0.exits
}

/// Whether headers can be laid out below `r`.
spec fn placeable(
    ix: IndexView,
    rank: Ranking,
    hids: Seq<Hid>,
    fuel: nat,
    r: nat,
) -> bool {
    forall|i: int|
        0 <= i < hids.len() ==> {
            &&& ix.header(#[trigger] hids[i]) is Some
            &&& rank.of(hids[i]) < r
            &&& rank.of(hids[i]) < fuel
            &&& rank.of(hids[i]) < rank.limit
        }
}

/// Whether a scope can be laid out below `r`.
spec fn scope_placeable(
    ix: IndexView,
    rank: Ranking,
    scope: ScopeId,
    fuel: nat,
    r: nat,
) -> bool {
    placeable(ix, rank, ix.scope_items(scope), fuel, r)
}

/// What is below a header ranks below it.
proof fn lemma_below(
    ix: IndexView,
    show: bool,
    rank: Ranking,
    hid: Hid,
    fuel: nat,
)
    requires
        grounded(ix, show, rank),
        rank.of(hid) <= fuel,
        rank.of(hid) < rank.limit,
    ensures
        placeable(ix, rank, ix.md_children(hid), fuel, rank.of(hid)),
        placeable(ix, rank, ix.nested_children(hid), fuel, rank.of(hid)),
        placeable(ix, rank, model::children(ix, hid), fuel, rank.of(hid)),
        forall|i: int|
            0 <= i < ix.nested_children(hid).len() ==> scope_placeable(
                ix,
                rank,
                ix.scope_of(#[trigger] ix.nested_children(hid)[i]),
                fuel,
                rank.of(hid),
            ),
{
    let md = ix.md_children(hid);
    let nested = ix.nested_children(hid);
    let all = model::children(ix, hid);
    assert forall|i: int| 0 <= i < md.len() implies ix.header(#[trigger] md[i]) is Some && rank.of(
        md[i],
    ) < rank.of(hid) by {
        assert(md.contains(md[i]));
        index::lemma_md_child_known(ix, hid, md[i]);
        assert(nesting::below(ix, hid, md[i]));
    }
    assert forall|i: int| 0 <= i < nested.len() implies ix.header(#[trigger] nested[i]) is Some
        && rank.of(nested[i]) < rank.of(hid) by {
        assert(nested.contains(nested[i]));
        index::lemma_nested_child(ix, hid, nested[i]);
        assert(nesting::below(ix, hid, nested[i]));
    }
    assert forall|i: int| 0 <= i < all.len() implies ix.header(#[trigger] all[i]) is Some && rank.of(
        all[i],
    ) < rank.of(hid) by {
        merge::lemma_merged_member(merge::spans_of(ix), md, nested, i);
        if md.contains(all[i]) {
            let k = choose|k: int| 0 <= k < md.len() && md[k] == all[i];
            assert(rank.of(md[k]) < rank.of(hid));
        } else {
            let k = choose|k: int| 0 <= k < nested.len() && nested[k] == all[i];
            assert(rank.of(nested[k]) < rank.of(hid));
        }
    }
    assert forall|i: int| 0 <= i < nested.len() implies scope_placeable(
        ix,
        rank,
        ix.scope_of(#[trigger] nested[i]),
        fuel,
        rank.of(hid),
    ) by {
        let items = ix.scope_items(ix.scope_of(nested[i]));
        assert(nested.contains(nested[i]));
        assert forall|k: int| 0 <= k < items.len() implies ix.header(#[trigger] items[k]) is Some
            && rank.of(items[k]) < rank.of(hid) by {
            assert(items.contains(items[k]));
            index::lemma_scope_item(ix, ix.scope_of(nested[i]), items[k]);
            assert(nesting::below(ix, hid, items[k]));
        }
    }
}

/// No header hangs from itself.
proof fn lemma_not_below_itself(ix: IndexView, rank: Ranking, hid: Hid)
    requires
        rank.ranks(ix),
        rank.of(hid) < rank.limit,
    ensures
        !placement::hangs_from(ix, hid, hid),
{
    if placement::hangs_from(ix, hid, hid) {
        assert(nesting::below(ix, hid, hid));
    }
}

proof fn lemma_leaf(
    ix: IndexView,
    show: bool,
    rank: Ranking,
    l: Layout,
    hid: Hid,
    parent: Option<ClusterId>,
    open: Set<Hid>,
)
    requires
        grounded(ix, show, rank),
        ready(ix, show, rank, l, open, rank.of(hid) + 1),
        invariants::is_cluster(l, parent),
        ix.header(hid) is Some,
        !l.entry.contains_key(hid),
        model::shape(ix, hid, parent) == Shape::Leaf,
    ensures
        goes_to(ix, show, rank, l, model::place_leaf(ix, show, l, hid, parent), open, hid),
{
    let node = l.next_node();
    nesting::lemma_header_room(ix, show, l, hid);
    invariants::lemma_place_node(ix, show, l, hid, false, parent);
    let l1 = l.place_node(ix.header(hid)->0, hid, false, parent)->0;
    assert(invariants::are_header_nodes(l1, seq![node]));
    invariants::lemma_set_exits(ix, show, l1, hid, seq![node]);
    let l2 = l1.set_exits(hid, seq![node]);
    lemma_show_calls_fit(ix, show, l2, hid, parent);
    invariants::lemma_show_calls(ix, show, l2, hid, parent);
    let m = model::show_calls(ix, show, l2, hid, node, parent)->0;
    invariants::lemma_place_leaf(ix, show, l, hid, parent);
    assert(m.exits == l.exits.insert(hid, seq![node]));
    assert(m.entry == l.entry.insert(hid, node));
    assert(!l.exits.contains_key(hid));
    nesting::lemma_counted_kept(ix, show, l, m, open);
    assert(l1.nodes[node@ as int].cluster == parent);
    assert(m.nodes[node@ as int] == l1.nodes[node@ as int]);
    assert(flow::laid_as(ix, m, hid) == Shape::Leaf);
    assert(flow::header_flow(ix, show, m, hid));
    assert(flow::flows(ix, show, l1, l1));
    causes::lemma_tells_same(ix, show, l2, l2);
    causes::lemma_leaf_causes(ix, show, m, hid);
    lemma_own_calls(ix, show, l2, m, hid, parent);
    assert(l2.edges =~= l.edges + causes::edges_of(ix, m, seq![]));
    causes::lemma_tells_header(
        ix,
        show,
        l,
        l2,
        l2,
        m,
        hid,
        seq![],
        causes::call_log(ix, show, hid),
    );
    if show {
        turns::lemma_only_calls(l2, hid, ix.calls(hid), node, parent);
    }
    assert(turns::laying_order(ix, m, hid) =~= seq![]);
    turns::lemma_turns_none(ix, l2, l2, turns::laying_order(ix, m, hid));
    assert forall|i: int, h: Hid|
        l.nodes.len() <= i < l2.nodes.len() && #[trigger] placement::stands_for(
            m.nodes[i],
            h,
        ) implies h == hid && i == l.nodes.len() by {
        assert(m.nodes[i] == l1.nodes[i]);
    }
    turns::lemma_new_calls_shown(ix, show, l2, m, hid, node, parent);
    assert(turns::adds_own_calls(ix, l, l2, m, hid));
    turns::lemma_turn(ix, show, l, l2, l2, m, hid);
}

/// The edges of the calls of a header, by their causes.
proof fn lemma_own_calls(
    ix: IndexView,
    show: bool,
    l: Layout,
    m: Layout,
    hid: Hid,
    cluster: Option<ClusterId>,
)
    requires
        model::show_calls(ix, show, l, hid, l.entry[hid], cluster) == Some(m),
        m.entry == l.entry,
    ensures
        m.edges == l.edges + causes::edges_of(ix, m, causes::call_log(ix, show, hid)),
{
    let log = causes::call_log(ix, show, hid);
    if show {
        causes::lemma_call_edges(l, hid, ix.calls(hid), l.entry[hid], cluster);
        assert(causes::edges_of(ix, m, log) =~= causes::called_edges(
            m,
            hid,
            ix.calls(hid),
            l.entry[hid],
        ));
    } else {
        assert(l.edges + causes::edges_of(ix, m, log) =~= l.edges);
    }
}

#[verifier::rlimit(60)]
proof fn lemma_branch(
    ix: IndexView,
    show: bool,
    rank: Ranking,
    l: Layout,
    hid: Hid,
    parent: Option<ClusterId>,
    fuel: nat,
    open: Set<Hid>,
)
    requires
        grounded(ix, show, rank),
        ready(ix, show, rank, l, open, rank.of(hid) + 1),
        scopes_left(ix, rank, l, rank.of(hid), None),
        invariants::is_cluster(l, parent),
        ix.header(hid) is Some,
        rank.of(hid) < fuel,
        rank.of(hid) < rank.limit,
        !l.entry.contains_key(hid),
        model::shape(ix, hid, parent) == Shape::Branch,
    ensures
        goes_to(ix, show, rank, l, model::place_branch(ix, show, l, hid, parent, fuel), open, hid),
    decreases fuel, 1nat, 0nat,
{
    let h = ix.header(hid)->0;
    let md = ix.md_children(hid);
    let nested = ix.nested_children(hid);
    let cluster = l.next_cluster();
    let decision = l.next_node();
    let r = rank.of(hid);
    let less = (fuel - 1) as nat;
    assert(!open.contains(hid));
    assert(!l.exits.contains_key(hid));
    nesting::lemma_cluster_room(ix, show, l, open, hid);
    invariants::lemma_add_cluster(ix, show, l, h.title, parent);
    let l1 = l.add_cluster(h.title, parent)->0;
    nesting::lemma_header_room(ix, show, l1, hid);
    invariants::lemma_place_node(ix, show, l1, hid, true, Some(cluster));
    let l2 = l1.place_node(h, hid, true, Some(cluster))->0;
    lemma_show_calls_fit(ix, show, l2, hid, Some(cluster));
    invariants::lemma_show_calls(ix, show, l2, hid, Some(cluster));
    let l3 = model::show_calls(ix, show, l2, hid, decision, Some(cluster))->0;
    assert(l3.entry == l.entry.insert(hid, decision));
    assert(l3.exits == l.exits);
    assert(ready(ix, show, rank, l3, open, r)) by {
        assert(nesting::begun(l3, open) =~= nesting::begun(l, open).insert(hid));
    }
    assert(scopes_left(ix, rank, l3, r, None)) by {
        assert forall|s: ScopeId| #[trigger]
            l3.visited.contains(s) && items_below(ix, rank, s, r) implies l3.all_left(
            ix.scope_items(s),
        ) by {
            assert(l.visited.contains(s));
            assert(l.all_left(ix.scope_items(s)));
        }
    }
    lemma_below(ix, show, rank, hid, less);
    lemma_branches(ix, show, rank, l3, nested, Some(cluster), less, r, open);
    let l4 = model::place_branches(ix, show, l3, nested, Some(cluster), less)->0;
    lemma_goes_on(ix, show, rank, l3, l4, open, r, None);
    invariants::lemma_cluster_kept(ix, l3, l4, Some(cluster));
    lemma_headers(ix, show, rank, l4, md, Some(cluster), less, r, open);
    let l5 = model::place_headers(ix, show, l4, md, Some(cluster), less)->0;
    lemma_tells_chain(ix, show, rank, l3, l4, l5, open, r);
    invariants::lemma_cluster_kept(ix, l4, l5, Some(cluster));
    flow::lemma_left_kept(l4, l5, nested);
    assert(l3.entry.contains_key(hid));
    assert(l5.entry[hid] == decision);
    assert(!l5.exits.contains_key(hid));
    assert(l2.nodes[decision@ as int].kind is Decision);
    assert(l3.nodes[decision@ as int] == l2.nodes[decision@ as int]);
    assert(l5.nodes[decision@ as int] == l3.nodes[decision@ as int]);
    assert(flow::laid_as(ix, l5, hid) == Shape::Branch);
    if show {
        invariants::lemma_calls_linked_kept(ix, l3, l5, hid);
    }
    lemma_branch_closes(ix, show, l5, hid, cluster);
    invariants::lemma_close_branch(ix, show, l5, hid, cluster);
    let p = model::close_branch(ix, show, l5, hid, decision, cluster)->0;
    invariants::lemma_place_branch(ix, show, l, hid, parent, fuel);
    lemma_flow_step(ix, show, rank, l, l3, l5, p.layout, hid);
    lemma_branch_told(ix, show, l, l2, l3, l5, p.layout, hid, Some(cluster));
    lemma_not_below_itself(ix, rank, hid);
    turns::lemma_turns_chain(
        ix,
        show,
        l3,
        l4,
        l5,
        turns::opened_by_all(ix, nested),
        md,
    );
    lemma_branch_turn(ix, show, l, l1, l2, l3, l5, p, hid, parent);
    nesting::lemma_counted_kept(ix, show, l5, p.layout, open);
}

/// The turn of a branch.
proof fn lemma_branch_turn(
    ix: IndexView,
    show: bool,
    l: Layout,
    l1: Layout,
    l2: Layout,
    l3: Layout,
    l5: Layout,
    p: Placed,
    hid: Hid,
    parent: Option<ClusterId>,
)
    requires
        ix.header(hid) is Some,
        !l.entry.contains_key(hid),
        !placement::hangs_from(ix, hid, hid),
        l.add_cluster(ix.header(hid)->0.title, parent) == Some(l1),
        l1.place_node(ix.header(hid)->0, hid, true, Some(l.next_cluster())) == Some(l2),
        model::show_calls(ix, show, l2, hid, l.next_node(), Some(l.next_cluster())) == Some(l3),
        l3.entry == l.entry.insert(hid, l.next_node()),
        invariants::extends(ix, l, l3),
        invariants::extends(ix, l3, l5),
        invariants::sound(ix, show, l5),
        flow::flows(ix, show, l3, l5),
        invariants::sound(ix, show, p.layout),
        model::close_branch(ix, show, l5, hid, l.next_node(), l.next_cluster()) == Some(p),
        invariants::same_headers(ix, l5, p.layout),
        flow::laid_as(ix, p.layout, hid) == Shape::Branch,
        turns::take_turns(
            ix,
            l3,
            l5,
            turns::opened_by_all(ix, ix.nested_children(hid)) + ix.md_children(hid),
        ),
    ensures
        turns::take_turns(ix, l, p.layout, seq![hid]),
{
    let m = p.layout;
    let nested = ix.nested_children(hid);
    let linked = l5.link(model::edges_out_of(l.next_node(), l5.entries(nested)));
    if show {
        turns::lemma_only_calls(
            l2,
            hid,
            ix.calls(hid),
            l.next_node(),
            Some(l.next_cluster()),
        );
        turns::lemma_only_calls_of_all(ix, linked, nested, Some(l.next_cluster()));
    }
    assert(l2.nodes.len() == l.nodes.len() + 1);
    assert(m.nodes[l.nodes.len() as int] == l2.nodes[l.nodes.len() as int]) by {
        assert(l3.nodes[l.nodes.len() as int] == l2.nodes[l.nodes.len() as int]);
        assert(l5.nodes[l.nodes.len() as int] == l3.nodes[l.nodes.len() as int]);
    }
    assert(m.clusters[l.clusters.len() as int] == l1.clusters[l.clusters.len() as int]) by {
        assert(l3.clusters[l.clusters.len() as int] == l1.clusters[l.clusters.len() as int]);
        assert(l5.clusters[l.clusters.len() as int] == l3.clusters[l.clusters.len() as int]);
    }
    assert forall|i: int, h: Hid|
        l.nodes.len() <= i < l3.nodes.len() && #[trigger] placement::stands_for(
            m.nodes[i],
            h,
        ) implies h == hid && i == l.nodes.len() by {
        assert(m.nodes[i] == l3.nodes[i]);
        if i > l.nodes.len() {
            assert(placement::stands_for(l3.nodes[i], h));
        }
    }
    assert forall|h: Hid| #[trigger] l.entry.contains_key(h) implies l3.entry.contains_key(h) by {}
    assert(turns::adds_own_calls(ix, l, l3, m, hid)) by {
        turns::lemma_new_calls_shown(
            ix,
            show,
            l2,
            l3,
            hid,
            l.next_node(),
            Some(l.next_cluster()),
        );
        assert(l2.calls == l.calls);
        lemma_same_calls(ix, l2, l3, l, l3);
    }
    assert(turns::adds_branch_calls(ix, l, l5, m, hid)) by {
        lemma_branch_calls(ix, show, l, l3, l5, linked, m, hid, Some(l.next_cluster()));
    }
    turns::lemma_turn(ix, show, l, l3, l5, m, hid);
}

/// The calls that get nodes depend on nothing but which have nodes.
proof fn lemma_same_calls(ix: IndexView, k: Layout, l: Layout, m: Layout, n: Layout)
    requires
        m.calls == k.calls,
        n.calls == l.calls,
    ensures
        forall|h: Hid, i: int| #[trigger]
            turns::is_new_call(ix, m, n, h, i) == turns::is_new_call(ix, k, l, h, i),
        turns::calls_come_in_order(ix, k, l) ==> turns::calls_come_in_order(ix, m, n),
{
    assert forall|h: Hid, i: int| #[trigger]
        turns::is_new_call(ix, m, n, h, i) == turns::is_new_call(ix, k, l, h, i) by {}
    if turns::calls_come_in_order(ix, k, l) {
        assert forall|h: Hid, i: int, j: int|
            #![trigger turns::is_new_call(ix, m, n, h, i), ix.calls(h)[j]]
            turns::is_new_call(ix, m, n, h, i) && 0 <= j < ix.calls(h).len() implies
            n.calls.contains_key((h, ix.calls(h)[j])) by {
            assert(turns::is_new_call(ix, k, l, h, i));
        }
        assert forall|h: Hid, i: int, j: int|
            #![trigger turns::is_new_call(ix, m, n, h, i), turns::is_new_call(ix, m, n, h, j)]
            turns::is_new_call(ix, m, n, h, i) && turns::is_new_call(ix, m, n, h, j) && i < j
                && !ix.calls(h).take(j).contains(ix.calls(h)[j]) implies turns::call_place(
            ix,
            n,
            h,
            i,
        ) < turns::call_place(ix, n, h, j) by {
            assert(turns::is_new_call(ix, k, l, h, i));
            assert(turns::is_new_call(ix, k, l, h, j));
        }
    }
}

/// The calls of branches that get nodes as a decision is completed.
proof fn lemma_branch_calls(
    ix: IndexView,
    show: bool,
    l: Layout,
    l3: Layout,
    l5: Layout,
    linked: Layout,
    m: Layout,
    hid: Hid,
    cluster: Option<ClusterId>,
)
    requires
        !placement::hangs_from(ix, hid, hid),
        forall|h: Hid| #[trigger]
            l3.entry.contains_key(h) && h != hid ==> l.entry.contains_key(h),
        invariants::sound(ix, show, l5),
        flow::flows(ix, show, l3, l5),
        linked == (Layout { edges: linked.edges, ..l5 }),
        show ==> model::show_calls_of_all(ix, linked, ix.nested_children(hid), cluster) is Some,
        show ==> m.calls == model::show_calls_of_all(
            ix,
            linked,
            ix.nested_children(hid),
            cluster,
        )->0.calls,
        show ==> m.nodes == model::show_calls_of_all(
            ix,
            linked,
            ix.nested_children(hid),
            cluster,
        )->0.nodes,
        !show ==> m.calls == l5.calls,
        invariants::same_headers(ix, l5, m),
        l5.all_entered(ix.nested_children(hid)),
        flow::laid_as(ix, m, hid) == Shape::Branch,
    ensures
        turns::adds_branch_calls(ix, l, l5, m, hid),
{
    let nested = ix.nested_children(hid);
    if show {
        turns::lemma_new_calls_of_all(ix, linked, nested, cluster);
        let q = model::show_calls_of_all(ix, linked, nested, cluster)->0;
        lemma_same_calls(ix, linked, q, l5, m);
        assert forall|h: Hid, i: int| #[trigger] turns::is_new_call(ix, l5, m, h, i) implies {
            &&& l5.nodes.len() <= turns::call_place(ix, m, h, i) < m.nodes.len()
            &&& nested.contains(h)
            &&& m.entry.contains_key(h)
            &&& flow::laid_as(ix, m, h) == Shape::Leaf || flow::laid_as(ix, m, h) == Shape::Branch
                ==> l.entry.contains_key(h)
        } by {
            assert(turns::is_new_call(ix, linked, q, h, i));
            let k = choose|k: int| 0 <= k < nested.len() && nested[k] == h;
            assert(l5.entry.contains_key(nested[k]));
            assert(placement::hangs_from(ix, hid, h));
            assert(invariants::is_header_node(l5, l5.entry[h]));
            assert(m.nodes[l5.entry[h]@ as int] == l5.nodes[l5.entry[h]@ as int]);
            if !l.entry.contains_key(h) {
                assert(!l3.entry.contains_key(h));
                assert(flow::header_flow(ix, show, l5, h));
                if flow::laid_as(ix, l5, h) == Shape::Leaf || flow::laid_as(ix, l5, h)
                    == Shape::Branch {
                    assert(invariants::calls_linked(ix, l5, h));
                    assert(l5.calls.contains_key((h, ix.calls(h)[i])));
                }
            }
        }
    }
}

/// The edges of a branch and of all below it.
proof fn lemma_branch_told(
    ix: IndexView,
    show: bool,
    l: Layout,
    l2: Layout,
    l3: Layout,
    l5: Layout,
    m: Layout,
    hid: Hid,
    cluster: Option<ClusterId>,
)
    requires
        !l.entry.contains_key(hid),
        l2.edges == l.edges,
        l2.entry.contains_key(hid),
        l3.entry == l2.entry,
        model::show_calls(ix, show, l2, hid, l2.entry[hid], cluster) == Some(l3),
        show ==> invariants::calls_linked(ix, l3, hid),
        forall|h: Hid| #[trigger]
            l3.entry.contains_key(h) && h != hid ==> l.entry.contains_key(h),
        forall|h: Hid| #[trigger] l.entry.contains_key(h) ==> l3.entry.contains_key(h),
        l3.visited == l.visited,
        invariants::extends(ix, l3, l5),
        invariants::sound(ix, show, l5),
        flow::flows(ix, show, l3, l5),
        causes::tells(ix, show, l3, l5),
        !l5.exits.contains_key(hid),
        invariants::sound(ix, show, m),
        invariants::extends(ix, l5, m),
        invariants::keeps_entries(l5, m),
        flow::keeps_exits(l5, m),
        m.visited == l5.visited,
        forall|h: Hid| #[trigger]
            m.entry.contains_key(h) && h != hid ==> l5.entry.contains_key(h),
        m.edges == l5.edges + causes::edges_of(ix, m, causes::branch_log(ix, show, m, hid)),
        flow::laid_as(ix, m, hid) == Shape::Branch,
        flow::header_flow(ix, show, m, hid),
    ensures
        causes::tells(ix, show, l, m),
{
    let log = causes::call_log(ix, show, hid);
    lemma_own_calls(ix, show, l2, l3, hid, cluster);
    causes::lemma_branch_causes(ix, show, m, hid);
    assert(m.entry[hid] == l3.entry[hid]) by {
        assert(l3.entry.contains_key(hid));
        assert(l5.entry.contains_key(hid));
    }
    assert(causes::edges_of(ix, m, log) =~= causes::edges_of(ix, l3, log)) by {
        assert forall|i: int| 0 <= i < log.len() implies causes::edge_of(ix, m, #[trigger] log[i])
            == causes::edge_of(ix, l3, log[i]) by {
            let k = (hid, ix.calls(hid)[i]);
            assert(l3.calls.contains_key(k));
            assert(l5.calls.contains_key(k));
        }
    }
    causes::lemma_tells_header(
        ix,
        show,
        l,
        l3,
        l5,
        m,
        hid,
        log,
        causes::branch_log(ix, show, m, hid),
    );
}

proof fn lemma_flat(
    ix: IndexView,
    show: bool,
    rank: Ranking,
    l: Layout,
    hid: Hid,
    parent: Option<ClusterId>,
    fuel: nat,
    open: Set<Hid>,
)
    requires
        grounded(ix, show, rank),
        ready(ix, show, rank, l, open, rank.of(hid) + 1),
        scopes_left(ix, rank, l, rank.of(hid), None),
        invariants::is_cluster(l, parent),
        ix.header(hid) is Some,
        rank.of(hid) < fuel,
        rank.of(hid) < rank.limit,
        !l.entry.contains_key(hid),
        model::shape(ix, hid, parent) == Shape::Flat,
    ensures
        goes_to(ix, show, rank, l, model::place_flat(ix, show, l, hid, parent, fuel), open, hid),
    decreases fuel, 1nat, 0nat,
{
    let md = ix.md_children(hid);
    let nested = ix.nested_children(hid);
    let node = l.next_node();
    let r = rank.of(hid);
    let less = (fuel - 1) as nat;
    assert(!l.exits.contains_key(hid));
    nesting::lemma_header_room(ix, show, l, hid);
    invariants::lemma_place_node(ix, show, l, hid, false, parent);
    let l1 = l.place_node(ix.header(hid)->0, hid, false, parent)->0;
    nesting::lemma_counted_kept(ix, show, l, l1, open);
    assert(ready(ix, show, rank, l1, open, r));
    assert(scopes_left(ix, rank, l1, r, None)) by {
        assert forall|s: ScopeId| #[trigger]
            l1.visited.contains(s) && items_below(ix, rank, s, r) implies l1.all_left(
            ix.scope_items(s),
        ) by {
            assert(l.visited.contains(s));
            assert(l.all_left(ix.scope_items(s)));
        }
    }
    lemma_below(ix, show, rank, hid, less);
    assert(md.len() + nested.len() == 1);
    let l2 = if md.len() == 1 {
        lemma_headers(ix, show, rank, l1, md, parent, less, r, open);
        model::place_headers(ix, show, l1, md, parent, less)->0
    } else {
        lemma_branches(ix, show, rank, l1, nested, parent, less, r, open);
        model::place_branches(ix, show, l1, nested, parent, less)->0
    };
    let child = if md.len() == 1 {
        md[0]
    } else {
        nested[0]
    };
    assert(goes(ix, show, rank, l1, l2, open, r));
    assert(causes::tells(ix, show, l1, l2));
    assert(turns::take_turns(
        ix,
        l1,
        l2,
        if md.len() == 1 {
            md
        } else {
            turns::opened_by_all(ix, nested)
        },
    ));
    assert(l2.exits.contains_key(child));
    assert(l1.entry.contains_key(hid));
    assert(l2.entry[hid] == node);
    assert(!l2.exits.contains_key(hid));
    assert(l1.nodes[node@ as int].cluster == parent);
    assert(l2.nodes[node@ as int] == l1.nodes[node@ as int]);
    assert(flow::laid_as(ix, l2, hid) == Shape::Flat);
    lemma_flat_closes(ix, show, l2, hid, child);
    invariants::lemma_close_flat(ix, show, l2, hid, child);
    let p = model::close_flat(ix, l2, hid, node, child)->0;
    invariants::lemma_place_flat(ix, show, l, hid, parent, fuel);
    lemma_flow_step(ix, show, rank, l, l1, l2, p.layout, hid);
    nesting::lemma_counted_kept(ix, show, l2, p.layout, open);
    assert(l1.edges =~= l.edges + causes::edges_of(ix, p.layout, seq![]));
    causes::lemma_line_causes(ix, show, p.layout, hid);
    causes::lemma_tells_header(
        ix,
        show,
        l,
        l1,
        l2,
        p.layout,
        hid,
        seq![],
        seq![Cause::Line { header: hid }],
    );
    lemma_not_below_itself(ix, rank, hid);
    let order = turns::laying_order(ix, p.layout, hid);
    assert(flow::laid_as(ix, p.layout, hid) == Shape::Flat);
    assert(turns::take_turns(ix, l1, l2, order)) by {
        if md.len() == 1 {
            assert(order =~= md);
        } else {
            assert(order =~= turns::opened_by_all(ix, nested));
        }
    }
    assert forall|i: int, h: Hid|
        l.nodes.len() <= i < l1.nodes.len() && #[trigger] placement::stands_for(
            p.layout.nodes[i],
            h,
        ) implies h == hid && i == l.nodes.len() by {
        assert(p.layout.nodes[i] == l1.nodes[i]);
    }
    assert(turns::adds_own_calls(ix, l, l1, p.layout, hid));
    assert(turns::adds_branch_calls(ix, l, l2, p.layout, hid));
    turns::lemma_turn(ix, show, l, l1, l2, p.layout, hid);
}

#[verifier::rlimit(50)]
proof fn lemma_container(
    ix: IndexView,
    show: bool,
    rank: Ranking,
    l: Layout,
    hid: Hid,
    parent: Option<ClusterId>,
    fuel: nat,
    open: Set<Hid>,
)
    requires
        grounded(ix, show, rank),
        ready(ix, show, rank, l, open, rank.of(hid) + 1),
        scopes_left(ix, rank, l, rank.of(hid), None),
        invariants::is_cluster(l, parent),
        ix.header(hid) is Some,
        rank.of(hid) < fuel,
        rank.of(hid) < rank.limit,
        !l.entry.contains_key(hid),
        invariants::homed(ix, parent, hid),
        model::shape(ix, hid, parent) == Shape::Container,
    ensures
        goes_to(
            ix,
            show,
            rank,
            l,
            model::place_container(ix, show, l, hid, parent, fuel),
            open,
            hid,
        ),
    decreases fuel, 1nat, 0nat,
{
    let nested = ix.nested_children(hid);
    let all = model::children(ix, hid);
    let scopes = model::scopes_of(ix, nested);
    let cluster = l.next_cluster();
    let title = ix.header(hid)->0.title;
    let r = rank.of(hid);
    let less = (fuel - 1) as nat;
    let wider = open.insert(hid);
    assert(!l.exits.contains_key(hid));
    nesting::lemma_cluster_room(ix, show, l, open, hid);
    invariants::lemma_add_cluster(ix, show, l, title, parent);
    let l1 = l.add_cluster(title, parent)->0;
    assert(ready(ix, show, rank, l1, wider, r)) by {
        assert(nesting::begun(l1, wider) =~= nesting::begun(l, open).insert(hid));
    }
    assert(scopes_left(ix, rank, l1, r, None)) by {
        assert forall|s: ScopeId| #[trigger]
            l1.visited.contains(s) && items_below(ix, rank, s, r) implies l1.all_left(
            ix.scope_items(s),
        ) by {
            assert(l.visited.contains(s));
            assert(l.all_left(ix.scope_items(s)));
        }
    }
    lemma_below(ix, show, rank, hid, less);
    assert forall|i: int| 0 <= i < scopes.len() implies scope_placeable(
        ix,
        rank,
        #[trigger] scopes[i],
        less,
        r,
    ) by {
        assert(scopes[i] == ix.scope_of(nested[i]));
    }
    lemma_scopes(ix, show, rank, l1, scopes, Some(cluster), less, r, wider);
    let l2 = model::place_scopes(ix, show, l1, scopes, Some(cluster), less)->0;
    lemma_goes_on(ix, show, rank, l1, l2, wider, r, None);
    invariants::lemma_cluster_kept(ix, l1, l2, Some(cluster));
    lemma_headers(ix, show, rank, l2, all, Some(cluster), less, r, wider);
    let l3 = model::place_headers(ix, show, l2, all, Some(cluster), less)->0;
    lemma_tells_chain(ix, show, rank, l1, l2, l3, wider, r);
    lemma_goes_on(ix, show, rank, l2, l3, wider, r, None);
    assert(!l3.exits.contains_key(hid));
    assert(!l3.entry.contains_key(hid)) by {
        if l3.entry.contains_key(hid) {
            assert(flow::header_flow(ix, show, l3, hid));
        }
    }
    assert(chainable(ix, l3, hid)) by {
        assert forall|i: int| 0 <= i < all.len() implies {
            &&& l3.entry.contains_key(#[trigger] all[i])
            &&& l3.exits.contains_key(flow::left_by(ix, hid, all[i]))
            &&& model::leaves_by(ix, l3, nested, all[i]) == flow::left_by(ix, hid, all[i])
        } by {
            assert(l3.exits.contains_key(all[i]));
            let items = ix.scope_items(ix.scope_of(all[i]));
            if nested.contains(all[i]) && items.len() > 0 {
                let k = choose|k: int| 0 <= k < nested.len() && nested[k] == all[i];
                assert(scopes[k] == ix.scope_of(all[i]));
                assert(l2.all_left(ix.scope_items(scopes[k])));
                flow::lemma_left_kept(l2, l3, items);
                assert(l3.exits.contains_key(items[items.len() - 1]));
            }
        }
    }
    lemma_container_closes(ix, show, l3, hid);
    invariants::lemma_close_container(ix, show, l3, hid);
    let p = model::close_container(ix, l3, hid)->0;
    invariants::lemma_place_container(ix, show, l, hid, parent, fuel);
    lemma_flow_step(ix, show, rank, l, l1, l3, p.layout, hid);
    assert(nesting::begun(p.layout, open) =~= nesting::begun(l3, wider));
    lemma_not_below_itself(ix, rank, hid);
    turns::lemma_turns_chain(ix, show, l1, l2, l3, turns::items_of_all(ix, scopes), all);
    lemma_container_told(ix, show, l, l1, l3, p.layout, hid, parent);
}

/// The edges and the turn of a container and of all below it.
proof fn lemma_container_told(
    ix: IndexView,
    show: bool,
    l: Layout,
    l1: Layout,
    l3: Layout,
    m: Layout,
    hid: Hid,
    parent: Option<ClusterId>,
)
    requires
        ix.header(hid) is Some,
        !l.entry.contains_key(hid),
        !l3.entry.contains_key(hid),
        !placement::hangs_from(ix, hid, hid),
        l.add_cluster(ix.header(hid)->0.title, parent) == Some(l1),
        invariants::extends(ix, l1, l3),
        invariants::sound(ix, show, l3),
        flow::flows(ix, show, l1, l3),
        causes::tells(ix, show, l1, l3),
        turns::take_turns(
            ix,
            l1,
            l3,
            turns::items_of_all(ix, model::scopes_of(ix, ix.nested_children(hid)))
                + model::children(ix, hid),
        ),
        invariants::extends(ix, l3, m),
        m.entry == l3.entry.insert(hid, m.entry[hid]),
        flow::keeps_exits(l3, m),
        m.visited == l3.visited,
        m.clusters == l3.clusters,
        m.nodes == l3.nodes,
        m.calls == l3.calls,
        invariants::sound(ix, show, m),
        m.edges == l3.edges + causes::edges_of(ix, m, causes::next_log(ix, m, hid, 0)),
        flow::laid_as(ix, m, hid) == Shape::Container,
    ensures
        causes::tells(ix, show, l, m),
        turns::take_turns(ix, l, m, seq![hid]),
{
    let nested = ix.nested_children(hid);
    assert(l1.edges =~= l.edges + causes::edges_of(ix, m, seq![]));
    causes::lemma_container_causes(ix, show, m, hid);
    causes::lemma_tells_header(
        ix,
        show,
        l,
        l1,
        l3,
        m,
        hid,
        seq![],
        causes::next_log(ix, m, hid, 0),
    );
    assert(model::scopes_of(ix, nested) =~= nested.map_values(|n: Hid| ix.scope_of(n)));
    assert(m.clusters[l.clusters.len() as int] == l1.clusters[l.clusters.len() as int]);
    assert(turns::adds_own_calls(ix, l, l1, m, hid));
    assert(turns::adds_branch_calls(ix, l, l3, m, hid));
    turns::lemma_turn(ix, show, l, l1, l3, m, hid);
}

proof fn lemma_header(
    ix: IndexView,
    show: bool,
    rank: Ranking,
    l: Layout,
    hid: Hid,
    parent: Option<ClusterId>,
    fuel: nat,
    open: Set<Hid>,
)
    requires
        grounded(ix, show, rank),
        ready(ix, show, rank, l, open, rank.of(hid) + 1),
        scopes_left(ix, rank, l, rank.of(hid), None),
        invariants::is_cluster(l, parent),
        ix.header(hid) is Some,
        invariants::homed(ix, parent, hid),
        rank.of(hid) < fuel,
        rank.of(hid) < rank.limit,
    ensures
        goes_to(ix, show, rank, l, model::place_header(ix, show, l, hid, parent, fuel), open, hid),
    decreases fuel, 2nat, 0nat,
{
    if l.entry.contains_key(hid) {
        lemma_goes_same(ix, show, rank, l, open, rank.of(hid) + 1);
        turns::lemma_turns_none(ix, l, l, seq![hid]);
    } else {
        match model::shape(ix, hid, parent) {
            Shape::Leaf => lemma_leaf(ix, show, rank, l, hid, parent, open),
            Shape::Branch => lemma_branch(ix, show, rank, l, hid, parent, fuel, open),
            Shape::Flat => lemma_flat(ix, show, rank, l, hid, parent, fuel, open),
            Shape::Container => lemma_container(ix, show, rank, l, hid, parent, fuel, open),
        }
    }
}

/// Lays out a header among others that rank below `r`.
proof fn lemma_header_among(
    ix: IndexView,
    show: bool,
    rank: Ranking,
    l: Layout,
    hid: Hid,
    parent: Option<ClusterId>,
    fuel: nat,
    r: nat,
    open: Set<Hid>,
    pending: Option<ScopeId>,
)
    requires
        grounded(ix, show, rank),
        ready(ix, show, rank, l, open, r),
        scopes_left(ix, rank, l, r, pending),
        pending matches Some(s) ==> ix.scope_items(s).contains(hid),
        invariants::is_cluster(l, parent),
        invariants::homed(ix, parent, hid),
        ix.header(hid) is Some,
        rank.of(hid) < r,
        rank.of(hid) < fuel,
        rank.of(hid) < rank.limit,
    ensures
        ({
            let p = model::place_header(ix, show, l, hid, parent, fuel);
            let m = p->0.layout;
            &&& p is Some
            &&& goes(ix, show, rank, l, m, open, r)
            &&& causes::tells(ix, show, l, m)
            &&& turns::take_turns(ix, l, m, seq![hid])
            &&& ready(ix, show, rank, m, open, r)
            &&& scopes_left(ix, rank, m, r, pending)
            &&& invariants::is_cluster(m, parent)
            &&& m.exits.contains_key(hid)
            &&& m.exits[hid] == p->0.exits
            &&& m.entry.contains_key(hid)
            &&& m.entry[hid] == p->0.entry
        }),
    decreases fuel, 2nat, 1nat,
{
    lemma_narrow(ix, show, rank, l, open, r, rank.of(hid) + 1);
    if pending is Some {
        let items = ix.scope_items(pending->0);
        let k = choose|k: int| 0 <= k < items.len() && items[k] == hid;
        assert(!(rank.of(items[k]) < rank.of(hid)));
    }
    lemma_scopes_narrow(ix, rank, l, r, rank.of(hid), pending);
    lemma_header(ix, show, rank, l, hid, parent, fuel, open);
    invariants::lemma_place_header(ix, show, l, hid, parent, fuel);
    let m = model::place_header(ix, show, l, hid, parent, fuel)->0.layout;
    assert(goes(ix, show, rank, l, m, open, r));
    lemma_goes_on(ix, show, rank, l, m, open, r, pending);
    invariants::lemma_cluster_kept(ix, l, m, parent);
}

proof fn lemma_headers(
    ix: IndexView,
    show: bool,
    rank: Ranking,
    l: Layout,
    hids: Seq<Hid>,
    parent: Option<ClusterId>,
    fuel: nat,
    r: nat,
    open: Set<Hid>,
)
    requires
        grounded(ix, show, rank),
        ready(ix, show, rank, l, open, r),
        scopes_left(ix, rank, l, r, None),
        invariants::is_cluster(l, parent),
        parent is Some,
        placeable(ix, rank, hids, fuel, r),
    ensures
        model::place_headers(ix, show, l, hids, parent, fuel) is Some,
        goes(
            ix,
            show,
            rank,
            l,
            model::place_headers(ix, show, l, hids, parent, fuel)->0,
            open,
            r,
        ),
        causes::tells(ix, show, l, model::place_headers(ix, show, l, hids, parent, fuel)->0),
        turns::take_turns(ix, l, model::place_headers(ix, show, l, hids, parent, fuel)->0, hids),
        model::place_headers(ix, show, l, hids, parent, fuel)->0.all_left(hids),
    decreases fuel, 3nat, hids.len(),
{
    if hids.len() == 0 {
        lemma_goes_same(ix, show, rank, l, open, r);
        turns::lemma_turns_none(ix, l, l, hids);
    } else {
        assert(ix.header(hids[0]) is Some);
        lemma_header_among(ix, show, rank, l, hids[0], parent, fuel, r, open, None);
        let n = model::place_header(ix, show, l, hids[0], parent, fuel)->0.layout;
        let rest = hids.drop_first();
        assert(placeable(ix, rank, rest, fuel, r)) by {
            assert forall|i: int| 0 <= i < rest.len() implies ix.header(#[trigger] rest[i]) is Some
                && rank.of(rest[i]) < r && rank.of(rest[i]) < fuel && rank.of(rest[i]) < rank.limit by {
                assert(rest[i] == hids[i + 1]);
            }
        }
        lemma_headers(ix, show, rank, n, rest, parent, fuel, r, open);
        let m = model::place_headers(ix, show, n, rest, parent, fuel)->0;
        lemma_tells_chain(ix, show, rank, l, n, m, open, r);
        turns::lemma_turns_chain(ix, show, l, n, m, seq![hids[0]], rest);
        assert(seq![hids[0]] + rest =~= hids);
        assert forall|i: int| 0 <= i < hids.len() implies m.exits.contains_key(
            #[trigger] hids[i],
        ) by {
            if i > 0 {
                assert(m.exits.contains_key(rest[i - 1]));
            }
        }
    }
}

/// The items of a scope from the `k`th on, once those before are laid out.
#[verifier::rlimit(50)]
proof fn lemma_items(
    ix: IndexView,
    show: bool,
    rank: Ranking,
    l: Layout,
    scope: ScopeId,
    k: int,
    prev: Seq<NodeId>,
    parent: Option<ClusterId>,
    fuel: nat,
    r: nat,
    open: Set<Hid>,
)
    requires
        grounded(ix, show, rank),
        ready(ix, show, rank, l, open, r),
        scopes_left(ix, rank, l, r, Some(scope)),
        invariants::is_cluster(l, parent),
        parent is Some || tops::top_scopes(ix).contains(scope),
        scope_placeable(ix, rank, scope, fuel, r),
        l.visited.contains(scope),
        0 <= k <= ix.scope_items(scope).len(),
        flow::in_sequence(l, ix.scope_items(scope).take(k)),
        k == 0 ==> prev.len() == 0,
        k > 0 ==> prev == l.exits[ix.scope_items(scope)[k - 1]],
    ensures
        ({
            let items = ix.scope_items(scope);
            let m = model::place_items(ix, show, l, items.skip(k), prev, parent, fuel);
            &&& m is Some
            &&& goes(ix, show, rank, l, m->0, open, r)
            &&& causes::tells_items(ix, show, l, m->0, scope, k)
            &&& turns::take_turns(ix, l, m->0, items.skip(k))
            &&& flow::in_sequence(m->0, items)
        }),
    decreases fuel, 3nat, ix.scope_items(scope).len() - k,
{
    let items = ix.scope_items(scope);
    if k == items.len() {
        assert(items.take(k) =~= items);
        assert(items.skip(k).len() == 0);
        lemma_goes_same(ix, show, rank, l, open, r);
        causes::lemma_tells_items_end(ix, show, l, scope);
        turns::lemma_turns_none(ix, l, l, items.skip(k));
    } else {
        let hid = items[k];
        assert(items.skip(k)[0] == hid);
        assert(items.skip(k).drop_first() =~= items.skip(k + 1));
        assert(items.contains(hid));
        lemma_header_among(ix, show, rank, l, hid, parent, fuel, r, open, Some(scope));
        let p = model::place_header(ix, show, l, hid, parent, fuel)->0;
        let n = p.layout;
        let edges = model::edges_into(prev, p.entry);
        let o = n.link(edges);
        assert(invariants::are_header_nodes(n, prev)) by {
            if k > 0 {
                assert(items.take(k)[k - 1] == items[k - 1]);
                assert(l.exits.contains_key(items.take(k)[k - 1]));
                invariants::lemma_exits(ix, show, n, items[k - 1]);
            }
        }
        invariants::lemma_link_into(ix, show, n, prev, p.entry);
        lemma_same_headers_goes(ix, show, rank, n, o, open, r);
        lemma_goes_chain(ix, show, rank, l, n, o, open, r);
        lemma_goes_on(ix, show, rank, n, o, open, r, Some(scope));
        invariants::lemma_cluster_kept(ix, n, o, parent);
        flow::lemma_sequence_kept(ix, show, l, o, items.take(k));
        assert(flow::in_sequence(o, items.take(k + 1))) by {
            if k > 0 {
                assert(l.exits.contains_key(items.take(k)[k - 1]));
            }
            lemma_sequence_grows(o, items, k, prev, n, edges);
        }
        lemma_items(ix, show, rank, o, scope, k + 1, p.exits, parent, fuel, r, open);
        let m = model::place_items(ix, show, o, items.skip(k + 1), p.exits, parent, fuel)->0;
        lemma_goes_chain(ix, show, rank, n, o, m, open, r);
        lemma_goes_chain(ix, show, rank, l, o, m, open, r);
        if k > 0 {
            assert(l.exits.contains_key(items.take(k)[k - 1]));
            assert(n.exits.contains_key(items[k - 1]));
        }
        assert(n.all_entered(items.take(k + 1))) by {
            flow::lemma_left_entered(ix, show, o, items.take(k + 1));
        }
        causes::lemma_tells_item(ix, show, l, n, o, m, scope, k, prev);
        turns::lemma_turns_linked(ix, l, l, n, o, seq![hid]);
        turns::lemma_turns_chain(ix, show, l, o, m, seq![hid], items.skip(k + 1));
        assert(seq![hid] + items.skip(k + 1) =~= items.skip(k));
    }
}

proof fn lemma_sequence_grows(
    o: Layout,
    items: Seq<Hid>,
    k: int,
    prev: Seq<NodeId>,
    n: Layout,
    edges: Seq<Edge>,
)
    requires
        0 <= k < items.len(),
        flow::in_sequence(o, items.take(k)),
        o == n.link(edges),
        o.exits.contains_key(items[k]),
        edges == model::edges_into(prev, o.entry[items[k]]),
        k > 0 ==> prev == o.exits[items[k - 1]],
    ensures
        flow::in_sequence(o, items.take(k + 1)),
{
    let before = items.take(k);
    let after = items.take(k + 1);
    assert forall|i: int| 0 <= i < after.len() implies o.exits.contains_key(#[trigger] after[i]) by {
        if i < k {
            assert(after[i] == before[i]);
        }
    }
    assert forall|i: int| 0 <= i < after.len() - 1 implies #[trigger] flow::header_leads_on(
        o,
        after,
        i,
    ) by {
        if i < k - 1 {
            assert(flow::header_leads_on(o, before, i));
            assert(after[i] == before[i] && after[i + 1] == before[i + 1]);
        } else {
            assert forall|j: int| 0 <= j < prev.len() implies o.edges.contains(
                Edge { from: #[trigger] prev[j], to: o.entry[items[k]] },
            ) by {
                assert(o.edges[n.edges.len() + j] == edges[j]);
            }
        }
    }
}

proof fn lemma_scope(
    ix: IndexView,
    show: bool,
    rank: Ranking,
    l: Layout,
    scope: ScopeId,
    parent: Option<ClusterId>,
    fuel: nat,
    r: nat,
    open: Set<Hid>,
)
    requires
        grounded(ix, show, rank),
        ready(ix, show, rank, l, open, r),
        scopes_left(ix, rank, l, r, None),
        invariants::is_cluster(l, parent),
        parent is Some || tops::top_scopes(ix).contains(scope),
        scope_placeable(ix, rank, scope, fuel, r),
    ensures
        ({
            let m = model::place_scope(ix, show, l, scope, parent, fuel);
            &&& m is Some
            &&& goes(ix, show, rank, l, m->0, open, r)
            &&& causes::tells(ix, show, l, m->0)
            &&& turns::take_turns(ix, l, m->0, ix.scope_items(scope))
            &&& ready(ix, show, rank, m->0, open, r)
            &&& scopes_left(ix, rank, m->0, r, None)
            &&& invariants::is_cluster(m->0, parent)
            &&& m->0.all_left(ix.scope_items(scope))
        }),
    decreases fuel, 4nat, 0nat,
{
    let items = ix.scope_items(scope);
    assert(items_below(ix, rank, scope, r)) by {
        assert forall|i: int| 0 <= i < items.len() implies rank.of(#[trigger] items[i]) < r by {
            assert(ix.header(items[i]) is Some);
        }
    }
    if l.visited.contains(scope) {
        lemma_goes_same(ix, show, rank, l, open, r);
        flow::lemma_left_entered(ix, show, l, items);
        turns::lemma_turns_none(ix, l, l, items);
    } else {
        let v = l.visit(scope);
        invariants::lemma_visit(ix, show, l, scope);
        assert(nesting::begun(v, open) =~= nesting::begun(l, open));
        assert(ready(ix, show, rank, v, open, r));
        assert(scopes_left(ix, rank, v, r, Some(scope))) by {
            assert forall|s: ScopeId| #[trigger]
                v.visited.contains(s) && s != scope && items_below(
                    ix,
                    rank,
                    s,
                    r,
                ) implies v.all_left(ix.scope_items(s)) by {
                assert(l.visited.contains(s));
                assert(l.all_left(ix.scope_items(s)));
            }
        }
        assert(flow::in_sequence(v, items.take(0)));
        assert(items.skip(0) =~= items);
        lemma_items(ix, show, rank, v, scope, 0, seq![], parent, fuel, r, open);
        invariants::lemma_place_scope(ix, show, l, scope, parent, fuel);
        let m = model::place_scope(ix, show, l, scope, parent, fuel)->0;
        assert(flow::flows(ix, show, l, m)) by {
            assert forall|s: ScopeId| #[trigger]
                m.visited.contains(s) && !l.visited.contains(s) implies flow::in_sequence(
                m,
                ix.scope_items(s),
            ) by {
                if s != scope {
                    assert(!v.visited.contains(s));
                }
            }
            assert forall|h: Hid| #[trigger] l.exits.contains_key(h) implies m.exits.contains_key(
                h,
            ) && m.exits[h] == l.exits[h] by {
                assert(v.exits.contains_key(h));
            }
            assert forall|h: Hid| #[trigger]
                m.entry.contains_key(h) && !l.entry.contains_key(h) implies flow::header_flow(
                ix,
                show,
                m,
                h,
            ) by {
                assert(!v.entry.contains_key(h));
            }
        }
        assert(goes(ix, show, rank, l, m, open, r));
        assert(v.visited.contains(scope));
        causes::lemma_tells_scope(ix, show, l, m, scope);
        turns::lemma_turns_linked(ix, l, v, m, m, items);
        lemma_goes_on(ix, show, rank, l, m, open, r, None);
        invariants::lemma_cluster_kept(ix, l, m, parent);
    }
}

proof fn lemma_scopes(
    ix: IndexView,
    show: bool,
    rank: Ranking,
    l: Layout,
    scopes: Seq<ScopeId>,
    parent: Option<ClusterId>,
    fuel: nat,
    r: nat,
    open: Set<Hid>,
)
    requires
        grounded(ix, show, rank),
        ready(ix, show, rank, l, open, r),
        scopes_left(ix, rank, l, r, None),
        invariants::is_cluster(l, parent),
        parent is Some || forall|i: int|
            0 <= i < scopes.len() ==> tops::top_scopes(ix).contains(#[trigger] scopes[i]),
        forall|i: int|
            0 <= i < scopes.len() ==> scope_placeable(ix, rank, #[trigger] scopes[i], fuel, r),
    ensures
        ({
            let m = model::place_scopes(ix, show, l, scopes, parent, fuel);
            &&& m is Some
            &&& goes(ix, show, rank, l, m->0, open, r)
            &&& causes::tells(ix, show, l, m->0)
            &&& turns::take_turns(ix, l, m->0, turns::items_of_all(ix, scopes))
            &&& forall|i: int|
                0 <= i < scopes.len() ==> m->0.all_left(ix.scope_items(#[trigger] scopes[i]))
        }),
    decreases fuel, 5nat, scopes.len(),
{
    if scopes.len() == 0 {
        lemma_goes_same(ix, show, rank, l, open, r);
        turns::lemma_turns_none(ix, l, l, seq![]);
    } else {
        assert(scope_placeable(ix, rank, scopes[0], fuel, r));
        assert(parent is Some || tops::top_scopes(ix).contains(scopes[0]));
        lemma_scope(ix, show, rank, l, scopes[0], parent, fuel, r, open);
        let n = model::place_scope(ix, show, l, scopes[0], parent, fuel)->0;
        let rest = scopes.drop_first();
        assert forall|i: int| 0 <= i < rest.len() implies scope_placeable(
            ix,
            rank,
            #[trigger] rest[i],
            fuel,
            r,
        ) by {
            assert(rest[i] == scopes[i + 1]);
        }
        if parent is None {
            assert forall|i: int| 0 <= i < rest.len() implies tops::top_scopes(ix).contains(
                #[trigger] rest[i],
            ) by {
                assert(rest[i] == scopes[i + 1]);
            }
        }
        lemma_scopes(ix, show, rank, n, rest, parent, fuel, r, open);
        let m = model::place_scopes(ix, show, n, rest, parent, fuel)->0;
        lemma_tells_chain(ix, show, rank, l, n, m, open, r);
        turns::lemma_turns_chain(
            ix,
            show,
            l,
            n,
            m,
            ix.scope_items(scopes[0]),
            turns::items_of_all(ix, rest),
        );
        assert forall|i: int| 0 <= i < scopes.len() implies m.all_left(
            ix.scope_items(#[trigger] scopes[i]),
        ) by {
            if i > 0 {
                assert(m.all_left(ix.scope_items(rest[i - 1])));
            } else {
                flow::lemma_left_kept(n, m, ix.scope_items(scopes[0]));
            }
        }
    }
}

proof fn lemma_branches(
    ix: IndexView,
    show: bool,
    rank: Ranking,
    l: Layout,
    nested: Seq<Hid>,
    parent: Option<ClusterId>,
    fuel: nat,
    r: nat,
    open: Set<Hid>,
)
    requires
        grounded(ix, show, rank),
        ready(ix, show, rank, l, open, r),
        scopes_left(ix, rank, l, r, None),
        invariants::is_cluster(l, parent),
        parent is Some,
        placeable(ix, rank, nested, fuel, r),
        forall|i: int|
            0 <= i < nested.len() ==> scope_placeable(
                ix,
                rank,
                ix.scope_of(#[trigger] nested[i]),
                fuel,
                r,
            ),
    ensures
        ({
            let m = model::place_branches(ix, show, l, nested, parent, fuel);
            &&& m is Some
            &&& goes(ix, show, rank, l, m->0, open, r)
            &&& causes::tells(ix, show, l, m->0)
            &&& turns::take_turns(ix, l, m->0, turns::opened_by_all(ix, nested))
            &&& m->0.all_left(nested)
        }),
    decreases fuel, 5nat, nested.len(),
{
    if nested.len() == 0 {
        lemma_goes_same(ix, show, rank, l, open, r);
        turns::lemma_turns_none(ix, l, l, seq![]);
    } else {
        let scope = ix.scope_of(nested[0]);
        assert(scope_placeable(ix, rank, scope, fuel, r));
        lemma_scope(ix, show, rank, l, scope, parent, fuel, r, open);
        let n = model::place_scope(ix, show, l, scope, parent, fuel)->0;
        assert(ix.header(nested[0]) is Some);
        lemma_header_among(ix, show, rank, n, nested[0], parent, fuel, r, open, None);
        let o = model::place_header(ix, show, n, nested[0], parent, fuel)->0.layout;
        lemma_tells_chain(ix, show, rank, l, n, o, open, r);
        let items = ix.scope_items(scope);
        turns::lemma_turns_chain(ix, show, l, n, o, items, seq![nested[0]]);
        let rest = nested.drop_first();
        assert(placeable(ix, rank, rest, fuel, r)) by {
            assert forall|i: int| 0 <= i < rest.len() implies ix.header(#[trigger] rest[i]) is Some
                && rank.of(rest[i]) < r && rank.of(rest[i]) < fuel && rank.of(rest[i]) < rank.limit by {
                assert(rest[i] == nested[i + 1]);
            }
        }
        assert forall|i: int| 0 <= i < rest.len() implies scope_placeable(
            ix,
            rank,
            ix.scope_of(#[trigger] rest[i]),
            fuel,
            r,
        ) by {
            assert(rest[i] == nested[i + 1]);
        }
        lemma_branches(ix, show, rank, o, rest, parent, fuel, r, open);
        let m = model::place_branches(ix, show, o, rest, parent, fuel)->0;
        lemma_tells_chain(ix, show, rank, l, o, m, open, r);
        turns::lemma_turns_chain(
            ix,
            show,
            l,
            o,
            m,
            items + seq![nested[0]],
            turns::opened_by_all(ix, rest),
        );
        assert forall|i: int| 0 <= i < nested.len() implies m.exits.contains_key(
            #[trigger] nested[i],
        ) by {
            if i > 0 {
                assert(m.exits.contains_key(rest[i - 1]));
            } else {
                assert(o.exits.contains_key(nested[0]));
            }
        }
    }
}

/// The layout of a whole index, bounded by the limit of its ranks.
proof fn lemma_whole(ix: IndexView, show: bool, rank: Ranking)
    requires
        grounded(ix, show, rank),
    ensures
        ({
            let m = model::layout(ix, show, rank.limit);
            &&& m is Some
            &&& flow::flows(ix, show, Layout::empty(), m->0)
            &&& causes::tells(ix, show, Layout::empty(), m->0)
            &&& turns::take_turns(
                ix,
                Layout::empty(),
                m->0,
                turns::items_of_all(ix, tops::top_scopes(ix)),
            )
        }),
{
    let r = rank.limit;
    let l = Layout::empty();
    let scopes = tops::top_scopes(ix);
    assert(nesting::begun(l, Set::empty()) =~= Set::empty());
    assert(ready(ix, show, rank, l, Set::empty(), r));
    assert forall|i: int| 0 <= i < scopes.len() implies scope_placeable(
        ix,
        rank,
        #[trigger] scopes[i],
        r,
        r,
    ) by {
        let items = ix.scope_items(scopes[i]);
        assert(scopes.contains(scopes[i]));
        assert forall|k: int| 0 <= k < items.len() implies ix.header(#[trigger] items[k]) is Some
            && rank.of(items[k]) < r by {
            assert(items.contains(items[k]));
            index::lemma_scope_item(ix, scopes[i], items[k]);
        }
    }
    assert forall|i: int| 0 <= i < scopes.len() implies tops::top_scopes(ix).contains(
        #[trigger] scopes[i],
    ) by {}
    lemma_scopes(ix, show, rank, l, scopes, None, r, r, Set::empty());
}

/// A well-formed index can be laid out.
pub proof fn well_formed_has_layout(ix: IndexView, show: bool)
    requires
        nesting::well_formed(ix, show),
    ensures
        model::has_layout(ix, show),
{
    let rank = choose|rank: Ranking| #[trigger] rank.ranks(ix);
    lemma_whole(ix, show, rank);
}

/// In the layout of a well-formed index every item of a scope is left towards
/// the next one, and every header is entered and left as its kind asks for:
/// a header without children by its node; a branch by the last of its children
/// of the same scope or else by its branches; a header in line by its child; a
/// container by its last child, its children following each other.
pub proof fn headers_follow_each_other(ix: IndexView, show: bool)
    requires
        nesting::well_formed(ix, show),
    ensures
        forall|h: Hid| #[trigger]
            model::layout_of(ix, show).entry.contains_key(h) ==> flow::header_flow(
                ix,
                show,
                model::layout_of(ix, show),
                h,
            ),
        forall|s: ScopeId| #[trigger]
            model::layout_of(ix, show).visited.contains(s) ==> flow::in_sequence(
                model::layout_of(ix, show),
                ix.scope_items(s),
            ),
{
    let rank = choose|rank: Ranking| #[trigger] rank.ranks(ix);
    lemma_whole(ix, show, rank);
    fuel::layout_is_unique(ix, show, rank.limit);
}

/// In the layout of a well-formed index there are as many edges as there are causes
/// for one, each for its own cause: the log tells them in order, without repetition
/// and without omission. So no edge is there without a reason, and none is missing
/// or doubled.
pub proof fn every_edge_has_one_cause(ix: IndexView, show: bool) -> (log: Seq<Cause>)
    requires
        nesting::well_formed(ix, show),
    ensures
        causes::explains(ix, show, model::layout_of(ix, show), log),
{
    let rank = choose|rank: Ranking| #[trigger] rank.ranks(ix);
    lemma_whole(ix, show, rank);
    fuel::layout_is_unique(ix, show, rank.limit);
    causes::lemma_all_told(ix, show, model::layout_of(ix, show))
}

/// In the layout of a well-formed index everything has its turn: of two headers that
/// hang from the same one, all nodes and clusters that come with the first stand before
/// those that come with the second, in the order of the nested scopes, their items and
/// the children of the same scope; and a header stands before what hangs from it.
pub proof fn headers_take_their_turns(ix: IndexView, show: bool) -> (turns: Map<Hid, Turn>)
    requires
        nesting::well_formed(ix, show),
    ensures
        turns::all_take_turns(ix, model::layout_of(ix, show), turns),
{
    let rank = choose|rank: Ranking| #[trigger] rank.ranks(ix);
    lemma_whole(ix, show, rank);
    fuel::layout_is_unique(ix, show, rank.limit);
    turns::lemma_all_taken(ix, model::layout_of(ix, show))
}

} // verus!
