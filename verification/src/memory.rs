//! A header is laid out once: what is entered stays entered where it is, and
//! laying a header out again changes nothing.
use vstd::prelude::*;
use crate::ids::{ClusterId, NodeId};
use crate::index::{Hid, IndexView, ScopeId};
use crate::invariants;
use crate::model;
use crate::model::{Layout, Shape};

verus! {

proof fn lemma_keeps_chain(a: Layout, b: Layout, c: Layout)
    requires
        invariants::keeps_entries(a, b),
        invariants::keeps_entries(b, c),
    ensures
        invariants::keeps_entries(a, c),
{
    assert forall|h: Hid| #[trigger] a.entry.contains_key(h) implies c.entry.contains_key(h)
        && c.entry[h] == a.entry[h] by {
        assert(b.entry.contains_key(h));
    }
}

/// Linking calls moves no header.
pub(crate) proof fn lemma_calls(
    l: Layout,
    hid: Hid,
    callees: Seq<Seq<char>>,
    rep: NodeId,
    cluster: Option<ClusterId>,
)
    ensures
        model::place_calls(l, hid, callees, rep, cluster) matches Some(m) ==> m.entry == l.entry
            && m.exits == l.exits && m.visited == l.visited && m.clusters == l.clusters && m.spans
            == l.spans,
    decreases callees.len(),
{
    if callees.len() > 0 {
        if let Some(m) = model::place_call(l, hid, callees[0], rep, cluster) {
            lemma_calls(m, hid, callees.drop_first(), rep, cluster);
        }
    }
}

/// Linking the calls of several headers moves no header.
pub(crate) proof fn lemma_calls_of_all(
    ix: IndexView,
    l: Layout,
    hids: Seq<Hid>,
    cluster: Option<ClusterId>,
)
    ensures
        model::show_calls_of_all(ix, l, hids, cluster) matches Some(m) ==> m.entry == l.entry
            && m.exits == l.exits && m.visited == l.visited && m.clusters == l.clusters && m.spans
            == l.spans,
    decreases hids.len(),
{
    if hids.len() > 0 {
        let (hid, rep) = (hids[0], l.entry[hids[0]]);
        lemma_calls(l, hid, ix.calls(hid), rep, cluster);
        if let Some(m) = model::place_calls(l, hid, ix.calls(hid), rep, cluster) {
            lemma_calls_of_all(ix, m, hids.drop_first(), cluster);
        }
    }
}

/// Chaining the children of a container moves no header.
pub(crate) proof fn lemma_chain(
    ix: IndexView,
    l: Layout,
    nested: Seq<Hid>,
    rest: Seq<Hid>,
    prev: Hid,
)
    ensures
        model::chain_children(ix, l, nested, rest, prev) matches Some((m, _)) ==> m == (Layout {
            edges: m.edges,
            ..l
        }),
    decreases rest.len(),
{
    if rest.len() > 0 && l.entry.contains_key(rest[0]) && l.exits.contains_key(prev) {
        let n = l.link(model::edges_into(l.exits[prev], l.entry[rest[0]]));
        let next = model::leaves_by(ix, l, nested, rest[0]);
        lemma_chain(ix, n, nested, rest.drop_first(), next);
    }
}

proof fn lemma_header(
    ix: IndexView,
    show: bool,
    l: Layout,
    hid: Hid,
    parent: Option<ClusterId>,
    f: nat,
)
    requires
        model::place_header(ix, show, l, hid, parent, f) is Some,
    ensures
        ({
            let p = model::place_header(ix, show, l, hid, parent, f)->0;
            &&& invariants::keeps_entries(l, p.layout)
            &&& p.layout.entry.contains_key(hid)
            &&& p.layout.entry[hid] == p.entry
            &&& p.exits == if p.layout.exits.contains_key(hid) {
                p.layout.exits[hid]
            } else {
                seq![p.entry]
            }
        }),
    decreases f, 2nat, 0nat,
{
    if !l.entry.contains_key(hid) {
        let less = (f - 1) as nat;
        let h = ix.header(hid)->0;
        let md = ix.md_children(hid);
        let nested = ix.nested_children(hid);
        match model::shape(ix, hid, parent) {
            Shape::Leaf => {
                let node = l.next_node();
                let l1 = l.place_node(h, hid, false, parent)->0;
                lemma_calls(l1.set_exits(hid, seq![node]), hid, ix.calls(hid), node, parent);
            },
            Shape::Branch => {
                let c = l.next_cluster();
                let cluster = Some(c);
                let node = l.next_node();
                let l2 = l.add_cluster(h.title, parent)->0.place_node(h, hid, true, cluster)->0;
                lemma_calls(l2, hid, ix.calls(hid), node, cluster);
                let l3 = model::show_calls(ix, show, l2, hid, node, cluster)->0;
                lemma_branches(ix, show, l3, nested, cluster, less);
                let l4 = model::place_branches(ix, show, l3, nested, cluster, less)->0;
                lemma_headers(ix, show, l4, md, cluster, less);
                let l5 = model::place_headers(ix, show, l4, md, cluster, less)->0;
                lemma_keeps_chain(l3, l4, l5);
                let linked = l5.link(model::edges_out_of(node, l5.entries(nested)));
                lemma_calls_of_all(ix, linked, nested, cluster);
                let m = model::close_branch(ix, show, l5, hid, node, c)->0.layout;
                assert(m.entry == l5.entry);
                assert(l3.entry.contains_key(hid));
                assert forall|g: Hid| #[trigger] l.entry.contains_key(g) implies m.entry.contains_key(
                    g,
                ) && m.entry[g] == l.entry[g] by {
                    assert(l3.entry.contains_key(g));
                }
            },
            Shape::Flat => {
                let l1 = l.place_node(h, hid, false, parent)->0;
                let l2 = if md.len() == 1 {
                    lemma_headers(ix, show, l1, md, parent, less);
                    model::place_headers(ix, show, l1, md, parent, less)->0
                } else {
                    lemma_branches(ix, show, l1, nested, parent, less);
                    model::place_branches(ix, show, l1, nested, parent, less)->0
                };
                assert(l1.entry.contains_key(hid));
                assert forall|g: Hid| #[trigger] l.entry.contains_key(g) implies l2.entry.contains_key(
                    g,
                ) && l2.entry[g] == l.entry[g] by {
                    assert(l1.entry.contains_key(g));
                }
            },
            Shape::Container => {
                let cluster = Some(l.next_cluster());
                let l1 = l.add_cluster(h.title, parent)->0;
                let scopes = model::scopes_of(ix, nested);
                let all = model::children(ix, hid);
                lemma_scopes(ix, show, l1, scopes, cluster, less);
                let l2 = model::place_scopes(ix, show, l1, scopes, cluster, less)->0;
                lemma_headers(ix, show, l2, all, cluster, less);
                let l3 = model::place_headers(ix, show, l2, all, cluster, less)->0;
                lemma_keeps_chain(l1, l2, l3);
                let from = model::leaves_by(ix, l3, nested, all[0]);
                lemma_chain(ix, l3, nested, all.drop_first(), from);
                assert forall|g: Hid| #[trigger] l.entry.contains_key(g) implies l3.entry.contains_key(
                    g,
                ) && l3.entry[g] == l.entry[g] by {
                    assert(l1.entry.contains_key(g));
                }
            },
        }
    }
}

proof fn lemma_headers(
    ix: IndexView,
    show: bool,
    l: Layout,
    hids: Seq<Hid>,
    parent: Option<ClusterId>,
    f: nat,
)
    requires
        model::place_headers(ix, show, l, hids, parent, f) is Some,
    ensures
        invariants::keeps_entries(l, model::place_headers(ix, show, l, hids, parent, f)->0),
    decreases f, 3nat, hids.len(),
{
    if hids.len() > 0 {
        lemma_header(ix, show, l, hids[0], parent, f);
        let n = model::place_header(ix, show, l, hids[0], parent, f)->0.layout;
        lemma_headers(ix, show, n, hids.drop_first(), parent, f);
        lemma_keeps_chain(
            l,
            n,
            model::place_headers(ix, show, n, hids.drop_first(), parent, f)->0,
        );
    }
}

proof fn lemma_items(
    ix: IndexView,
    show: bool,
    l: Layout,
    items: Seq<Hid>,
    prev: Seq<NodeId>,
    parent: Option<ClusterId>,
    f: nat,
)
    requires
        model::place_items(ix, show, l, items, prev, parent, f) is Some,
    ensures
        invariants::keeps_entries(l, model::place_items(ix, show, l, items, prev, parent, f)->0),
    decreases f, 3nat, items.len(),
{
    if items.len() > 0 {
        lemma_header(ix, show, l, items[0], parent, f);
        let p = model::place_header(ix, show, l, items[0], parent, f)->0;
        let n = p.layout.link(model::edges_into(prev, p.entry));
        lemma_items(ix, show, n, items.drop_first(), p.exits, parent, f);
        lemma_keeps_chain(
            l,
            n,
            model::place_items(ix, show, n, items.drop_first(), p.exits, parent, f)->0,
        );
    }
}

proof fn lemma_scope(
    ix: IndexView,
    show: bool,
    l: Layout,
    scope: ScopeId,
    parent: Option<ClusterId>,
    f: nat,
)
    requires
        model::place_scope(ix, show, l, scope, parent, f) is Some,
    ensures
        invariants::keeps_entries(l, model::place_scope(ix, show, l, scope, parent, f)->0),
    decreases f, 4nat, 0nat,
{
    if !l.visited.contains(scope) {
        let v = l.visit(scope);
        let items = ix.scope_items(scope);
        lemma_items(ix, show, v, items, seq![], parent, f);
        lemma_keeps_chain(l, v, model::place_items(ix, show, v, items, seq![], parent, f)->0);
    }
}

proof fn lemma_scopes(
    ix: IndexView,
    show: bool,
    l: Layout,
    scopes: Seq<ScopeId>,
    parent: Option<ClusterId>,
    f: nat,
)
    requires
        model::place_scopes(ix, show, l, scopes, parent, f) is Some,
    ensures
        invariants::keeps_entries(l, model::place_scopes(ix, show, l, scopes, parent, f)->0),
    decreases f, 5nat, scopes.len(),
{
    if scopes.len() > 0 {
        lemma_scope(ix, show, l, scopes[0], parent, f);
        let n = model::place_scope(ix, show, l, scopes[0], parent, f)->0;
        lemma_scopes(ix, show, n, scopes.drop_first(), parent, f);
        lemma_keeps_chain(
            l,
            n,
            model::place_scopes(ix, show, n, scopes.drop_first(), parent, f)->0,
        );
    }
}

proof fn lemma_branches(
    ix: IndexView,
    show: bool,
    l: Layout,
    nested: Seq<Hid>,
    parent: Option<ClusterId>,
    f: nat,
)
    requires
        model::place_branches(ix, show, l, nested, parent, f) is Some,
    ensures
        invariants::keeps_entries(l, model::place_branches(ix, show, l, nested, parent, f)->0),
    decreases f, 5nat, nested.len(),
{
    if nested.len() > 0 {
        let scope = ix.scope_of(nested[0]);
        lemma_scope(ix, show, l, scope, parent, f);
        let n = model::place_scope(ix, show, l, scope, parent, f)->0;
        lemma_header(ix, show, n, nested[0], parent, f);
        let o = model::place_header(ix, show, n, nested[0], parent, f)->0.layout;
        lemma_keeps_chain(l, n, o);
        lemma_branches(ix, show, o, nested.drop_first(), parent, f);
        lemma_keeps_chain(
            l,
            o,
            model::place_branches(ix, show, o, nested.drop_first(), parent, f)->0,
        );
    }
}

/// Laying out a header again, in whatever cluster and with whatever bound on
/// nesting, changes nothing and gives the same ends.
pub proof fn laying_out_again_changes_nothing(
    ix: IndexView,
    show: bool,
    l: Layout,
    hid: Hid,
    p: Option<ClusterId>,
    f: nat,
    q: Option<ClusterId>,
    g: nat,
)
    requires
        model::place_header(ix, show, l, hid, p, f) is Some,
    ensures
        model::place_header(
            ix,
            show,
            model::place_header(ix, show, l, hid, p, f)->0.layout,
            hid,
            q,
            g,
        ) == model::place_header(ix, show, l, hid, p, f),
{
    lemma_header(ix, show, l, hid, p, f);
}

} // verus!
