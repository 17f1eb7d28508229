//! The layout does not depend on the bound on nesting, once that is large enough.
use vstd::prelude::*;
use crate::ids::{ClusterId, NodeId};
use crate::index::{Hid, IndexView, ScopeId};
use crate::model;
use crate::model::{Layout, Shape};
use crate::tops;

verus! {

proof fn lemma_header(
    ix: IndexView,
    show: bool,
    l: Layout,
    hid: Hid,
    parent: Option<ClusterId>,
    f: nat,
    g: nat,
)
    requires
        f <= g,
        model::place_header(ix, show, l, hid, parent, f) is Some,
    ensures
        model::place_header(ix, show, l, hid, parent, g) == model::place_header(
            ix,
            show,
            l,
            hid,
            parent,
            f,
        ),
    decreases f, 2nat, 0nat,
{
    if !l.entry.contains_key(hid) {
        let (f1, g1) = ((f - 1) as nat, (g - 1) as nat);
        let h = ix.header(hid)->0;
        let md = ix.md_children(hid);
        let nested = ix.nested_children(hid);
        match model::shape(ix, hid, parent) {
            Shape::Leaf => {},
            Shape::Branch => {
                let cluster = Some(l.next_cluster());
                let l2 = l.add_cluster(h.title, parent)->0.place_node(h, hid, true, cluster)->0;
                let l3 = model::show_calls(ix, show, l2, hid, l.next_node(), cluster)->0;
                lemma_branches(ix, show, l3, nested, cluster, f1, g1);
                let l4 = model::place_branches(ix, show, l3, nested, cluster, f1)->0;
                lemma_headers(ix, show, l4, md, cluster, f1, g1);
            },
            Shape::Flat => {
                let l1 = l.place_node(h, hid, false, parent)->0;
                if md.len() == 1 {
                    lemma_headers(ix, show, l1, md, parent, f1, g1);
                } else {
                    lemma_branches(ix, show, l1, nested, parent, f1, g1);
                }
            },
            Shape::Container => {
                let cluster = Some(l.next_cluster());
                let l1 = l.add_cluster(h.title, parent)->0;
                let scopes = model::scopes_of(ix, nested);
                lemma_scopes(ix, show, l1, scopes, cluster, f1, g1);
                let l2 = model::place_scopes(ix, show, l1, scopes, cluster, f1)->0;
                lemma_headers(ix, show, l2, model::children(ix, hid), cluster, f1, g1);
            },
        }
    }
}

proof fn lemma_headers(
    ix: IndexView,
    show: bool,
    l: Layout,
    hids: Seq<Hid>,
    parent: Option<ClusterId>,
    f: nat,
    g: nat,
)
    requires
        f <= g,
        model::place_headers(ix, show, l, hids, parent, f) is Some,
    ensures
        model::place_headers(ix, show, l, hids, parent, g) == model::place_headers(
            ix,
            show,
            l,
            hids,
            parent,
            f,
        ),
    decreases f, 3nat, hids.len(),
{
    if hids.len() > 0 {
        lemma_header(ix, show, l, hids[0], parent, f, g);
        let p = model::place_header(ix, show, l, hids[0], parent, f)->0;
        lemma_headers(ix, show, p.layout, hids.drop_first(), parent, f, g);
    }
}

proof fn lemma_items(
    ix: IndexView,
    show: bool,
    l: Layout,
    items: Seq<Hid>,
    prev: Seq<NodeId>,
    parent: Option<ClusterId>,
    f: nat,
    g: nat,
)
    requires
        f <= g,
        model::place_items(ix, show, l, items, prev, parent, f) is Some,
    ensures
        model::place_items(ix, show, l, items, prev, parent, g) == model::place_items(
            ix,
            show,
            l,
            items,
            prev,
            parent,
            f,
        ),
    decreases f, 3nat, items.len(),
{
    if items.len() > 0 {
        lemma_header(ix, show, l, items[0], parent, f, g);
        let p = model::place_header(ix, show, l, items[0], parent, f)->0;
        let linked = p.layout.link(model::edges_into(prev, p.entry));
        lemma_items(ix, show, linked, items.drop_first(), p.exits, parent, f, g);
    }
}

proof fn lemma_scope(
    ix: IndexView,
    show: bool,
    l: Layout,
    scope: ScopeId,
    parent: Option<ClusterId>,
    f: nat,
    g: nat,
)
    requires
        f <= g,
        model::place_scope(ix, show, l, scope, parent, f) is Some,
    ensures
        model::place_scope(ix, show, l, scope, parent, g) == model::place_scope(
            ix,
            show,
            l,
            scope,
            parent,
            f,
        ),
    decreases f, 4nat, 0nat,
{
    if !l.visited.contains(scope) {
        lemma_items(ix, show, l.visit(scope), ix.scope_items(scope), seq![], parent, f, g);
    }
}

pub(crate) proof fn lemma_scopes(
    ix: IndexView,
    show: bool,
    l: Layout,
    scopes: Seq<ScopeId>,
    parent: Option<ClusterId>,
    f: nat,
    g: nat,
)
    requires
        f <= g,
        model::place_scopes(ix, show, l, scopes, parent, f) is Some,
    ensures
        model::place_scopes(ix, show, l, scopes, parent, g) == model::place_scopes(
            ix,
            show,
            l,
            scopes,
            parent,
            f,
        ),
    decreases f, 5nat, scopes.len(),
{
    if scopes.len() > 0 {
        lemma_scope(ix, show, l, scopes[0], parent, f, g);
        let m = model::place_scope(ix, show, l, scopes[0], parent, f)->0;
        lemma_scopes(ix, show, m, scopes.drop_first(), parent, f, g);
    }
}

proof fn lemma_branches(
    ix: IndexView,
    show: bool,
    l: Layout,
    nested: Seq<Hid>,
    parent: Option<ClusterId>,
    f: nat,
    g: nat,
)
    requires
        f <= g,
        model::place_branches(ix, show, l, nested, parent, f) is Some,
    ensures
        model::place_branches(ix, show, l, nested, parent, g) == model::place_branches(
            ix,
            show,
            l,
            nested,
            parent,
            f,
        ),
    decreases f, 5nat, nested.len(),
{
    if nested.len() > 0 {
        lemma_scope(ix, show, l, ix.scope_of(nested[0]), parent, f, g);
        let m = model::place_scope(ix, show, l, ix.scope_of(nested[0]), parent, f)->0;
        lemma_header(ix, show, m, nested[0], parent, f, g);
        let p = model::place_header(ix, show, m, nested[0], parent, f)->0;
        lemma_branches(ix, show, p.layout, nested.drop_first(), parent, f, g);
    }
}

/// An index has one layout: every bound that is large enough gives the same.
pub proof fn layout_is_unique(ix: IndexView, show: bool, fuel: nat)
    requires
        model::layout(ix, show, fuel) is Some,
    ensures
        model::has_layout(ix, show),
        model::layout(ix, show, fuel) == Some(model::layout_of(ix, show)),
{
    let f = choose|f: nat| model::layout(ix, show, f) is Some;
    if f <= fuel {
        lemma_scopes(ix, show, Layout::empty(), tops::top_scopes(ix), None, f, fuel);
    } else {
        lemma_scopes(ix, show, Layout::empty(), tops::top_scopes(ix), None, fuel, f);
    }
}

} // verus!
