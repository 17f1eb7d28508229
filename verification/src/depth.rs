//! How deep headers can be nested in an index that has a layout.
//!
//! What is entered and visited alone decides how a layout goes on; the rest only
//! decides whether it fails. So it is enough to follow what is entered and
//! visited: between two steps that enter or visit something new, no container is
//! begun twice, or the layout would never end.
use std::collections::HashSet;
use vstd::prelude::*;
use crate::fuel;
use crate::ids::{ClusterId, NodeId};
use crate::index;
use crate::index::{HeaderIndex, HeaderView, Hid, IndexView, ScopeId};
use crate::memory;
use crate::merge;
use crate::model;
use crate::model::{Layout, Shape};
use crate::tops;

verus! {

broadcast use vstd::std_specs::hash::group_hash_axioms;

/// What is entered and visited.
#[verifier::ext_equal]
pub struct Walk {
    pub entry: Set<Hid>,
    pub visited: Set<ScopeId>,
}

impl Walk {
    pub open spec fn enter(self, hid: Hid) -> Walk {
        Walk { entry: self.entry.insert(hid), ..self }
    }

    pub open spec fn visit(self, scope: ScopeId) -> Walk {
        Walk { visited: self.visited.insert(scope), ..self }
    }
}

/// What is entered and visited in a layout.
pub open spec fn walked(l: Layout) -> Walk {
    Walk { entry: l.entry.dom(), visited: l.visited }
}

/// Some cluster, or none.
spec fn around(within: bool) -> Option<ClusterId> {
    if within {
        Some(ClusterId::nth(0))
    } else {
        None
    }
}

spec fn walk_header(ix: IndexView, w: Walk, hid: Hid, within: bool, fuel: nat) -> Option<Walk>
    decreases fuel, 2nat, 0nat,
{
    let md = ix.md_children(hid);
    let nested = ix.nested_children(hid);
    if w.entry.contains(hid) {
        Some(w)
    } else if fuel == 0 || ix.header(hid) is None {
        None
    } else {
        match model::shape(ix, hid, around(within)) {
            Shape::Leaf => Some(w.enter(hid)),
            Shape::Branch => match walk_branches(
                ix,
                w.enter(hid),
                nested,
                true,
                (fuel - 1) as nat,
            ) {
                None => None,
                Some(v) => walk_headers(ix, v, md, true, (fuel - 1) as nat),
            },
            Shape::Flat => if md.len() == 1 {
                walk_headers(ix, w.enter(hid), md, within, (fuel - 1) as nat)
            } else {
                walk_branches(ix, w.enter(hid), nested, within, (fuel - 1) as nat)
            },
            Shape::Container => match walk_scopes(
                ix,
                w,
                model::scopes_of(ix, nested),
                true,
                (fuel - 1) as nat,
            ) {
                None => None,
                Some(v) => match walk_headers(
                    ix,
                    v,
                    model::children(ix, hid),
                    true,
                    (fuel - 1) as nat,
                ) {
                    None => None,
                    Some(u) => Some(u.enter(hid)),
                },
            },
        }
    }
}

spec fn walk_headers(
    ix: IndexView,
    w: Walk,
    hids: Seq<Hid>,
    within: bool,
    fuel: nat,
) -> Option<Walk>
    decreases fuel, 3nat, hids.len(),
{
    if hids.len() == 0 {
        Some(w)
    } else {
        match walk_header(ix, w, hids[0], within, fuel) {
            None => None,
            Some(v) => walk_headers(ix, v, hids.drop_first(), within, fuel),
        }
    }
}

spec fn walk_scope(ix: IndexView, w: Walk, scope: ScopeId, within: bool, fuel: nat) -> Option<Walk>
    decreases fuel, 4nat, 0nat,
{
    if w.visited.contains(scope) {
        Some(w)
    } else {
        walk_headers(ix, w.visit(scope), ix.scope_items(scope), within, fuel)
    }
}

spec fn walk_scopes(
    ix: IndexView,
    w: Walk,
    scopes: Seq<ScopeId>,
    within: bool,
    fuel: nat,
) -> Option<Walk>
    decreases fuel, 5nat, scopes.len(),
{
    if scopes.len() == 0 {
        Some(w)
    } else {
        match walk_scope(ix, w, scopes[0], within, fuel) {
            None => None,
            Some(v) => walk_scopes(ix, v, scopes.drop_first(), within, fuel),
        }
    }
}

spec fn walk_branches(
    ix: IndexView,
    w: Walk,
    nested: Seq<Hid>,
    within: bool,
    fuel: nat,
) -> Option<Walk>
    decreases fuel, 5nat, nested.len(),
{
    if nested.len() == 0 {
        Some(w)
    } else {
        match walk_scope(ix, w, ix.scope_of(nested[0]), within, fuel) {
            None => None,
            Some(v) => match walk_header(ix, v, nested[0], within, fuel) {
                None => None,
                Some(u) => walk_branches(ix, u, nested.drop_first(), within, fuel),
            },
        }
    }
}

proof fn lemma_shape(ix: IndexView, hid: Hid, parent: Option<ClusterId>)
    ensures
        model::shape(ix, hid, parent) == model::shape(ix, hid, around(parent is Some)),
{
}

proof fn sim_header(
    ix: IndexView,
    show: bool,
    l: Layout,
    hid: Hid,
    parent: Option<ClusterId>,
    f: nat,
    g: nat,
)
    requires
        f <= g,
    ensures
        model::place_header(ix, show, l, hid, parent, f) matches Some(p) ==> walk_header(
            ix,
            walked(l),
            hid,
            parent is Some,
            f,
        ) == Some(walked(p.layout)),
        walk_header(ix, walked(l), hid, parent is Some, f) is Some ==> model::place_header(
            ix,
            show,
            l,
            hid,
            parent,
            g,
        ) == model::place_header(ix, show, l, hid, parent, f),
    decreases f, 2nat, 0nat,
{
    let w = walked(l);
    let within = parent is Some;
    lemma_shape(ix, hid, parent);
    if !l.entry.contains_key(hid) && f > 0 && ix.header(hid) is Some {
        let (f1, g1) = ((f - 1) as nat, (g - 1) as nat);
        let h = ix.header(hid)->0;
        let md = ix.md_children(hid);
        let nested = ix.nested_children(hid);
        let node = l.next_node();
        match model::shape(ix, hid, parent) {
            Shape::Leaf => {
                if let Some(l1) = l.place_node(h, hid, false, parent) {
                    memory::lemma_calls(
                        l1.set_exits(hid, seq![node]),
                        hid,
                        ix.calls(hid),
                        node,
                        parent,
                    );
                    assert(walked(l1) =~= w.enter(hid));
                }
            },
            Shape::Branch => {
                let c = l.next_cluster();
                let cluster = Some(c);
                if let Some(l1) = l.add_cluster(h.title, parent) {
                    if let Some(l2) = l1.place_node(h, hid, true, cluster) {
                        memory::lemma_calls(l2, hid, ix.calls(hid), node, cluster);
                        if let Some(l3) = model::show_calls(ix, show, l2, hid, node, cluster) {
                            assert(walked(l3) =~= w.enter(hid));
                            sim_branches(ix, show, l3, nested, cluster, f1, g1);
                            if let Some(l4) = model::place_branches(
                                ix,
                                show,
                                l3,
                                nested,
                                cluster,
                                f1,
                            ) {
                                sim_headers(ix, show, l4, md, cluster, f1, g1);
                                if let Some(l5) = model::place_headers(
                                    ix,
                                    show,
                                    l4,
                                    md,
                                    cluster,
                                    f1,
                                ) {
                                    let linked = l5.link(
                                        model::edges_out_of(node, l5.entries(nested)),
                                    );
                                    memory::lemma_calls_of_all(ix, linked, nested, cluster);
                                }
                            }
                        }
                    }
                }
            },
            Shape::Flat => {
                if let Some(l1) = l.place_node(h, hid, false, parent) {
                    assert(walked(l1) =~= w.enter(hid));
                    if md.len() == 1 {
                        sim_headers(ix, show, l1, md, parent, f1, g1);
                    } else {
                        sim_branches(ix, show, l1, nested, parent, f1, g1);
                    }
                }
            },
            Shape::Container => {
                let cluster = Some(l.next_cluster());
                let scopes = model::scopes_of(ix, nested);
                let all = model::children(ix, hid);
                if let Some(l1) = l.add_cluster(h.title, parent) {
                    assert(walked(l1) =~= w);
                    sim_scopes(ix, show, l1, scopes, cluster, f1, g1);
                    if let Some(l2) = model::place_scopes(ix, show, l1, scopes, cluster, f1) {
                        sim_headers(ix, show, l2, all, cluster, f1, g1);
                        if let Some(l3) = model::place_headers(ix, show, l2, all, cluster, f1) {
                            let from = model::leaves_by(ix, l3, nested, all[0]);
                            memory::lemma_chain(ix, l3, nested, all.drop_first(), from);
                            if let Some(p) = model::close_container(ix, l3, hid) {
                                assert(walked(p.layout) =~= walked(l3).enter(hid));
                            }
                        }
                    }
                }
            },
        }
    }
}

proof fn sim_headers(
    ix: IndexView,
    show: bool,
    l: Layout,
    hids: Seq<Hid>,
    parent: Option<ClusterId>,
    f: nat,
    g: nat,
)
    requires
        f <= g,
    ensures
        model::place_headers(ix, show, l, hids, parent, f) matches Some(m) ==> walk_headers(
            ix,
            walked(l),
            hids,
            parent is Some,
            f,
        ) == Some(walked(m)),
        walk_headers(ix, walked(l), hids, parent is Some, f) is Some ==> model::place_headers(
            ix,
            show,
            l,
            hids,
            parent,
            g,
        ) == model::place_headers(ix, show, l, hids, parent, f),
    decreases f, 3nat, hids.len(),
{
    if hids.len() > 0 {
        sim_header(ix, show, l, hids[0], parent, f, g);
        if let Some(p) = model::place_header(ix, show, l, hids[0], parent, f) {
            sim_headers(ix, show, p.layout, hids.drop_first(), parent, f, g);
        }
    }
}

proof fn sim_items(
    ix: IndexView,
    show: bool,
    l: Layout,
    items: Seq<Hid>,
    prev: Seq<NodeId>,
    parent: Option<ClusterId>,
    f: nat,
    g: nat,
)
    requires
        f <= g,
    ensures
        model::place_items(ix, show, l, items, prev, parent, f) matches Some(m) ==> walk_headers(
            ix,
            walked(l),
            items,
            parent is Some,
            f,
        ) == Some(walked(m)),
        walk_headers(ix, walked(l), items, parent is Some, f) is Some ==> model::place_items(
            ix,
            show,
            l,
            items,
            prev,
            parent,
            g,
        ) == model::place_items(ix, show, l, items, prev, parent, f),
    decreases f, 3nat, items.len(),
{
    if items.len() > 0 {
        sim_header(ix, show, l, items[0], parent, f, g);
        if let Some(p) = model::place_header(ix, show, l, items[0], parent, f) {
            let n = p.layout.link(model::edges_into(prev, p.entry));
            sim_items(ix, show, n, items.drop_first(), p.exits, parent, f, g);
        }
    }
}

proof fn sim_scope(
    ix: IndexView,
    show: bool,
    l: Layout,
    scope: ScopeId,
    parent: Option<ClusterId>,
    f: nat,
    g: nat,
)
    requires
        f <= g,
    ensures
        model::place_scope(ix, show, l, scope, parent, f) matches Some(m) ==> walk_scope(
            ix,
            walked(l),
            scope,
            parent is Some,
            f,
        ) == Some(walked(m)),
        walk_scope(ix, walked(l), scope, parent is Some, f) is Some ==> model::place_scope(
            ix,
            show,
            l,
            scope,
            parent,
            g,
        ) == model::place_scope(ix, show, l, scope, parent, f),
    decreases f, 4nat, 0nat,
{
    if !l.visited.contains(scope) {
        let v = l.visit(scope);
        assert(walked(v) =~= walked(l).visit(scope));
        sim_items(ix, show, v, ix.scope_items(scope), seq![], parent, f, g);
    }
}

proof fn sim_scopes(
    ix: IndexView,
    show: bool,
    l: Layout,
    scopes: Seq<ScopeId>,
    parent: Option<ClusterId>,
    f: nat,
    g: nat,
)
    requires
        f <= g,
    ensures
        model::place_scopes(ix, show, l, scopes, parent, f) matches Some(m) ==> walk_scopes(
            ix,
            walked(l),
            scopes,
            parent is Some,
            f,
        ) == Some(walked(m)),
        walk_scopes(ix, walked(l), scopes, parent is Some, f) is Some ==> model::place_scopes(
            ix,
            show,
            l,
            scopes,
            parent,
            g,
        ) == model::place_scopes(ix, show, l, scopes, parent, f),
    decreases f, 5nat, scopes.len(),
{
    if scopes.len() > 0 {
        sim_scope(ix, show, l, scopes[0], parent, f, g);
        if let Some(m) = model::place_scope(ix, show, l, scopes[0], parent, f) {
            sim_scopes(ix, show, m, scopes.drop_first(), parent, f, g);
        }
    }
}

proof fn sim_branches(
    ix: IndexView,
    show: bool,
    l: Layout,
    nested: Seq<Hid>,
    parent: Option<ClusterId>,
    f: nat,
    g: nat,
)
    requires
        f <= g,
    ensures
        model::place_branches(ix, show, l, nested, parent, f) matches Some(m) ==> walk_branches(
            ix,
            walked(l),
            nested,
            parent is Some,
            f,
        ) == Some(walked(m)),
        walk_branches(ix, walked(l), nested, parent is Some, f) is Some ==> model::place_branches(
            ix,
            show,
            l,
            nested,
            parent,
            g,
        ) == model::place_branches(ix, show, l, nested, parent, f),
    decreases f, 5nat, nested.len(),
{
    if nested.len() > 0 {
        let scope = ix.scope_of(nested[0]);
        sim_scope(ix, show, l, scope, parent, f, g);
        if let Some(m) = model::place_scope(ix, show, l, scope, parent, f) {
            sim_header(ix, show, m, nested[0], parent, f, g);
            if let Some(p) = model::place_header(ix, show, m, nested[0], parent, f) {
                sim_branches(ix, show, p.layout, nested.drop_first(), parent, f, g);
            }
        }
    }
}

/// The numbers of all headers.
pub open spec fn hids(ix: IndexView) -> Set<Hid> {
    ix.headers.map_values(|h: HeaderView| h.hid).to_set()
}

/// The scopes of all headers.
pub open spec fn scopes(ix: IndexView) -> Set<ScopeId> {
    ix.headers.map_values(|h: HeaderView| h.scope).to_set()
}

pub(crate) proof fn lemma_finite(ix: IndexView)
    ensures
        hids(ix).finite(),
        scopes(ix).finite(),
{
    vstd::seq_lib::seq_to_set_is_finite(ix.headers.map_values(|h: HeaderView| h.hid));
    vstd::seq_lib::seq_to_set_is_finite(ix.headers.map_values(|h: HeaderView| h.scope));
}

pub(crate) proof fn lemma_known_header(ix: IndexView, hid: Hid)
    requires
        ix.header(hid) is Some,
    ensures
        hids(ix).contains(hid),
        scopes(ix).contains(ix.scope_of(hid)),
{
    index::lemma_last_with_hid(ix.headers, hid);
    let h = ix.header(hid)->0;
    let i = choose|i: int| 0 <= i < ix.headers.len() && ix.headers[i] == h;
    assert(ix.headers.map_values(|h: HeaderView| h.hid)[i] == hid);
    assert(ix.headers.map_values(|h: HeaderView| h.scope)[i] == h.scope);
}

/// Whether only headers and scopes of the index are entered and visited.
spec fn known(ix: IndexView, w: Walk) -> bool {
    w.entry.subset_of(hids(ix)) && w.visited.subset_of(scopes(ix))
}

spec fn all_known(ix: IndexView, list: Seq<Hid>) -> bool {
    forall|i: int| 0 <= i < list.len() ==> ix.header(#[trigger] list[i]) is Some
}

spec fn scopes_known(ix: IndexView, list: Seq<ScopeId>) -> bool {
    forall|i: int| 0 <= i < list.len() ==> scopes(ix).contains(#[trigger] list[i])
}

/// The children of a header are headers of the index.
pub(crate) proof fn lemma_children_known(ix: IndexView, hid: Hid)
    requires
        ix.edges_known(),
    ensures
        forall|i: int|
            0 <= i < ix.md_children(hid).len() ==> ix.header(
                #[trigger] ix.md_children(hid)[i],
            ) is Some,
        forall|i: int|
            0 <= i < ix.nested_children(hid).len() ==> ix.header(
                #[trigger] ix.nested_children(hid)[i],
            ) is Some,
        forall|i: int|
            0 <= i < model::children(ix, hid).len() ==> ix.header(
                #[trigger] model::children(ix, hid)[i],
            ) is Some,
{
    let md = ix.md_children(hid);
    let nested = ix.nested_children(hid);
    assert forall|i: int| 0 <= i < md.len() implies ix.header(#[trigger] md[i]) is Some by {
        assert(md.contains(md[i]));
        index::lemma_md_child_known(ix, hid, md[i]);
    }
    assert forall|i: int| 0 <= i < nested.len() implies ix.header(#[trigger] nested[i]) is Some by {
        assert(nested.contains(nested[i]));
        index::lemma_nested_child(ix, hid, nested[i]);
    }
    let all = model::children(ix, hid);
    assert forall|i: int| 0 <= i < all.len() implies ix.header(#[trigger] all[i]) is Some by {
        merge::lemma_merged_member(merge::spans_of(ix), md, nested, i);
        if md.contains(all[i]) {
            index::lemma_md_child_known(ix, hid, all[i]);
        } else {
            index::lemma_nested_child(ix, hid, all[i]);
        }
    }
}

proof fn lemma_below_known(ix: IndexView, hid: Hid)
    requires
        ix.edges_known(),
    ensures
        all_known(ix, ix.md_children(hid)),
        all_known(ix, ix.nested_children(hid)),
        all_known(ix, model::children(ix, hid)),
        scopes_known(ix, model::scopes_of(ix, ix.nested_children(hid))),
{
    let nested = ix.nested_children(hid);
    let list = model::scopes_of(ix, nested);
    lemma_children_known(ix, hid);
    assert forall|i: int| 0 <= i < list.len() implies scopes(ix).contains(#[trigger] list[i]) by {
        assert(ix.header(nested[i]) is Some);
        lemma_known_header(ix, nested[i]);
    }
}

proof fn lemma_rest_known(ix: IndexView, list: Seq<Hid>)
    requires
        all_known(ix, list),
        list.len() > 0,
    ensures
        ix.header(list[0]) is Some,
        all_known(ix, list.drop_first()),
{
    let rest = list.drop_first();
    assert forall|i: int| 0 <= i < rest.len() implies ix.header(#[trigger] rest[i]) is Some by {
        assert(rest[i] == list[i + 1]);
    }
}

/// Whether a walk only adds what the index has.
spec fn grows(ix: IndexView, w: Walk, v: Walk) -> bool {
    &&& w.entry.subset_of(v.entry)
    &&& w.visited.subset_of(v.visited)
    &&& known(ix, v)
}

proof fn mono_header(ix: IndexView, w: Walk, hid: Hid, within: bool, f: nat, g: nat)
    requires
        ix.edges_known(),
        known(ix, w),
        f <= g,
        walk_header(ix, w, hid, within, f) is Some,
    ensures
        walk_header(ix, w, hid, within, g) == walk_header(ix, w, hid, within, f),
        grows(ix, w, walk_header(ix, w, hid, within, f)->0),
    decreases f, 2nat, 0nat,
{
    if !w.entry.contains(hid) {
        let (f1, g1) = ((f - 1) as nat, (g - 1) as nat);
        let md = ix.md_children(hid);
        let nested = ix.nested_children(hid);
        let e = w.enter(hid);
        lemma_known_header(ix, hid);
        lemma_below_known(ix, hid);
        match model::shape(ix, hid, around(within)) {
            Shape::Leaf => {},
            Shape::Branch => {
                mono_branches(ix, e, nested, true, f1, g1);
                let v = walk_branches(ix, e, nested, true, f1)->0;
                mono_headers(ix, v, md, true, f1, g1);
            },
            Shape::Flat => {
                if md.len() == 1 {
                    mono_headers(ix, e, md, within, f1, g1);
                } else {
                    mono_branches(ix, e, nested, within, f1, g1);
                }
            },
            Shape::Container => {
                let list = model::scopes_of(ix, nested);
                mono_scopes(ix, w, list, true, f1, g1);
                let v = walk_scopes(ix, w, list, true, f1)->0;
                mono_headers(ix, v, model::children(ix, hid), true, f1, g1);
            },
        }
    }
}

proof fn mono_headers(ix: IndexView, w: Walk, list: Seq<Hid>, within: bool, f: nat, g: nat)
    requires
        ix.edges_known(),
        known(ix, w),
        f <= g,
        walk_headers(ix, w, list, within, f) is Some,
    ensures
        walk_headers(ix, w, list, within, g) == walk_headers(ix, w, list, within, f),
        grows(ix, w, walk_headers(ix, w, list, within, f)->0),
    decreases f, 3nat, list.len(),
{
    if list.len() > 0 {
        mono_header(ix, w, list[0], within, f, g);
        let v = walk_header(ix, w, list[0], within, f)->0;
        mono_headers(ix, v, list.drop_first(), within, f, g);
    }
}

proof fn mono_scope(ix: IndexView, w: Walk, scope: ScopeId, within: bool, f: nat, g: nat)
    requires
        ix.edges_known(),
        known(ix, w),
        scopes(ix).contains(scope),
        f <= g,
        walk_scope(ix, w, scope, within, f) is Some,
    ensures
        walk_scope(ix, w, scope, within, g) == walk_scope(ix, w, scope, within, f),
        grows(ix, w, walk_scope(ix, w, scope, within, f)->0),
    decreases f, 4nat, 0nat,
{
    if !w.visited.contains(scope) {
        mono_headers(ix, w.visit(scope), ix.scope_items(scope), within, f, g);
    }
}

proof fn mono_scopes(ix: IndexView, w: Walk, list: Seq<ScopeId>, within: bool, f: nat, g: nat)
    requires
        ix.edges_known(),
        known(ix, w),
        scopes_known(ix, list),
        f <= g,
        walk_scopes(ix, w, list, within, f) is Some,
    ensures
        walk_scopes(ix, w, list, within, g) == walk_scopes(ix, w, list, within, f),
        grows(ix, w, walk_scopes(ix, w, list, within, f)->0),
    decreases f, 5nat, list.len(),
{
    if list.len() > 0 {
        let rest = list.drop_first();
        assert(scopes(ix).contains(list[0]));
        assert(scopes_known(ix, rest)) by {
            assert forall|i: int| 0 <= i < rest.len() implies scopes(ix).contains(
                #[trigger] rest[i],
            ) by {
                assert(rest[i] == list[i + 1]);
            }
        }
        mono_scope(ix, w, list[0], within, f, g);
        let v = walk_scope(ix, w, list[0], within, f)->0;
        mono_scopes(ix, v, rest, within, f, g);
    }
}

proof fn mono_branches(ix: IndexView, w: Walk, nested: Seq<Hid>, within: bool, f: nat, g: nat)
    requires
        ix.edges_known(),
        known(ix, w),
        all_known(ix, nested),
        f <= g,
        walk_branches(ix, w, nested, within, f) is Some,
    ensures
        walk_branches(ix, w, nested, within, g) == walk_branches(ix, w, nested, within, f),
        grows(ix, w, walk_branches(ix, w, nested, within, f)->0),
    decreases f, 5nat, nested.len(),
{
    if nested.len() > 0 {
        lemma_rest_known(ix, nested);
        lemma_known_header(ix, nested[0]);
        let scope = ix.scope_of(nested[0]);
        mono_scope(ix, w, scope, within, f, g);
        let v = walk_scope(ix, w, scope, within, f)->0;
        mono_header(ix, v, nested[0], within, f, g);
        let u = walk_header(ix, v, nested[0], within, f)->0;
        mono_branches(ix, u, nested.drop_first(), within, f, g);
    }
}

/// How many headers are still to be entered and scopes to be visited.
spec fn left_over(ix: IndexView, w: Walk) -> nat {
    hids(ix).difference(w.entry).len() + scopes(ix).difference(w.visited).len()
}

/// How deep headers can be nested from here on, with `chain` the containers begun
/// since the last step that entered or visited something.
spec fn room(ix: IndexView, w: Walk, chain: Set<Hid>, within: bool) -> int {
    left_over(ix, w) * (hids(ix).len() + 2) + (hids(ix).len() + 1 - chain.len()) + if within {
        0int
    } else {
        1int
    }
}

/// Whether the containers in `chain` need more than `f` to be laid out.
spec fn blocked(ix: IndexView, w: Walk, chain: Set<Hid>, f: nat) -> bool {
    &&& chain.subset_of(hids(ix))
    &&& forall|c: Hid| #[trigger] chain.contains(c) ==> walk_header(ix, w, c, true, f) is None
}

proof fn lemma_room(ix: IndexView, w: Walk, chain: Set<Hid>, within: bool)
    requires
        chain.subset_of(hids(ix)),
    ensures
        room(ix, w, chain, within) >= 1,
        chain.finite(),
        chain.len() <= hids(ix).len(),
{
    lemma_finite(ix);
    vstd::set_lib::lemma_len_subset(chain, hids(ix));
    let (a, b) = (left_over(ix, w), hids(ix).len() + 2);
    assert(a * b >= 0) by (nonlinear_arith);
}

/// A walk that adds anything leaves less room than any chain takes.
proof fn lemma_room_shrinks(
    ix: IndexView,
    w: Walk,
    v: Walk,
    chain: Set<Hid>,
    within: bool,
)
    requires
        known(ix, w),
        grows(ix, w, v),
        w != v,
        chain.subset_of(hids(ix)),
    ensures
        left_over(ix, v) < left_over(ix, w),
        room(ix, v, Set::empty(), within) < room(ix, w, chain, within),
{
    lemma_finite(ix);
    lemma_room(ix, w, chain, within);
    let (hw, hv) = (hids(ix).difference(w.entry), hids(ix).difference(v.entry));
    let (sw, sv) = (scopes(ix).difference(w.visited), scopes(ix).difference(v.visited));
    vstd::set_lib::lemma_len_subset(hv, hw);
    vstd::set_lib::lemma_len_subset(sv, sw);
    assert(hw.len() != hv.len() || sw.len() != sv.len()) by {
        if hw.len() == hv.len() && sw.len() == sv.len() {
            lemma_same_len(hv, hw);
            lemma_same_len(sv, sw);
            assert(w.entry =~= v.entry) by {
                assert forall|h: Hid| #[trigger] v.entry.contains(h) implies w.entry.contains(h) by {
                    if !w.entry.contains(h) {
                        assert(hw.contains(h));
                        assert(hv.contains(h));
                    }
                }
            }
            assert(w.visited =~= v.visited) by {
                assert forall|s: ScopeId| #[trigger] v.visited.contains(
                    s,
                ) implies w.visited.contains(s) by {
                    if !w.visited.contains(s) {
                        assert(sw.contains(s));
                        assert(sv.contains(s));
                    }
                }
            }
        }
    }
    let (a, b, k) = (left_over(ix, v) as int, left_over(ix, w) as int, hids(ix).len() + 2);
    assert(a * k + k <= b * k) by (nonlinear_arith)
        requires
            a + 1 <= b,
            k >= 0,
    ;
    assert(Set::<Hid>::empty().len() == 0);
}

proof fn lemma_same_len<T>(a: Set<T>, b: Set<T>)
    requires
        b.finite(),
        a.subset_of(b),
        a.len() == b.len(),
    ensures
        a == b,
{
    if exists|x: T| b.contains(x) && !a.contains(x) {
        let x = choose|x: T| b.contains(x) && !a.contains(x);
        vstd::set_lib::lemma_len_subset(a, b.remove(x));
    }
    assert(a =~= b);
}

/// The least bound with which a header can be walked.
proof fn lemma_least(ix: IndexView, w: Walk, hid: Hid, within: bool, f: nat) -> (least: nat)
    requires
        walk_header(ix, w, hid, within, f) is Some,
    ensures
        least <= f,
        walk_header(ix, w, hid, within, least) is Some,
        least > 0 ==> walk_header(ix, w, hid, within, (least - 1) as nat) is None,
    decreases f,
{
    if f > 0 && walk_header(ix, w, hid, within, (f - 1) as nat) is Some {
        lemma_least(ix, w, hid, within, (f - 1) as nat)
    } else {
        f
    }
}

proof fn lemma_blocked_less(ix: IndexView, w: Walk, chain: Set<Hid>, f: nat, g: nat)
    requires
        ix.edges_known(),
        known(ix, w),
        blocked(ix, w, chain, f),
        g <= f,
    ensures
        blocked(ix, w, chain, g),
{
    assert forall|c: Hid| #[trigger] chain.contains(c) implies walk_header(
        ix,
        w,
        c,
        true,
        g,
    ) is None by {
        if walk_header(ix, w, c, true, g) is Some {
            mono_header(ix, w, c, true, g, f);
        }
    }
}

proof fn fit_header(
    ix: IndexView,
    w: Walk,
    hid: Hid,
    within: bool,
    f: nat,
    chain: Set<Hid>,
)
    requires
        ix.edges_known(),
        known(ix, w),
        walk_header(ix, w, hid, within, f) is Some,
        blocked(ix, w, chain, f),
        !within ==> chain == Set::<Hid>::empty(),
    ensures
        walk_header(ix, w, hid, within, room(ix, w, chain, within) as nat) is Some,
    decreases f, 2nat, 0nat,
{
    lemma_room(ix, w, chain, within);
    if !w.entry.contains(hid) {
        let none = Set::<Hid>::empty();
        let md = ix.md_children(hid);
        let nested = ix.nested_children(hid);
        let e = w.enter(hid);
        lemma_known_header(ix, hid);
        lemma_below_known(ix, hid);
        let r = room(ix, w, chain, within) as nat;
        let r1 = (r - 1) as nat;
        match model::shape(ix, hid, around(within)) {
            Shape::Leaf => {},
            Shape::Branch => {
                let f1 = (f - 1) as nat;
                assert(e.entry.contains(hid));
                lemma_room_shrinks(ix, w, e, chain, within);
                lemma_room(ix, e, none, true);
                let q = room(ix, e, none, true) as nat;
                assert(q <= r1);
                fit_branches(ix, e, nested, true, f1, none);
                mono_branches(ix, e, nested, true, q, r1);
                mono_branches(ix, e, nested, true, f1, f1);
                lemma_same_walk_branches(ix, e, nested, true, f1, r1);
                let v = walk_branches(ix, e, nested, true, f1)->0;
                fit_headers_after(ix, e, v, md, true, f1, none, r1);
            },
            Shape::Flat => {
                let f1 = (f - 1) as nat;
                assert(e.entry.contains(hid));
                lemma_room_shrinks(ix, w, e, chain, within);
                lemma_room(ix, e, none, within);
                let q = room(ix, e, none, within) as nat;
                assert(q <= r1);
                if md.len() == 1 {
                    fit_headers(ix, e, md, within, f1, none);
                    mono_headers(ix, e, md, within, q, r1);
                } else {
                    fit_branches(ix, e, nested, within, f1, none);
                    mono_branches(ix, e, nested, within, q, r1);
                }
            },
            Shape::Container => {
                let least = lemma_least(ix, w, hid, within, f);
                let f1 = (least - 1) as nat;
                let list = model::scopes_of(ix, nested);
                let all = model::children(ix, hid);
                lemma_blocked_less(ix, w, chain, f, f1);
                let more = if within {
                    chain.insert(hid)
                } else {
                    chain
                };
                assert(blocked(ix, w, more, f1));
                assert(within ==> !chain.contains(hid));
                lemma_room(ix, w, more, true);
                assert(room(ix, w, more, true) == r1);
                fit_scopes(ix, w, list, true, f1, more);
                mono_scopes(ix, w, list, true, f1, f1);
                lemma_same_walk_scopes(ix, w, list, true, f1, r1);
                let v = walk_scopes(ix, w, list, true, f1)->0;
                fit_headers_after(ix, w, v, all, true, f1, more, r1);
            },
        }
    }
}

proof fn lemma_same_walk_branches(
    ix: IndexView,
    w: Walk,
    nested: Seq<Hid>,
    within: bool,
    f: nat,
    g: nat,
)
    requires
        ix.edges_known(),
        known(ix, w),
        all_known(ix, nested),
        walk_branches(ix, w, nested, within, f) is Some,
        walk_branches(ix, w, nested, within, g) is Some,
    ensures
        walk_branches(ix, w, nested, within, f) == walk_branches(ix, w, nested, within, g),
{
    if f <= g {
        mono_branches(ix, w, nested, within, f, g);
    } else {
        mono_branches(ix, w, nested, within, g, f);
    }
}

proof fn lemma_same_walk_scopes(
    ix: IndexView,
    w: Walk,
    list: Seq<ScopeId>,
    within: bool,
    f: nat,
    g: nat,
)
    requires
        ix.edges_known(),
        known(ix, w),
        scopes_known(ix, list),
        walk_scopes(ix, w, list, within, f) is Some,
        walk_scopes(ix, w, list, within, g) is Some,
    ensures
        walk_scopes(ix, w, list, within, f) == walk_scopes(ix, w, list, within, g),
{
    if f <= g {
        mono_scopes(ix, w, list, within, f, g);
    } else {
        mono_scopes(ix, w, list, within, g, f);
    }
}

/// Headers that are walked once `w` has become `v`, within the room of `w`.
proof fn fit_headers_after(
    ix: IndexView,
    w: Walk,
    v: Walk,
    list: Seq<Hid>,
    within: bool,
    f: nat,
    chain: Set<Hid>,
    r: nat,
)
    requires
        ix.edges_known(),
        known(ix, w),
        grows(ix, w, v),
        walk_headers(ix, v, list, within, f) is Some,
        blocked(ix, w, chain, f),
        !within ==> chain == Set::<Hid>::empty(),
        room(ix, w, chain, within) <= r,
    ensures
        walk_headers(ix, v, list, within, r) is Some,
    decreases f, 3nat, list.len() + 1,
{
    let c = if v == w {
        chain
    } else {
        lemma_room_shrinks(ix, w, v, chain, within);
        Set::<Hid>::empty()
    };
    lemma_room(ix, v, c, within);
    fit_headers(ix, v, list, within, f, c);
    mono_headers(ix, v, list, within, room(ix, v, c, within) as nat, r);
}

proof fn fit_headers(
    ix: IndexView,
    w: Walk,
    list: Seq<Hid>,
    within: bool,
    f: nat,
    chain: Set<Hid>,
)
    requires
        ix.edges_known(),
        known(ix, w),
        walk_headers(ix, w, list, within, f) is Some,
        blocked(ix, w, chain, f),
        !within ==> chain == Set::<Hid>::empty(),
    ensures
        walk_headers(ix, w, list, within, room(ix, w, chain, within) as nat) is Some,
    decreases f, 3nat, list.len(),
{
    if list.len() > 0 {
        let r = room(ix, w, chain, within) as nat;
        let rest = list.drop_first();
        lemma_room(ix, w, chain, within);
        fit_header(ix, w, list[0], within, f, chain);
        mono_header(ix, w, list[0], within, f, f);
        let v = walk_header(ix, w, list[0], within, f)->0;
        if f <= r {
            mono_header(ix, w, list[0], within, f, r);
        } else {
            mono_header(ix, w, list[0], within, r, f);
        }
        let c = if v == w {
            chain
        } else {
            lemma_room_shrinks(ix, w, v, chain, within);
            Set::<Hid>::empty()
        };
        lemma_room(ix, v, c, within);
        fit_headers(ix, v, rest, within, f, c);
        mono_headers(ix, v, rest, within, room(ix, v, c, within) as nat, r);
    }
}

proof fn fit_scope(
    ix: IndexView,
    w: Walk,
    scope: ScopeId,
    within: bool,
    f: nat,
    chain: Set<Hid>,
)
    requires
        ix.edges_known(),
        known(ix, w),
        scopes(ix).contains(scope),
        walk_scope(ix, w, scope, within, f) is Some,
        blocked(ix, w, chain, f),
        !within ==> chain == Set::<Hid>::empty(),
    ensures
        walk_scope(ix, w, scope, within, room(ix, w, chain, within) as nat) is Some,
    decreases f, 4nat, 0nat,
{
    if !w.visited.contains(scope) {
        let none = Set::<Hid>::empty();
        let v = w.visit(scope);
        let items = ix.scope_items(scope);
        assert(v.visited.contains(scope));
        lemma_room_shrinks(ix, w, v, chain, within);
        lemma_room(ix, v, none, within);
        fit_headers(ix, v, items, within, f, none);
        mono_headers(
            ix,
            v,
            items,
            within,
            room(ix, v, none, within) as nat,
            room(ix, w, chain, within) as nat,
        );
    }
}

proof fn fit_scopes(
    ix: IndexView,
    w: Walk,
    list: Seq<ScopeId>,
    within: bool,
    f: nat,
    chain: Set<Hid>,
)
    requires
        ix.edges_known(),
        known(ix, w),
        scopes_known(ix, list),
        walk_scopes(ix, w, list, within, f) is Some,
        blocked(ix, w, chain, f),
        !within ==> chain == Set::<Hid>::empty(),
    ensures
        walk_scopes(ix, w, list, within, room(ix, w, chain, within) as nat) is Some,
    decreases f, 5nat, list.len(),
{
    if list.len() > 0 {
        let r = room(ix, w, chain, within) as nat;
        let rest = list.drop_first();
        assert(scopes(ix).contains(list[0]));
        assert(scopes_known(ix, rest)) by {
            assert forall|i: int| 0 <= i < rest.len() implies scopes(ix).contains(
                #[trigger] rest[i],
            ) by {
                assert(rest[i] == list[i + 1]);
            }
        }
        lemma_room(ix, w, chain, within);
        fit_scope(ix, w, list[0], within, f, chain);
        mono_scope(ix, w, list[0], within, f, f);
        let v = walk_scope(ix, w, list[0], within, f)->0;
        if f <= r {
            mono_scope(ix, w, list[0], within, f, r);
        } else {
            mono_scope(ix, w, list[0], within, r, f);
        }
        let c = if v == w {
            chain
        } else {
            lemma_room_shrinks(ix, w, v, chain, within);
            Set::<Hid>::empty()
        };
        lemma_room(ix, v, c, within);
        fit_scopes(ix, v, rest, within, f, c);
        mono_scopes(ix, v, rest, within, room(ix, v, c, within) as nat, r);
    }
}

proof fn fit_branches(
    ix: IndexView,
    w: Walk,
    nested: Seq<Hid>,
    within: bool,
    f: nat,
    chain: Set<Hid>,
)
    requires
        ix.edges_known(),
        known(ix, w),
        all_known(ix, nested),
        walk_branches(ix, w, nested, within, f) is Some,
        blocked(ix, w, chain, f),
        !within ==> chain == Set::<Hid>::empty(),
    ensures
        walk_branches(ix, w, nested, within, room(ix, w, chain, within) as nat) is Some,
    decreases f, 5nat, nested.len(),
{
    if nested.len() > 0 {
        let r = room(ix, w, chain, within) as nat;
        let rest = nested.drop_first();
        let scope = ix.scope_of(nested[0]);
        lemma_rest_known(ix, nested);
        lemma_known_header(ix, nested[0]);
        lemma_room(ix, w, chain, within);
        fit_scope(ix, w, scope, within, f, chain);
        mono_scope(ix, w, scope, within, f, f);
        let v = walk_scope(ix, w, scope, within, f)->0;
        if f <= r {
            mono_scope(ix, w, scope, within, f, r);
        } else {
            mono_scope(ix, w, scope, within, r, f);
        }
        let c = if v == w {
            chain
        } else {
            lemma_room_shrinks(ix, w, v, chain, within);
            Set::<Hid>::empty()
        };
        lemma_room(ix, v, c, within);
        let q = room(ix, v, c, within) as nat;
        fit_header(ix, v, nested[0], within, f, c);
        mono_header(ix, v, nested[0], within, q, r);
        mono_header(ix, v, nested[0], within, f, f);
        let u = walk_header(ix, v, nested[0], within, f)->0;
        if f <= r {
            mono_header(ix, v, nested[0], within, f, r);
        } else {
            mono_header(ix, v, nested[0], within, r, f);
        }
        let d = if u == v {
            c
        } else {
            lemma_room_shrinks(ix, v, u, c, within);
            Set::<Hid>::empty()
        };
        lemma_room(ix, u, d, within);
        fit_branches(ix, u, rest, within, f, d);
        mono_branches(ix, u, rest, within, room(ix, u, d, within) as nat, r);
    }
}

/// How deep headers can be nested in an index that has a layout.
pub open spec fn depth_limit(ix: IndexView) -> nat {
    (hids(ix).len() + scopes(ix).len()) * (hids(ix).len() + 2) + hids(ix).len() + 2
}

/// An index that has a layout is laid out within its depth limit.
pub proof fn layouts_keep_to_the_depth_limit(ix: IndexView, show: bool)
    requires
        ix.edges_known(),
    ensures
        model::has_layout(ix, show) <==> model::layout(ix, show, depth_limit(ix)) is Some,
        model::has_layout(ix, show) ==> model::layout(ix, show, depth_limit(ix)) == Some(
            model::layout_of(ix, show),
        ),
{
    let r = depth_limit(ix);
    if model::has_layout(ix, show) {
        let f = choose|f: nat| model::layout(ix, show, f) is Some;
        let l = Layout::empty();
        let w = walked(l);
        let list = tops::top_scopes(ix);
        let none = Set::<Hid>::empty();
        assert(scopes_known(ix, list)) by {
            tops::top_scopes_are_sorted(ix);
            assert forall|i: int| 0 <= i < list.len() implies scopes(ix).contains(
                #[trigger] list[i],
            ) by {
                assert(list.contains(list[i]));
                lemma_scope_known(ix, list[i]);
            }
        }
        sim_scopes(ix, show, l, list, None, f, f);
        assert(known(ix, w));
        fit_scopes(ix, w, list, false, f, none);
        assert(hids(ix).difference(w.entry) =~= hids(ix));
        assert(scopes(ix).difference(w.visited) =~= scopes(ix));
        assert(room(ix, w, none, false) == r);
        if f <= r {
            fuel::lemma_scopes(ix, show, l, list, None, f, r);
        } else {
            sim_scopes(ix, show, l, list, None, r, f);
        }
        fuel::layout_is_unique(ix, show, r);
    }
}

proof fn lemma_scope_known(ix: IndexView, scope: ScopeId)
    requires
        ix.headers_in_scope(scope).len() > 0,
    ensures
        scopes(ix).contains(scope),
{
    let pred = |h: HeaderView| h.scope == scope;
    let found = ix.headers_in_scope(scope);
    assert(found.contains(found[0]));
    index::lemma_filter_member(ix.headers, pred, found[0]);
    let i = choose|i: int| 0 <= i < ix.headers.len() && ix.headers[i] == found[0];
    assert(ix.headers.map_values(|h: HeaderView| h.scope)[i] == scope);
}

/// A set of numbers has no more members than there are numbers.
proof fn lemma_set_of_numbers(s: Set<u32>)
    requires
        s.finite(),
    ensures
        s.len() <= u32::MAX + 1,
{
    let f = |x: u32| x as int;
    let range = vstd::set_lib::set_int_range(0, u32::MAX + 1);
    vstd::set_lib::lemma_int_range(0, u32::MAX + 1);
    vstd::set_lib::lemma_map_size(s, s.map(f), f);
    assert(s.map(f).subset_of(range));
    vstd::set_lib::lemma_len_subset(s.map(f), range);
}

/// Computes the depth limit of an index.
pub fn find_depth_limit(index: &HeaderIndex) -> (limit: u128)
    ensures
        limit == depth_limit(index@),
{
    let ghost ix = index@;
    let ghost all_hids = ix.headers.map_values(|h: HeaderView| h.hid);
    let ghost all_scopes = ix.headers.map_values(|h: HeaderView| h.scope);
    let mut hids_seen: HashSet<Hid> = HashSet::new();
    let mut scopes_seen: HashSet<ScopeId> = HashSet::new();
    let mut i: usize = 0;
    assert(hids_seen@ =~= all_hids.take(0).to_set());
    assert(scopes_seen@ =~= all_scopes.take(0).to_set());
    while i < index.headers.len()
        invariant
            i <= index.headers.len(),
            ix == index@,
            all_hids == ix.headers.map_values(|h: HeaderView| h.hid),
            all_scopes == ix.headers.map_values(|h: HeaderView| h.scope),
            hids_seen@ == all_hids.take(i as int).to_set(),
            scopes_seen@ == all_scopes.take(i as int).to_set(),
        decreases index.headers.len() - i,
    {
        hids_seen.insert(index.headers[i].hid);
        scopes_seen.insert(index.headers[i].scope);
        proof {
            lemma_take_set(all_hids, i as int);
            lemma_take_set(all_scopes, i as int);
        }
        i = i + 1;
    }
    proof {
        assert(all_hids.take(i as int) =~= all_hids);
        assert(all_scopes.take(i as int) =~= all_scopes);
        lemma_finite(ix);
        lemma_set_of_numbers(hids(ix));
        lemma_set_of_numbers(scopes(ix));
    }
    let h: u128 = hids_seen.len() as u128;
    let s: u128 = scopes_seen.len() as u128;
    assert((h + s) * (h + 2) <= 0x2_0000_0000u128 * 0x1_0000_0002u128) by (nonlinear_arith)
        requires
            h <= 0x1_0000_0000u128,
            s <= 0x1_0000_0000u128,
    ;
    (h + s) * (h + 2) + h + 2
}

proof fn lemma_take_set<T>(s: Seq<T>, i: int)
    requires
        0 <= i < s.len(),
    ensures
        s.take(i + 1).to_set() == s.take(i).to_set().insert(s[i]),
{
    let (a, b) = (s.take(i), s.take(i + 1));
    assert(b == a.push(s[i]));
    assert forall|x: T| #[trigger] b.to_set().contains(x) implies a.to_set().insert(s[i]).contains(
        x,
    ) by {
        let k = choose|k: int| 0 <= k < b.len() && b[k] == x;
        if k < i {
            assert(a[k] == x);
        }
    }
    assert forall|x: T| #[trigger] a.to_set().insert(s[i]).contains(x) implies b.to_set().contains(
        x,
    ) by {
        if x == s[i] {
            assert(b[i] == x);
        } else {
            let k = choose|k: int| 0 <= k < a.len() && a[k] == x;
            assert(b[k] == x);
        }
    }
    assert(b.to_set() =~= a.to_set().insert(s[i]));
}

} // verus!
