//! How the nodes of a graph follow each other.
use vstd::prelude::*;
use crate::graph::Edge;
use crate::ids::NodeId;
use crate::index::{Hid, IndexView, ScopeId};
use crate::invariants;
use crate::merge;
use crate::model::{Layout, Shape};
use crate::placement;

verus! {

/// Whether each of `froms` leads to `to`.
pub open spec fn leads(l: Layout, froms: Seq<NodeId>, to: NodeId) -> bool {
    forall|i: int| 0 <= i < froms.len() ==> l.edges.contains(Edge { from: #[trigger] froms[i], to })
}

/// Whether a node of a list leads to the next one.
pub open spec fn node_leads_on(l: Layout, ids: Seq<NodeId>, i: int) -> bool {
    l.edges.contains(Edge { from: ids[i], to: ids[i + 1] })
}

/// Whether a header of a list is left towards the next one.
pub open spec fn header_leads_on(l: Layout, hids: Seq<Hid>, i: int) -> bool {
    leads(l, l.exits[hids[i]], l.entry[hids[i + 1]])
}

/// Whether headers are laid out and each is left towards the next one.
pub open spec fn in_sequence(l: Layout, hids: Seq<Hid>) -> bool {
    &&& l.all_left(hids)
    &&& forall|i: int| 0 <= i < hids.len() - 1 ==> #[trigger] header_leads_on(l, hids, i)
}

/// The header by which a child of a container is left: if the child opens a
/// scope, the last item of that scope.
pub open spec fn left_by(ix: IndexView, hid: Hid, child: Hid) -> Hid {
    let items = ix.scope_items(ix.scope_of(child));
    if ix.nested_children(hid).contains(child) && items.len() > 0 {
        items.last()
    } else {
        child
    }
}

/// The children of a header, of the same scope and nested, in order of position.
pub open spec fn children_in_order(ix: IndexView, hid: Hid) -> Seq<Hid> {
    merge::merged(merge::spans_of(ix), ix.md_children(hid), ix.nested_children(hid))
}

/// The only child of a header that has one.
pub open spec fn only_child(ix: IndexView, hid: Hid) -> Hid {
    if ix.md_children(hid).len() > 0 {
        ix.md_children(hid)[0]
    } else {
        ix.nested_children(hid)[0]
    }
}

/// How a header is laid out: by whether it has children, whether it decides, and
/// whether it is entered at a node of its own.
pub open spec fn laid_as(ix: IndexView, l: Layout, hid: Hid) -> Shape {
    if !placement::has_children(ix, hid) {
        Shape::Leaf
    } else if placement::decides(ix, hid) {
        Shape::Branch
    } else if placement::stands_for(l.nodes[l.entry[hid]@ as int], hid) {
        Shape::Flat
    } else {
        Shape::Container
    }
}

/// Whether a child of a container is left towards the next one.
pub open spec fn child_leads_on(ix: IndexView, l: Layout, hid: Hid, i: int) -> bool {
    let all = children_in_order(ix, hid);
    leads(l, l.exits[left_by(ix, hid, all[i])], l.entry[all[i + 1]])
}

/// How a header follows from what it consists of. One without children is entered and
/// left by its node. One that decides is entered by its node, which leads to its
/// branches; their ends lead to what follows, by the last of which it is left, or else
/// it is left by the branches. One in line, in a cluster, leads to its child and is left
/// as that is. Any other is entered by its first child, and left as its last one, or the
/// scope that this opens, is.
pub open spec fn header_flow(ix: IndexView, show: bool, l: Layout, hid: Hid) -> bool {
    let md = ix.md_children(hid);
    let nested = ix.nested_children(hid);
    &&& l.entry.contains_key(hid)
    &&& l.exits.contains_key(hid)
    &&& match laid_as(ix, l, hid) {
        Shape::Leaf => {
            &&& placement::stands_for(l.nodes[l.entry[hid]@ as int], hid)
            &&& l.exits[hid] == seq![l.entry[hid]]
            &&& show ==> invariants::calls_linked(ix, l, hid)
        },
        Shape::Branch => {
            &&& placement::stands_for(l.nodes[l.entry[hid]@ as int], hid)
            &&& l.all_left(md)
            &&& l.all_left(nested)
            &&& show ==> invariants::calls_linked(ix, l, hid)
            &&& forall|i: int|
                0 <= i < nested.len() ==> l.edges.contains(
                    Edge { from: l.entry[hid], to: l.entry[#[trigger] nested[i]] },
                )
            &&& show ==> forall|i: int|
                0 <= i < nested.len() ==> invariants::calls_linked(ix, l, #[trigger] nested[i])
            &&& md.len() == 0 ==> l.exits[hid] == l.exits_of(nested)
            &&& md.len() > 0 ==> {
                &&& l.exits[hid] == seq![l.entry[md.last()]]
                &&& nested.len() == 0 ==> leads(l, seq![l.entry[hid]], l.entry[md[0]])
                &&& leads(l, l.exits_of(nested), l.entry[md[0]])
            }
            &&& forall|i: int| 0 <= i < md.len() - 1 ==> #[trigger] node_leads_on(l, l.entries(md), i)
        },
        Shape::Flat => {
            let child = only_child(ix, hid);
            &&& placement::has_lone_child(ix, hid)
            &&& l.nodes[l.entry[hid]@ as int].cluster is Some
            &&& l.exits.contains_key(child)
            &&& l.exits[hid] == l.exits[child]
            &&& leads(l, seq![l.entry[hid]], l.entry[child])
        },
        Shape::Container => {
            let all = children_in_order(ix, hid);
            &&& all.len() > 0
            &&& l.all_left(all)
            &&& l.entry[hid] == l.entry[all[0]]
            &&& forall|i: int|
                0 <= i < all.len() ==> l.exits.contains_key(left_by(ix, hid, #[trigger] all[i]))
            &&& l.exits[hid] == l.exits[left_by(ix, hid, all.last())]
            &&& forall|i: int| 0 <= i < all.len() - 1 ==> #[trigger] child_leads_on(ix, l, hid, i)
        },
    }
}

/// Whether headers that are left in `l` are left in the same way in `m`.
pub open spec fn keeps_exits(l: Layout, m: Layout) -> bool {
    forall|h: Hid| #[trigger]
        l.exits.contains_key(h) ==> m.exits.contains_key(h) && m.exits[h] == l.exits[h]
}

/// Whether the headers and scopes that `m` has beyond `l` follow from what they
/// consist of.
pub open spec fn flows(ix: IndexView, show: bool, l: Layout, m: Layout) -> bool {
    &&& keeps_exits(l, m)
    &&& invariants::keeps_entries(l, m)
    &&& forall|h: Hid| #[trigger]
        m.entry.contains_key(h) && !l.entry.contains_key(h) ==> header_flow(ix, show, m, h)
    &&& forall|s: ScopeId| #[trigger]
        m.visited.contains(s) && !l.visited.contains(s) ==> in_sequence(m, ix.scope_items(s))
}

pub(crate) proof fn lemma_leads_kept(
    ix: IndexView,
    l: Layout,
    m: Layout,
    froms: Seq<NodeId>,
    to: NodeId,
)
    requires
        invariants::extends(ix, l, m),
        leads(l, froms, to),
    ensures
        leads(m, froms, to),
{
    assert forall|i: int| 0 <= i < froms.len() implies m.edges.contains(
        Edge { from: #[trigger] froms[i], to },
    ) by {
        invariants::lemma_edge_kept(ix, l, m, Edge { from: froms[i], to });
    }
}

pub(crate) proof fn lemma_left_kept(l: Layout, m: Layout, hids: Seq<Hid>)
    requires
        keeps_exits(l, m),
        l.all_left(hids),
    ensures
        m.all_left(hids),
        m.exits_of(hids) == l.exits_of(hids),
{
    assert forall|i: int| 0 <= i < hids.len() implies m.exits.contains_key(#[trigger] hids[i])
        && m.exits[hids[i]] == l.exits[hids[i]] by {
        assert(l.exits.contains_key(hids[i]));
    }
    assert(hids.map_values(|hid: Hid| m.exits[hid]) =~= hids.map_values(|hid: Hid| l.exits[hid]));
}

pub(crate) proof fn lemma_left_entered(ix: IndexView, show: bool, l: Layout, hids: Seq<Hid>)
    requires
        invariants::sound(ix, show, l),
        l.all_left(hids),
    ensures
        l.all_entered(hids),
{
    assert forall|i: int| 0 <= i < hids.len() implies l.entry.contains_key(#[trigger] hids[i]) by {
        assert(l.exits.contains_key(hids[i]));
    }
}

pub(crate) proof fn lemma_sequence_kept(
    ix: IndexView,
    show: bool,
    l: Layout,
    m: Layout,
    hids: Seq<Hid>,
)
    requires
        invariants::sound(ix, show, l),
        invariants::extends(ix, l, m),
        keeps_exits(l, m),
        invariants::keeps_entries(l, m),
        in_sequence(l, hids),
    ensures
        in_sequence(m, hids),
{
    lemma_left_kept(l, m, hids);
    lemma_left_entered(ix, show, l, hids);
    assert forall|i: int| 0 <= i < hids.len() - 1 implies #[trigger] header_leads_on(
        m,
        hids,
        i,
    ) by {
        assert(header_leads_on(l, hids, i));
        assert(l.exits.contains_key(hids[i]));
        assert(l.entry.contains_key(hids[i + 1]));
        lemma_leads_kept(ix, l, m, l.exits[hids[i]], l.entry[hids[i + 1]]);
    }
}

pub(crate) proof fn lemma_flow_kept(ix: IndexView, show: bool, l: Layout, m: Layout, hid: Hid)
    requires
        invariants::sound(ix, show, l),
        invariants::extends(ix, l, m),
        keeps_exits(l, m),
        invariants::keeps_entries(l, m),
        header_flow(ix, show, l, hid),
    ensures
        header_flow(ix, show, m, hid),
{
    let md = ix.md_children(hid);
    let nested = ix.nested_children(hid);
    assert(l.entry.contains_key(hid));
    assert(m.nodes[l.entry[hid]@ as int] == l.nodes[l.entry[hid]@ as int]);
    if laid_as(ix, l, hid) == Shape::Leaf {
        if show {
            invariants::lemma_calls_linked_kept(ix, l, m, hid);
        }
    } else if laid_as(ix, l, hid) == Shape::Branch {
        if show {
            invariants::lemma_calls_linked_kept(ix, l, m, hid);
        }
        lemma_left_kept(l, m, md);
        lemma_left_kept(l, m, nested);
        lemma_left_entered(ix, show, l, md);
        lemma_left_entered(ix, show, l, nested);
        assert(m.entries(md) =~= l.entries(md)) by {
            assert forall|i: int| 0 <= i < md.len() implies m.entry[#[trigger] md[i]]
                == l.entry[md[i]] by {
                assert(l.entry.contains_key(md[i]));
            }
        }
        assert forall|i: int| 0 <= i < nested.len() implies m.edges.contains(
            Edge { from: m.entry[hid], to: m.entry[#[trigger] nested[i]] },
        ) by {
            assert(l.entry.contains_key(nested[i]));
            invariants::lemma_edge_kept(
                ix,
                l,
                m,
                Edge { from: l.entry[hid], to: l.entry[nested[i]] },
            );
        }
        if show {
            assert forall|i: int| 0 <= i < nested.len() implies invariants::calls_linked(
                ix,
                m,
                #[trigger] nested[i],
            ) by {
                assert(l.entry.contains_key(nested[i]));
                invariants::lemma_calls_linked_kept(ix, l, m, nested[i]);
            }
        }
        if md.len() > 0 {
            assert(l.entry.contains_key(md[0]));
            assert(l.entry.contains_key(md[md.len() - 1]));
            lemma_leads_kept(ix, l, m, l.exits_of(nested), l.entry[md[0]]);
            if nested.len() == 0 {
                lemma_leads_kept(ix, l, m, seq![l.entry[hid]], l.entry[md[0]]);
            }
        }
        assert forall|i: int| 0 <= i < md.len() - 1 implies #[trigger] node_leads_on(
            m,
            m.entries(md),
            i,
        ) by {
            assert(node_leads_on(l, l.entries(md), i));
            invariants::lemma_edge_kept(
                ix,
                l,
                m,
                Edge { from: l.entries(md)[i], to: l.entries(md)[i + 1] },
            );
        }
    } else if laid_as(ix, l, hid) == Shape::Flat {
        let child = only_child(ix, hid);
        assert(l.entry.contains_key(child));
        lemma_leads_kept(ix, l, m, seq![l.entry[hid]], l.entry[child]);
    } else {
        let all = children_in_order(ix, hid);
        lemma_left_kept(l, m, all);
        lemma_left_entered(ix, show, l, all);
        assert(l.entry.contains_key(all[0]));
        assert forall|i: int| 0 <= i < all.len() implies m.exits.contains_key(
            left_by(ix, hid, #[trigger] all[i]),
        ) by {
            assert(l.exits.contains_key(left_by(ix, hid, all[i])));
        }
        assert(l.exits.contains_key(left_by(ix, hid, all[all.len() - 1])));
        assert forall|i: int| 0 <= i < all.len() - 1 implies #[trigger] child_leads_on(
            ix,
            m,
            hid,
            i,
        ) by {
            assert(child_leads_on(ix, l, hid, i));
            assert(l.exits.contains_key(left_by(ix, hid, all[i])));
            assert(l.entry.contains_key(all[i + 1]));
            lemma_leads_kept(ix, l, m, l.exits[left_by(ix, hid, all[i])], l.entry[all[i + 1]]);
        }
    }
}

/// The exits of headers are those of each header, one header after the other.
pub proof fn exits_come_one_after_the_other(l: Layout, a: Seq<Hid>, h: Hid, b: Seq<Hid>)
    ensures
        l.exits_of(a + seq![h] + b) == l.exits_of(a) + l.exits[h] + l.exits_of(b),
        l.exits_of(Seq::<Hid>::empty()) == Seq::<NodeId>::empty(),
        l.exits_of(seq![h]) == l.exits[h],
{
    lemma_exits_joined(l, a + seq![h], b);
    lemma_exits_joined(l, a, seq![h]);
    lemma_exits_single(l, h);
    let none = Seq::<Hid>::empty();
    assert(none.map_values(|hid: Hid| l.exits[hid]) =~= Seq::<Seq<NodeId>>::empty());
}

proof fn lemma_exits_single(l: Layout, h: Hid)
    ensures
        l.exits_of(seq![h]) == l.exits[h],
{
    let f = |hid: Hid| l.exits[hid];
    let one = seq![h].map_values(f);
    assert(one.drop_first() =~= Seq::<Seq<NodeId>>::empty());
    assert(one.first() == l.exits[h]);
    assert(one.drop_first().flatten() =~= Seq::<NodeId>::empty());
    assert(one.flatten() =~= one.first() + one.drop_first().flatten());
}

proof fn lemma_exits_joined(l: Layout, a: Seq<Hid>, b: Seq<Hid>)
    ensures
        l.exits_of(a + b) == l.exits_of(a) + l.exits_of(b),
    decreases a.len(),
{
    let f = |hid: Hid| l.exits[hid];
    if a.len() == 0 {
        assert(a + b =~= b);
        assert(a.map_values(f) =~= Seq::<Seq<NodeId>>::empty());
        assert(l.exits_of(a) + l.exits_of(b) =~= l.exits_of(b));
    } else {
        let rest = a.drop_first();
        lemma_exits_joined(l, rest, b);
        assert((a + b).drop_first() =~= rest + b);
        assert((a + b).map_values(f).drop_first() =~= (rest + b).map_values(f));
        assert(a.map_values(f).drop_first() =~= rest.map_values(f));
        assert((a + b).map_values(f).first() == l.exits[a[0]]);
        assert(a.map_values(f).first() == l.exits[a[0]]);
        assert(l.exits_of(a + b) =~= l.exits[a[0]] + l.exits_of(rest + b));
        assert(l.exits_of(a) =~= l.exits[a[0]] + l.exits_of(rest));
        assert(l.exits_of(a + b) =~= l.exits_of(a) + l.exits_of(b));
    }
}

} // verus!
