//! In which cluster each thing stands.
//!
//! Whatever stands in a cluster was put there by a header that it hangs from:
//! the one whose cluster it is, or one that stands in line in that cluster.
use vstd::prelude::*;
use crate::graph::{ClusterView, KindView, NodeView};
use crate::ids;
use crate::ids::{ClusterId, NodeId};
use crate::index;
use crate::index::{HeaderLabelKind, HeaderView, Hid, IndexView, ScopeId};
use crate::invariants;
use crate::laws;
use crate::memory;
use crate::merge;
use crate::model;
use crate::model::{Layout, Shape};
use crate::nesting;
use crate::nesting::Ranking;
use crate::tops;
use crate::trees;

verus! {

broadcast use {ids::lemma_cluster_id, ids::lemma_cluster_nth};

/// Whether anything stands below a header.
pub open spec fn has_children(ix: IndexView, h: Hid) -> bool {
    ix.md_children(h).len() > 0 || ix.nested_children(h).len() > 0
}

/// Whether a header decides between what stands below it.
pub open spec fn decides(ix: IndexView, h: Hid) -> bool {
    has_children(ix, h) && (ix.header(h) matches Some(v) && v.label_kind == HeaderLabelKind::If)
}

/// Whether a header has one child and no more, which, if it opens a scope, is the
/// only header there.
pub open spec fn has_lone_child(ix: IndexView, h: Hid) -> bool {
    ||| ix.md_children(h).len() == 1 && ix.nested_children(h).len() == 0
    ||| {
        &&& ix.md_children(h).len() == 0
        &&& ix.nested_children(h).len() == 1
        &&& ix.headers_in_scope(ix.scope_of(ix.nested_children(h)[0])).len() <= 1
    }
}

/// Whether `c` stands below `p`: within its scope, as the target of a nested edge
/// from it, or beside such a target as an item of the scope that this opens.
pub open spec fn hangs_from(ix: IndexView, p: Hid, c: Hid) -> bool {
    ||| ix.md_children(p).contains(c)
    ||| ix.nested_children(p).contains(c)
    ||| exists|n: Hid| #[trigger]
        ix.nested_children(p).contains(n) && ix.scope_items(ix.scope_of(n)).contains(c)
}

/// Whether a node stands for a header.
pub open spec fn stands_for(node: NodeView, h: Hid) -> bool {
    match node.kind {
        KindView::Header(hid, _) => hid == h,
        KindView::Decision(hid, _) => hid == h,
        KindView::Call { .. } => false,
    }
}

/// Whether a node stands in line in a cluster for a header that `c` hangs from.
pub open spec fn leads_in_line(ix: IndexView, node: NodeView, cluster: ClusterId, c: Hid) -> bool {
    &&& node.cluster == Some(cluster)
    &&& node.kind matches KindView::Header(p, _) && has_children(ix, p) && hangs_from(ix, p, c)
}

/// Whether `c` hangs from what makes up the place: at no cluster, from no header
/// at all, as an item of a top-level scope; in a cluster, from the header that
/// opened it, or from one that stands in line there.
pub open spec fn belongs(
    ix: IndexView,
    nodes: Seq<NodeView>,
    openers: Seq<Hid>,
    c: Hid,
    place: Option<ClusterId>,
) -> bool {
    match place {
        None => exists|s: ScopeId| #[trigger]
            tops::top_scopes(ix).contains(s) && ix.scope_items(s).contains(c),
        Some(k) => {
            &&& k@ < openers.len()
            &&& hangs_from(ix, openers[k@ as int], c) || exists|j: int|
                0 <= j < nodes.len() && leads_in_line(ix, #[trigger] nodes[j], k, c)
        },
    }
}

/// Whether a node stands in the place for a header.
pub open spec fn is_beside(
    ix: IndexView,
    node: NodeView,
    h: Hid,
    place: Option<ClusterId>,
) -> bool {
    stands_for(node, h) && node.cluster == place
}

/// Whether a node stands in the place for a decision with `h` as a branch.
pub open spec fn branches_beside(
    ix: IndexView,
    node: NodeView,
    h: Hid,
    place: Option<ClusterId>,
) -> bool {
    &&& node.cluster == place
    &&& node.kind matches KindView::Decision(b, _) && ix.nested_children(b).contains(h)
}

/// Whether calls of a header belong into a place: where its node is, if it has no
/// children or decides; else where a decision is that has it as a branch.
pub open spec fn calls_belong(
    ix: IndexView,
    nodes: Seq<NodeView>,
    h: Hid,
    place: Option<ClusterId>,
) -> bool {
    if !has_children(ix, h) || decides(ix, h) {
        exists|j: int| 0 <= j < nodes.len() && is_beside(ix, #[trigger] nodes[j], h, place)
    } else {
        exists|j: int| 0 <= j < nodes.len() && branches_beside(ix, #[trigger] nodes[j], h, place)
    }
}

/// Whether a node stands where it belongs. A header without children stands where
/// it hangs, and so does one with a lone child, but only in a cluster. A header
/// that decides stands in the cluster that it opened.
pub open spec fn node_belongs(
    ix: IndexView,
    show: bool,
    nodes: Seq<NodeView>,
    openers: Seq<Hid>,
    node: NodeView,
) -> bool {
    match node.kind {
        KindView::Header(h, _) => {
            &&& belongs(ix, nodes, openers, h, node.cluster)
            &&& has_children(ix, h) ==> !decides(ix, h) && has_lone_child(ix, h)
                && node.cluster is Some
        },
        KindView::Decision(h, _) => {
            &&& decides(ix, h)
            &&& node.cluster matches Some(k) && k@ < openers.len() && openers[k@ as int] == h
        },
        KindView::Call { header, callee } => {
            &&& show
            &&& ix.calls(header).contains(callee)
            &&& calls_belong(ix, nodes, header, node.cluster)
        },
    }
}

/// Whether a cluster stands where the header that opened it hangs, with its title.
/// Such a header decides, or has more than a lone child, or hangs from nothing.
pub open spec fn cluster_belongs(
    ix: IndexView,
    nodes: Seq<NodeView>,
    openers: Seq<Hid>,
    cluster: ClusterView,
    h: Hid,
) -> bool {
    &&& ix.header(h) matches Some(v) && cluster.label == v.title
    &&& belongs(ix, nodes, openers, h, cluster.parent)
    &&& has_children(ix, h)
    &&& decides(ix, h) || !has_lone_child(ix, h) || cluster.parent is None
}

/// Whether a header has a node, or opened a cluster without having one.
pub open spec fn is_shown(
    ix: IndexView,
    nodes: Seq<NodeView>,
    openers: Seq<Hid>,
    h: Hid,
) -> bool {
    ||| exists|j: int| 0 <= j < nodes.len() && stands_for(#[trigger] nodes[j], h)
    ||| !decides(ix, h) && openers.contains(h)
}

/// Whether everything in a layout stands where it belongs, with `openers` the
/// headers that opened the clusters.
pub open spec fn stands_where_it_belongs(
    ix: IndexView,
    show: bool,
    l: Layout,
    openers: Seq<Hid>,
) -> bool {
    &&& openers.len() == l.clusters.len()
    &&& forall|i: int|
        0 <= i < l.nodes.len() ==> node_belongs(ix, show, l.nodes, openers, #[trigger] l.nodes[i])
    &&& forall|k: int|
        0 <= k < l.clusters.len() ==> cluster_belongs(
            ix,
            l.nodes,
            openers,
            #[trigger] l.clusters[k],
            openers[k],
        )
    &&& forall|h: Hid| #[trigger] l.entry.contains_key(h) ==> is_shown(ix, l.nodes, openers, h)
    &&& forall|j: int, k: int|
        0 <= j < k < openers.len() && #[trigger] openers[j] == #[trigger] openers[k] ==> !decides(
            ix,
            openers[j],
        ) && invariants::inside(l.clusters, l.clusters[k].parent, Some(ClusterId::nth(j as nat)))
    &&& forall|i: int, j: int, h: Hid|
        0 <= i < j < l.nodes.len() ==> !(#[trigger] stands_for(l.nodes[i], h) && #[trigger] stands_for(
            l.nodes[j],
            h,
        ))
}

/// Whether the calls of headers that stand as nodes where they are met have nodes.
#[verifier::opaque]
spec fn calls_known(ix: IndexView, show: bool, l: Layout, except: Option<Hid>) -> bool {
    show ==> forall|h: Hid, i: int|
        l.entry.contains_key(h) && Some(h) != except && (!has_children(ix, h) || decides(ix, h))
            && 0 <= i < ix.calls(h).len() ==> l.calls.contains_key((h, #[trigger] ix.calls(h)[i]))
}

/// Whether all clusters whose headers are not entered yet stand around a place.
#[verifier::opaque]
spec fn open_above(l: Layout, o: Seq<Hid>, place: Option<ClusterId>) -> bool {
    forall|k: int|
        0 <= k < o.len() && !l.entry.contains_key(#[trigger] o[k]) ==> invariants::inside(
            l.clusters,
            place,
            Some(ClusterId::nth(k as nat)),
        )
}

/// Whether the headers that opened further clusters are entered.
#[verifier::opaque]
spec fn closed_since(m: Layout, o: Seq<Hid>, q: Seq<Hid>) -> bool {
    forall|k: int| o.len() <= k < q.len() ==> m.entry.contains_key(#[trigger] q[k])
}

/// What is known of a layout while it grows.
#[verifier::opaque]
spec fn settled(ix: IndexView, show: bool, l: Layout, o: Seq<Hid>) -> bool {
    &&& stands_where_it_belongs(ix, show, l, o)
    &&& forall|i: int, h: Hid|
        0 <= i < l.nodes.len() && #[trigger] stands_for(l.nodes[i], h) ==> l.entry.contains_key(h)
    &&& forall|k: int|
        0 <= k < o.len() && decides(ix, #[trigger] o[k]) ==> l.entry.contains_key(o[k])
}

spec fn grown(l: Layout, o: Seq<Hid>, m: Layout, q: Seq<Hid>) -> bool {
    &&& l.nodes.is_prefix_of(m.nodes)
    &&& l.clusters.is_prefix_of(m.clusters)
    &&& o.is_prefix_of(q)
    &&& forall|h: Hid| #[trigger] l.entry.contains_key(h) ==> m.entry.contains_key(h)
    &&& forall|k: (Hid, Seq<char>)| #[trigger] l.calls.contains_key(k) ==> m.calls.contains_key(k)
}

/// Whether headers can be laid out next in a place.
spec fn ready(
    ix: IndexView,
    show: bool,
    l: Layout,
    o: Seq<Hid>,
    place: Option<ClusterId>,
) -> bool {
    &&& settled(ix, show, l, o)
    &&& calls_known(ix, show, l, None)
    &&& open_above(l, o, place)
}

/// A step of a layout.
spec fn step(
    ix: IndexView,
    show: bool,
    l: Layout,
    o: Seq<Hid>,
    m: Layout,
    q: Seq<Hid>,
) -> bool {
    &&& settled(ix, show, m, q)
    &&& calls_known(ix, show, m, None)
    &&& grown(l, o, m, q)
    &&& closed_since(m, o, q)
}

/// After a step headers can be laid out in the same place.
proof fn lemma_step_on(
    ix: IndexView,
    show: bool,
    l: Layout,
    o: Seq<Hid>,
    m: Layout,
    q: Seq<Hid>,
    place: Option<ClusterId>,
)
    requires
        ready(ix, show, l, o, place),
        step(ix, show, l, o, m, q),
    ensures
        ready(ix, show, m, q, place),
{
    lemma_open_kept(l, o, m, q, place);
}

proof fn lemma_step_chain(
    ix: IndexView,
    show: bool,
    l: Layout,
    o: Seq<Hid>,
    m: Layout,
    q: Seq<Hid>,
    n: Layout,
    r: Seq<Hid>,
)
    requires
        step(ix, show, l, o, m, q),
        step(ix, show, m, q, n, r),
    ensures
        step(ix, show, l, o, n, r),
{
    lemma_grown_chain(l, o, m, q, n, r);
    lemma_closed_chain(m, n, o, q, r);
}

/// A layout that only differs in edges, exits, spans and scopes is a step.
proof fn lemma_step_alike(ix: IndexView, show: bool, l: Layout, o: Seq<Hid>, m: Layout)
    requires
        settled(ix, show, l, o),
        calls_known(ix, show, l, None),
        m.nodes == l.nodes,
        m.clusters == l.clusters,
        m.entry == l.entry,
        m.calls == l.calls,
    ensures
        step(ix, show, l, o, m, o),
{
    lemma_alike(ix, show, l, o, m);
    reveal(calls_known);
}

/// What is open above a place stays so, as what is begun since is closed.
proof fn lemma_open_kept(
    l: Layout,
    o: Seq<Hid>,
    m: Layout,
    q: Seq<Hid>,
    place: Option<ClusterId>,
)
    requires
        grown(l, o, m, q),
        open_above(l, o, place),
        closed_since(m, o, q),
    ensures
        open_above(m, q, place),
{
    reveal(open_above);
    reveal(closed_since);
    assert forall|k: int| 0 <= k < q.len() && !m.entry.contains_key(#[trigger] q[k]) implies
        invariants::inside(m.clusters, place, Some(ClusterId::nth(k as nat))) by {
        if k < o.len() {
            assert(q[k] == o[k]);
            assert(!l.entry.contains_key(o[k]));
            invariants::lemma_inside_kept(
                l.clusters,
                m.clusters,
                place,
                Some(ClusterId::nth(k as nat)),
            );
        }
    }
}

proof fn lemma_closed_chain(
    m: Layout,
    n: Layout,
    o: Seq<Hid>,
    q: Seq<Hid>,
    r: Seq<Hid>,
)
    requires
        closed_since(m, o, q),
        closed_since(n, q, r),
        grown(m, q, n, r),
    ensures
        closed_since(n, o, r),
{
    reveal(closed_since);
    assert forall|k: int| o.len() <= k < r.len() implies n.entry.contains_key(#[trigger] r[k]) by {
        if k < q.len() {
            assert(r[k] == q[k]);
            assert(m.entry.contains_key(q[k]));
        }
    }
}

proof fn lemma_grown_same(l: Layout, o: Seq<Hid>, m: Layout)
    requires
        m.nodes == l.nodes,
        m.clusters == l.clusters,
        forall|h: Hid| #[trigger] l.entry.contains_key(h) ==> m.entry.contains_key(h),
        m.calls == l.calls,
    ensures
        grown(l, o, m, o),
{
    assert(l.nodes =~= l.nodes.subrange(0, l.nodes.len() as int));
    assert(l.clusters =~= l.clusters.subrange(0, l.clusters.len() as int));
    assert(o =~= o.subrange(0, o.len() as int));
}

proof fn lemma_prefix_chain<T>(a: Seq<T>, b: Seq<T>, c: Seq<T>)
    requires
        a.is_prefix_of(b),
        b.is_prefix_of(c),
    ensures
        a.is_prefix_of(c),
{
    assert forall|i: int| 0 <= i < a.len() implies a[i] == c[i] by {
        assert(a[i] == b[i]);
    }
    assert(a =~= c.subrange(0, a.len() as int));
}

proof fn lemma_grown_chain(
    l: Layout,
    o: Seq<Hid>,
    m: Layout,
    q: Seq<Hid>,
    n: Layout,
    r: Seq<Hid>,
)
    requires
        grown(l, o, m, q),
        grown(m, q, n, r),
    ensures
        grown(l, o, n, r),
{
    lemma_prefix_chain(l.nodes, m.nodes, n.nodes);
    lemma_prefix_chain(l.clusters, m.clusters, n.clusters);
    lemma_prefix_chain(o, q, r);
}

/// What belongs into a place keeps belonging there.
proof fn lemma_kept(ix: IndexView, l: Layout, o: Seq<Hid>, m: Layout, q: Seq<Hid>)
    requires
        grown(l, o, m, q),
    ensures
        forall|c: Hid, place: Option<ClusterId>|
            belongs(ix, l.nodes, o, c, place) ==> #[trigger] belongs(ix, m.nodes, q, c, place),
        forall|h: Hid, place: Option<ClusterId>|
            calls_belong(ix, l.nodes, h, place) ==> #[trigger] calls_belong(ix, m.nodes, h, place),
        forall|h: Hid|
            is_shown(ix, l.nodes, o, h) ==> #[trigger] is_shown(ix, m.nodes, q, h),
{
    assert forall|c: Hid, place: Option<ClusterId>|
        belongs(ix, l.nodes, o, c, place) implies #[trigger] belongs(ix, m.nodes, q, c, place) by {
        if let Some(k) = place {
            assert(q[k@ as int] == o[k@ as int]);
            if !hangs_from(ix, o[k@ as int], c) {
                let j = choose|j: int|
                    0 <= j < l.nodes.len() && leads_in_line(ix, #[trigger] l.nodes[j], k, c);
                assert(m.nodes[j] == l.nodes[j]);
            }
        }
    }
    assert forall|h: Hid, place: Option<ClusterId>|
        calls_belong(ix, l.nodes, h, place) implies #[trigger] calls_belong(
        ix,
        m.nodes,
        h,
        place,
    ) by {
        if !has_children(ix, h) || decides(ix, h) {
            let j = choose|j: int|
                0 <= j < l.nodes.len() && is_beside(ix, #[trigger] l.nodes[j], h, place);
            assert(m.nodes[j] == l.nodes[j]);
        } else {
            let j = choose|j: int|
                0 <= j < l.nodes.len() && branches_beside(ix, #[trigger] l.nodes[j], h, place);
            assert(m.nodes[j] == l.nodes[j]);
        }
    }
    assert forall|h: Hid| is_shown(ix, l.nodes, o, h) implies #[trigger] is_shown(
        ix,
        m.nodes,
        q,
        h,
    ) by {
        if exists|j: int| 0 <= j < l.nodes.len() && stands_for(#[trigger] l.nodes[j], h) {
            let j = choose|j: int| 0 <= j < l.nodes.len() && stands_for(#[trigger] l.nodes[j], h);
            assert(m.nodes[j] == l.nodes[j]);
        } else {
            let k = choose|k: int| 0 <= k < o.len() && o[k] == h;
            assert(q[k] == h);
        }
    }
}

/// A layout that only differs in edges, exits, spans and scopes.
proof fn lemma_alike(ix: IndexView, show: bool, l: Layout, o: Seq<Hid>, m: Layout)
    requires
        settled(ix, show, l, o),
        m.nodes == l.nodes,
        m.clusters == l.clusters,
        m.entry == l.entry,
        m.calls == l.calls,
    ensures
        settled(ix, show, m, o),
        grown(l, o, m, o),
        closed_since(m, o, o),
{
    reveal(settled);
    reveal(closed_since);
    lemma_grown_same(l, o, m);
}

/// Adding a node that belongs where it is put.
proof fn lemma_node(ix: IndexView, show: bool, l: Layout, o: Seq<Hid>, m: Layout, node: NodeView)
    requires
        settled(ix, show, l, o),
        m.nodes == l.nodes.push(node),
        m.clusters == l.clusters,
        forall|h: Hid| #[trigger] l.entry.contains_key(h) ==> m.entry.contains_key(h),
        forall|h: Hid| #[trigger]
            m.entry.contains_key(h) && !l.entry.contains_key(h) ==> stands_for(node, h),
        forall|h: Hid| #[trigger]
            stands_for(node, h) ==> m.entry.contains_key(h) && !l.entry.contains_key(h),
        node_belongs(ix, show, m.nodes, o, node),
        forall|k: (Hid, Seq<char>)| #[trigger] l.calls.contains_key(k) ==> m.calls.contains_key(k),
    ensures
        settled(ix, show, m, o),
        grown(l, o, m, o),
{
    reveal(settled);
    let at = l.nodes.len() as int;
    assert(l.nodes =~= m.nodes.subrange(0, at));
    assert(l.clusters =~= l.clusters.subrange(0, l.clusters.len() as int));
    assert(o =~= o.subrange(0, o.len() as int));
    lemma_kept(ix, l, o, m, o);
    assert forall|i: int| 0 <= i < m.nodes.len() implies node_belongs(
        ix,
        show,
        m.nodes,
        o,
        #[trigger] m.nodes[i],
    ) by {
        if i < at {
            assert(m.nodes[i] == l.nodes[i]);
            assert(node_belongs(ix, show, l.nodes, o, l.nodes[i]));
        }
    }
    assert forall|k: int| 0 <= k < m.clusters.len() implies cluster_belongs(
        ix,
        m.nodes,
        o,
        #[trigger] m.clusters[k],
        o[k],
    ) by {
        assert(cluster_belongs(ix, l.nodes, o, l.clusters[k], o[k]));
    }
    assert forall|h: Hid| #[trigger] m.entry.contains_key(h) implies is_shown(
        ix,
        m.nodes,
        o,
        h,
    ) by {
        if l.entry.contains_key(h) {
            assert(is_shown(ix, l.nodes, o, h));
        } else {
            assert(stands_for(m.nodes[at], h));
        }
    }
    assert forall|i: int, j: int, h: Hid| 0 <= i < j < m.nodes.len() implies !(
    #[trigger] stands_for(m.nodes[i], h) && #[trigger] stands_for(m.nodes[j], h)) by {
        if stands_for(m.nodes[i], h) && stands_for(m.nodes[j], h) {
            assert(m.nodes[i] == l.nodes[i]);
            assert(stands_for(l.nodes[i], h));
            if j < at {
                assert(m.nodes[j] == l.nodes[j]);
                assert(stands_for(l.nodes[j], h));
            }
        }
    }
    assert forall|i: int, h: Hid|
        0 <= i < m.nodes.len() && #[trigger] stands_for(m.nodes[i], h) implies m.entry.contains_key(
        h,
    ) by {
        if i < at {
            assert(m.nodes[i] == l.nodes[i]);
            assert(stands_for(l.nodes[i], h));
        }
    }
}

/// Adding a cluster for a header that belongs where it is put, and the node of the
/// header if it decides.
proof fn lemma_cluster(
    ix: IndexView,
    show: bool,
    l: Layout,
    o: Seq<Hid>,
    m: Layout,
    hid: Hid,
    parent: Option<ClusterId>,
)
    requires
        settled(ix, show, l, o),
        !l.entry.contains_key(hid),
        l.clusters.len() < u32::MAX,
        belongs(ix, l.nodes, o, hid, parent),
        m.clusters == l.clusters.push(
            ClusterView { id: l.next_cluster(), label: ix.header(hid)->0.title, parent },
        ),
        ix.header(hid) is Some,
        has_children(ix, hid),
        decides(ix, hid) || !has_lone_child(ix, hid) || parent is None,
        decides(ix, hid) ==> {
            &&& m.nodes.len() == l.nodes.len() + 1
            &&& m.nodes == l.nodes.push(m.nodes.last())
            &&& m.nodes.last().kind matches KindView::Decision(h, _) && h == hid
            &&& m.nodes.last().cluster == Some(l.next_cluster())
            &&& m.entry.dom() == l.entry.dom().insert(hid)
        },
        !decides(ix, hid) ==> m.nodes == l.nodes && m.entry == l.entry,
        m.calls == l.calls,
        open_above(l, o, parent),
    ensures
        settled(ix, show, m, o.push(hid)),
        grown(l, o, m, o.push(hid)),
        open_above(m, o.push(hid), Some(l.next_cluster())),
        o.len() == l.clusters.len(),
{
    reveal(settled);
    reveal(open_above);
    let q = o.push(hid);
    let at = l.clusters.len() as int;
    let mid = Layout { clusters: m.clusters, ..l };
    let fresh = Layout { nodes: m.nodes, ..l };
    assert(l.clusters =~= m.clusters.subrange(0, at));
    assert(o =~= q.subrange(0, o.len() as int));
    assert(l.nodes =~= m.nodes.subrange(0, l.nodes.len() as int));
    assert(forall|h: Hid| #[trigger] l.entry.contains_key(h) ==> m.entry.contains_key(h)) by {
        assert forall|h: Hid| #[trigger] l.entry.contains_key(h) implies m.entry.contains_key(h) by {
            assert(l.entry.dom().contains(h));
        }
    }
    assert(grown(l, o, m, q));
    lemma_kept(ix, l, o, m, q);
    let top = l.nodes.len() as int;
    assert forall|i: int| 0 <= i < m.nodes.len() implies node_belongs(
        ix,
        show,
        m.nodes,
        q,
        #[trigger] m.nodes[i],
    ) by {
        if i < top {
            assert(m.nodes[i] == l.nodes[i]);
            assert(node_belongs(ix, show, l.nodes, o, l.nodes[i]));
            if let KindView::Decision(h, _) = l.nodes[i].kind {
                let k = l.nodes[i].cluster->0;
                assert(q[k@ as int] == o[k@ as int]);
            }
        } else {
            assert(m.nodes[i] == m.nodes.last());
            assert(q[at] == hid);
        }
    }
    assert forall|k: int| 0 <= k < m.clusters.len() implies cluster_belongs(
        ix,
        m.nodes,
        q,
        #[trigger] m.clusters[k],
        q[k],
    ) by {
        if k < at {
            assert(m.clusters[k] == l.clusters[k]);
            assert(cluster_belongs(ix, l.nodes, o, l.clusters[k], o[k]));
        } else {
            assert(q[k] == hid);
        }
    }
    assert forall|h: Hid| #[trigger] m.entry.contains_key(h) implies is_shown(
        ix,
        m.nodes,
        q,
        h,
    ) by {
        if l.entry.contains_key(h) {
            assert(is_shown(ix, l.nodes, o, h));
        } else {
            assert(m.entry.dom().contains(h));
            assert(stands_for(m.nodes[top], h));
        }
    }
    assert forall|j: int, k: int|
        0 <= j < k < q.len() && #[trigger] q[j] == #[trigger] q[k] implies !decides(ix, q[j])
        && invariants::inside(
        m.clusters,
        m.clusters[k].parent,
        Some(ClusterId::nth(j as nat)),
    ) by {
        let around = Some(ClusterId::nth(j as nat));
        if k < at {
            assert(o[j] == o[k]);
            assert(m.clusters[k] == l.clusters[k]);
            invariants::lemma_inside_kept(l.clusters, m.clusters, l.clusters[k].parent, around);
        } else {
            assert(o[j] == hid);
            if decides(ix, q[j]) {
                assert(l.entry.contains_key(o[j]));
            }
            assert(invariants::inside(l.clusters, parent, around));
            invariants::lemma_inside_kept(l.clusters, m.clusters, parent, around);
        }
    }
    assert forall|k: int| 0 <= k < q.len() && !m.entry.contains_key(#[trigger] q[k]) implies
        invariants::inside(
        m.clusters,
        Some(l.next_cluster()),
        Some(ClusterId::nth(k as nat)),
    ) by {
        let around = Some(ClusterId::nth(k as nat));
        if k < at {
            assert(q[k] == o[k]);
            assert(invariants::inside(l.clusters, parent, around));
            invariants::lemma_inside_kept(l.clusters, m.clusters, parent, around);
            assert(m.clusters[at].parent == parent);
        }
    }
    assert forall|i: int, j: int, h: Hid| 0 <= i < j < m.nodes.len() implies !(
    #[trigger] stands_for(m.nodes[i], h) && #[trigger] stands_for(m.nodes[j], h)) by {
        if stands_for(m.nodes[i], h) && stands_for(m.nodes[j], h) {
            assert(m.nodes[i] == l.nodes[i]);
            assert(stands_for(l.nodes[i], h));
            if j < top {
                assert(m.nodes[j] == l.nodes[j]);
                assert(stands_for(l.nodes[j], h));
            }
        }
    }
    assert forall|i: int, h: Hid|
        0 <= i < m.nodes.len() && #[trigger] stands_for(m.nodes[i], h) implies m.entry.contains_key(
        h,
    ) by {
        if i < top {
            assert(m.nodes[i] == l.nodes[i]);
            assert(stands_for(l.nodes[i], h));
        } else {
            assert(m.entry.dom().contains(hid));
        }
    }
    assert forall|k: int|
        0 <= k < q.len() && decides(ix, #[trigger] q[k]) implies m.entry.contains_key(q[k]) by {
        if k < at {
            assert(q[k] == o[k]);
        } else {
            assert(m.entry.dom().contains(hid));
        }
    }
}

proof fn lemma_calls(
    ix: IndexView,
    show: bool,
    l: Layout,
    o: Seq<Hid>,
    hid: Hid,
    callees: Seq<Seq<char>>,
    rep: NodeId,
    cluster: Option<ClusterId>,
)
    requires
        show,
        settled(ix, show, l, o),
        calls_belong(ix, l.nodes, hid, cluster) || forall|i: int|
            0 <= i < callees.len() ==> l.calls.contains_key((hid, #[trigger] callees[i])),
        forall|i: int| 0 <= i < callees.len() ==> ix.calls(hid).contains(#[trigger] callees[i]),
        model::place_calls(l, hid, callees, rep, cluster) is Some,
    ensures
        settled(ix, show, model::place_calls(l, hid, callees, rep, cluster)->0, o),
        grown(l, o, model::place_calls(l, hid, callees, rep, cluster)->0, o),
        forall|i: int|
            0 <= i < callees.len() ==> model::place_calls(
                l,
                hid,
                callees,
                rep,
                cluster,
            )->0.calls.contains_key((hid, #[trigger] callees[i])),
    decreases callees.len(),
{
    if callees.len() == 0 {
        lemma_alike(ix, show, l, o, l);
    } else {
        let callee = callees[0];
        let rest = callees.drop_first();
        let n = model::place_call(l, hid, callee, rep, cluster)->0;
        assert(ix.calls(hid).contains(callees[0]));
        if l.calls.contains_key((hid, callee)) {
            lemma_alike(ix, show, l, o, n);
        } else {
            if !calls_belong(ix, l.nodes, hid, cluster) {
                assert(l.calls.contains_key((hid, callees[0])));
            }
            let node = NodeView {
                id: l.next_node(),
                label: callee,
                kind: KindView::Call { header: hid, callee },
                cluster,
            };
            assert(calls_belong(ix, n.nodes, hid, cluster)) by {
                let m = Layout { nodes: n.nodes, ..l };
                assert(l.nodes =~= n.nodes.subrange(0, l.nodes.len() as int));
                assert(l.clusters =~= l.clusters.subrange(0, l.clusters.len() as int));
                assert(o =~= o.subrange(0, o.len() as int));
                lemma_kept(ix, l, o, m, o);
            }
            lemma_node(ix, show, l, o, n, node);
        }
        lemma_kept(ix, l, o, n, o);
        assert forall|i: int| 0 <= i < rest.len() implies ix.calls(hid).contains(
            #[trigger] rest[i],
        ) by {
            assert(rest[i] == callees[i + 1]);
        }
        if !calls_belong(ix, l.nodes, hid, cluster) {
            assert forall|i: int| 0 <= i < rest.len() implies n.calls.contains_key(
                (hid, #[trigger] rest[i]),
            ) by {
                assert(l.calls.contains_key((hid, callees[i + 1])));
            }
        }
        lemma_calls(ix, show, n, o, hid, rest, rep, cluster);
        let m = model::place_calls(n, hid, rest, rep, cluster)->0;
        lemma_grown_chain(l, o, n, o, m, o);
        assert forall|i: int| 0 <= i < callees.len() implies m.calls.contains_key(
            (hid, #[trigger] callees[i]),
        ) by {
            if i > 0 {
                assert(m.calls.contains_key((hid, rest[i - 1])));
            } else {
                assert(n.calls.contains_key((hid, callee)));
            }
        }
    }
}

proof fn lemma_show_calls(
    ix: IndexView,
    show: bool,
    l: Layout,
    o: Seq<Hid>,
    hid: Hid,
    rep: NodeId,
    cluster: Option<ClusterId>,
)
    requires
        settled(ix, show, l, o),
        calls_belong(ix, l.nodes, hid, cluster),
        calls_known(ix, show, l, Some(hid)),
        model::show_calls(ix, show, l, hid, rep, cluster) is Some,
    ensures
        settled(ix, show, model::show_calls(ix, show, l, hid, rep, cluster)->0, o),
        grown(l, o, model::show_calls(ix, show, l, hid, rep, cluster)->0, o),
        calls_known(ix, show, model::show_calls(ix, show, l, hid, rep, cluster)->0, None),
        model::show_calls(ix, show, l, hid, rep, cluster)->0.entry == l.entry,
{
    reveal(calls_known);
    if show {
        let callees = ix.calls(hid);
        assert forall|i: int| 0 <= i < callees.len() implies ix.calls(hid).contains(
            #[trigger] callees[i],
        ) by {}
        lemma_calls(ix, show, l, o, hid, callees, rep, cluster);
        memory::lemma_calls(l, hid, callees, rep, cluster);
    } else {
        lemma_alike(ix, show, l, o, l);
    }
}

proof fn lemma_calls_of_all(
    ix: IndexView,
    show: bool,
    l: Layout,
    o: Seq<Hid>,
    hids: Seq<Hid>,
    cluster: Option<ClusterId>,
)
    requires
        show,
        settled(ix, show, l, o),
        calls_known(ix, show, l, None),
        l.all_entered(hids),
        forall|i: int|
            0 <= i < hids.len() ==> calls_belong(ix, l.nodes, #[trigger] hids[i], cluster)
                || !has_children(ix, hids[i]) || decides(ix, hids[i]),
        model::show_calls_of_all(ix, l, hids, cluster) is Some,
    ensures
        settled(ix, show, model::show_calls_of_all(ix, l, hids, cluster)->0, o),
        grown(l, o, model::show_calls_of_all(ix, l, hids, cluster)->0, o),
        calls_known(ix, show, model::show_calls_of_all(ix, l, hids, cluster)->0, None),
        model::show_calls_of_all(ix, l, hids, cluster)->0.entry == l.entry,
    decreases hids.len(),
{
    reveal(calls_known);
    if hids.len() == 0 {
        lemma_alike(ix, show, l, o, l);
    } else {
        let (hid, rest) = (hids[0], hids.drop_first());
        let rep = l.entry[hid];
        let callees = ix.calls(hid);
        assert(l.entry.contains_key(hids[0]));
        if !calls_belong(ix, l.nodes, hids[0], cluster) {
            assert forall|i: int| 0 <= i < callees.len() implies l.calls.contains_key(
                (hid, #[trigger] callees[i]),
            ) by {
                assert(l.calls.contains_key((hid, ix.calls(hid)[i])));
            }
        }
        assert forall|i: int| 0 <= i < callees.len() implies ix.calls(hid).contains(
            #[trigger] callees[i],
        ) by {}
        lemma_calls(ix, show, l, o, hid, callees, rep, cluster);
        memory::lemma_calls(l, hid, callees, rep, cluster);
        let n = model::place_calls(l, hid, ix.calls(hid), rep, cluster)->0;
        lemma_kept(ix, l, o, n, o);
        assert forall|i: int| 0 <= i < rest.len() implies calls_belong(
            ix,
            n.nodes,
            #[trigger] rest[i],
            cluster,
        ) || !has_children(ix, rest[i]) || decides(ix, rest[i]) by {
            assert(rest[i] == hids[i + 1]);
            let g = hids[i + 1];
            assert(calls_belong(ix, l.nodes, hids[i + 1], cluster) || !has_children(ix, g)
                || decides(ix, g));
        }
        assert forall|i: int| 0 <= i < rest.len() implies n.entry.contains_key(
            #[trigger] rest[i],
        ) by {
            assert(rest[i] == hids[i + 1]);
        }
        lemma_calls_of_all(ix, show, n, o, rest, cluster);
        lemma_grown_chain(l, o, n, o, model::show_calls_of_all(ix, n, rest, cluster)->0, o);
    }
}

/// Whether headers belong into a place.
spec fn all_belong(
    ix: IndexView,
    l: Layout,
    o: Seq<Hid>,
    hids: Seq<Hid>,
    place: Option<ClusterId>,
) -> bool {
    forall|i: int| 0 <= i < hids.len() ==> belongs(ix, l.nodes, o, #[trigger] hids[i], place)
}

/// Whether the items of a scope belong into a place.
spec fn items_belong(
    ix: IndexView,
    l: Layout,
    o: Seq<Hid>,
    scope: ScopeId,
    place: Option<ClusterId>,
) -> bool {
    all_belong(ix, l, o, ix.scope_items(scope), place)
}

proof fn lemma_all_kept(
    ix: IndexView,
    l: Layout,
    o: Seq<Hid>,
    m: Layout,
    q: Seq<Hid>,
    hids: Seq<Hid>,
    place: Option<ClusterId>,
)
    requires
        grown(l, o, m, q),
        all_belong(ix, l, o, hids, place),
    ensures
        all_belong(ix, m, q, hids, place),
{
    lemma_kept(ix, l, o, m, q);
    assert forall|i: int| 0 <= i < hids.len() implies belongs(
        ix,
        m.nodes,
        q,
        #[trigger] hids[i],
        place,
    ) by {
        assert(belongs(ix, l.nodes, o, hids[i], place));
    }
}

/// Whether what stands below a header belongs into a place.
spec fn children_belong(
    ix: IndexView,
    l: Layout,
    o: Seq<Hid>,
    hid: Hid,
    place: Option<ClusterId>,
) -> bool {
    forall|c: Hid| #[trigger] hangs_from(ix, hid, c) ==> belongs(ix, l.nodes, o, c, place)
}

proof fn lemma_children(
    ix: IndexView,
    l: Layout,
    o: Seq<Hid>,
    hid: Hid,
    place: Option<ClusterId>,
)
    requires
        children_belong(ix, l, o, hid, place),
    ensures
        all_belong(ix, l, o, ix.md_children(hid), place),
        all_belong(ix, l, o, ix.nested_children(hid), place),
        all_belong(ix, l, o, model::children(ix, hid), place),
        forall|i: int|
            0 <= i < ix.nested_children(hid).len() ==> items_belong(
                ix,
                l,
                o,
                ix.scope_of(#[trigger] ix.nested_children(hid)[i]),
                place,
            ),
{
    let md = ix.md_children(hid);
    let nested = ix.nested_children(hid);
    let all = model::children(ix, hid);
    assert forall|i: int| 0 <= i < md.len() implies belongs(
        ix,
        l.nodes,
        o,
        #[trigger] md[i],
        place,
    ) by {
        assert(md.contains(md[i]));
        assert(hangs_from(ix, hid, md[i]));
    }
    assert forall|i: int| 0 <= i < nested.len() implies belongs(
        ix,
        l.nodes,
        o,
        #[trigger] nested[i],
        place,
    ) by {
        assert(nested.contains(nested[i]));
        assert(hangs_from(ix, hid, nested[i]));
    }
    assert forall|i: int| 0 <= i < all.len() implies belongs(
        ix,
        l.nodes,
        o,
        #[trigger] all[i],
        place,
    ) by {
        merge::lemma_merged_member(merge::spans_of(ix), md, nested, i);
        assert(hangs_from(ix, hid, all[i]));
    }
    assert forall|i: int| 0 <= i < nested.len() implies items_belong(
        ix,
        l,
        o,
        ix.scope_of(#[trigger] nested[i]),
        place,
    ) by {
        let items = ix.scope_items(ix.scope_of(nested[i]));
        assert(nested.contains(nested[i]));
        assert forall|k: int| 0 <= k < items.len() implies belongs(
            ix,
            l.nodes,
            o,
            #[trigger] items[k],
            place,
        ) by {
            assert(items.contains(items[k]));
            assert(hangs_from(ix, hid, items[k]));
        }
    }
}

proof fn lemma_header(
    ix: IndexView,
    show: bool,
    l: Layout,
    o: Seq<Hid>,
    hid: Hid,
    parent: Option<ClusterId>,
    f: nat,
) -> (q: Seq<Hid>)
    requires
        ready(ix, show, l, o, parent),
        belongs(ix, l.nodes, o, hid, parent),
        model::place_header(ix, show, l, hid, parent, f) is Some,
    ensures
        step(ix, show, l, o, model::place_header(ix, show, l, hid, parent, f)->0.layout, q),
        model::place_header(ix, show, l, hid, parent, f)->0.layout.entry.contains_key(hid),
    decreases f, 2nat, 0nat,
{
    let p = model::place_header(ix, show, l, hid, parent, f)->0;
    if l.entry.contains_key(hid) {
        lemma_step_alike(ix, show, l, o, l);
        o
    } else {
        let h = ix.header(hid)->0;
        let md = ix.md_children(hid);
        let nested = ix.nested_children(hid);
        let below = (f - 1) as nat;
        let node = l.next_node();
        match model::shape(ix, hid, parent) {
            Shape::Leaf => {
                lemma_leaf(ix, show, l, o, hid, parent);
                o
            },
            Shape::Branch => lemma_branch(ix, show, l, o, hid, parent, f),
            Shape::Flat => {
                let l1 = l.place_node(h, hid, false, parent)->0;
                lemma_header_node(ix, show, l, o, hid, parent);
                lemma_calls_still_known(ix, show, l, l1, hid);
                lemma_open_still(l, o, l1, parent);
                lemma_kept(ix, l, o, l1, o);
                assert(children_belong(ix, l1, o, hid, parent)) by {
                    let at = l.nodes.len() as int;
                    assert forall|c: Hid| #[trigger] hangs_from(ix, hid, c) implies belongs(
                        ix,
                        l1.nodes,
                        o,
                        c,
                        parent,
                    ) by {
                        assert(leads_in_line(ix, l1.nodes[at], parent->0, c));
                    }
                }
                lemma_children(ix, l1, o, hid, parent);
                let (l2, q) = if md.len() == 1 {
                    let q = lemma_headers(ix, show, l1, o, md, parent, below);
                    (model::place_headers(ix, show, l1, md, parent, below)->0, q)
                } else {
                    let q = lemma_branches(ix, show, l1, o, nested, parent, below);
                    (model::place_branches(ix, show, l1, nested, parent, below)->0, q)
                };
                lemma_grown_chain(l, o, l1, o, l2, q);
                lemma_step_alike(ix, show, l2, q, p.layout);
                lemma_grown_chain(l, o, l2, q, p.layout, q);
                lemma_closed_chain(l2, p.layout, o, q, q);
                assert(l1.entry.contains_key(hid));
                q
            },
            Shape::Container => {
                let cluster = l.next_cluster();
                let at = Some(cluster);
                let all = model::children(ix, hid);
                let list = model::scopes_of(ix, nested);
                let l1 = l.add_cluster(h.title, parent)->0;
                let q = o.push(hid);
                lemma_cluster(ix, show, l, o, l1, hid, parent);
                assert(calls_known(ix, show, l1, None)) by {
                    reveal(calls_known);
                }
                assert(children_belong(ix, l1, q, hid, at)) by {
                    assert(q[l.clusters.len() as int] == hid);
                }
                lemma_children(ix, l1, q, hid, at);
                assert forall|i: int| 0 <= i < list.len() implies items_belong(
                    ix,
                    l1,
                    q,
                    #[trigger] list[i],
                    at,
                ) by {
                    assert(list[i] == ix.scope_of(nested[i]));
                }
                let r = lemma_scopes(ix, show, l1, q, list, at, below);
                let l2 = model::place_scopes(ix, show, l1, list, at, below)->0;
                lemma_step_on(ix, show, l1, q, l2, r, at);
                lemma_all_kept(ix, l1, q, l2, r, all, at);
                let s = lemma_headers(ix, show, l2, r, all, at, below);
                let l3 = model::place_headers(ix, show, l2, all, at, below)->0;
                lemma_step_chain(ix, show, l1, q, l2, r, l3, s);
                lemma_grown_chain(l, o, l1, q, l3, s);
                let from = model::leaves_by(ix, l3, nested, all[0]);
                memory::lemma_chain(ix, l3, nested, all.drop_first(), from);
                assert(q[l.clusters.len() as int] == hid);
                assert(s[l.clusters.len() as int] == hid);
                assert(p.layout.entry.dom() =~= l3.entry.dom().insert(hid));
                lemma_entered(ix, show, l3, s, p.layout, hid);
                lemma_grown_chain(l, o, l3, s, p.layout, s);
                assert(closed_since(p.layout, o, s)) by {
                    reveal(closed_since);
                    reveal(settled);
                    assert forall|k: int| o.len() <= k < s.len() implies p.layout.entry.contains_key(
                        #[trigger] s[k],
                    ) by {
                        if k > o.len() {
                            assert(l3.entry.contains_key(s[k]));
                        } else {
                            assert(s[k] == hid);
                        }
                    }
                }
                s
            },
        }
    }
}

/// Entering a header that shows no calls of its own.
proof fn lemma_calls_still_known(ix: IndexView, show: bool, l: Layout, m: Layout, hid: Hid)
    requires
        calls_known(ix, show, l, None),
        has_children(ix, hid),
        !decides(ix, hid),
        forall|h: Hid| #[trigger] m.entry.contains_key(h) && h != hid ==> l.entry.contains_key(h),
        m.calls == l.calls,
    ensures
        calls_known(ix, show, m, None),
{
    reveal(calls_known);
}

proof fn lemma_open_still(l: Layout, o: Seq<Hid>, m: Layout, place: Option<ClusterId>)
    requires
        open_above(l, o, place),
        m.clusters == l.clusters,
        forall|h: Hid| #[trigger] l.entry.contains_key(h) ==> m.entry.contains_key(h),
    ensures
        open_above(m, o, place),
{
    reveal(open_above);
}

proof fn lemma_leaf(
    ix: IndexView,
    show: bool,
    l: Layout,
    o: Seq<Hid>,
    hid: Hid,
    parent: Option<ClusterId>,
)
    requires
        ready(ix, show, l, o, parent),
        belongs(ix, l.nodes, o, hid, parent),
        !l.entry.contains_key(hid),
        !has_children(ix, hid),
        model::place_leaf(ix, show, l, hid, parent) is Some,
    ensures
        step(ix, show, l, o, model::place_leaf(ix, show, l, hid, parent)->0.layout, o),
        model::place_leaf(ix, show, l, hid, parent)->0.layout.entry.contains_key(hid),
{
    let node = l.next_node();
    let m = model::place_leaf(ix, show, l, hid, parent)->0.layout;
    let l1 = l.place_node(ix.header(hid)->0, hid, false, parent)->0;
    lemma_header_node(ix, show, l, o, hid, parent);
    let l2 = l1.set_exits(hid, seq![node]);
    lemma_alike(ix, show, l1, o, l2);
    assert(is_beside(ix, l2.nodes[l.nodes.len() as int], hid, parent));
    assert(calls_known(ix, show, l2, Some(hid))) by {
        reveal(calls_known);
    }
    lemma_show_calls(ix, show, l2, o, hid, node, parent);
    lemma_grown_chain(l, o, l1, o, l2, o);
    lemma_grown_chain(l, o, l2, o, m, o);
    assert(closed_since(m, o, o)) by {
        reveal(closed_since);
    }
}

proof fn lemma_branch(
    ix: IndexView,
    show: bool,
    l: Layout,
    o: Seq<Hid>,
    hid: Hid,
    parent: Option<ClusterId>,
    f: nat,
) -> (s: Seq<Hid>)
    requires
        ready(ix, show, l, o, parent),
        belongs(ix, l.nodes, o, hid, parent),
        !l.entry.contains_key(hid),
        decides(ix, hid),
        model::place_branch(ix, show, l, hid, parent, f) is Some,
    ensures
        step(ix, show, l, o, model::place_branch(ix, show, l, hid, parent, f)->0.layout, s),
        model::place_branch(ix, show, l, hid, parent, f)->0.layout.entry.contains_key(hid),
    decreases f, 1nat, 0nat,
{
    let p = model::place_branch(ix, show, l, hid, parent, f)->0;
    let h = ix.header(hid)->0;
    let md = ix.md_children(hid);
    let nested = ix.nested_children(hid);
    let below = (f - 1) as nat;
    let node = l.next_node();
    let cluster = l.next_cluster();
    let at = Some(cluster);
    let d = l.nodes.len() as int;
    let l1 = l.add_cluster(h.title, parent)->0;
    let l2 = l1.place_node(h, hid, true, at)->0;
    let q = o.push(hid);
    assert(l2.entry.dom() =~= l.entry.dom().insert(hid));
    lemma_cluster(ix, show, l, o, l2, hid, parent);
    assert(is_beside(ix, l2.nodes[d], hid, at));
    assert(calls_known(ix, show, l2, Some(hid))) by {
        reveal(calls_known);
    }
    lemma_show_calls(ix, show, l2, q, hid, node, at);
    let l3 = model::show_calls(ix, show, l2, hid, node, at)->0;
    memory::lemma_calls(l2, hid, ix.calls(hid), node, at);
    lemma_open_still(l2, q, l3, at);
    lemma_grown_chain(l, o, l2, q, l3, q);
    assert(l3.nodes[d] == l2.nodes[d]);
    assert(children_belong(ix, l3, q, hid, at)) by {
        assert(q[l.clusters.len() as int] == hid);
    }
    lemma_children(ix, l3, q, hid, at);
    let r = lemma_branches(ix, show, l3, q, nested, at, below);
    let l4 = model::place_branches(ix, show, l3, nested, at, below)->0;
    lemma_step_on(ix, show, l3, q, l4, r, at);
    lemma_all_kept(ix, l3, q, l4, r, md, at);
    let s = lemma_headers(ix, show, l4, r, md, at, below);
    let l5 = model::place_headers(ix, show, l4, md, at, below)->0;
    lemma_step_chain(ix, show, l3, q, l4, r, l5, s);
    let linked = l5.link(model::edges_out_of(node, l5.entries(nested)));
    lemma_step_alike(ix, show, l5, s, linked);
    lemma_step_chain(ix, show, l3, q, l5, s, linked, s);
    assert(linked.nodes[d] == l3.nodes[d]);
    assert forall|i: int| 0 <= i < nested.len() implies calls_belong(
        ix,
        linked.nodes,
        #[trigger] nested[i],
        at,
    ) || !has_children(ix, nested[i]) || decides(ix, nested[i]) by {
        assert(nested.contains(nested[i]));
        assert(branches_beside(ix, linked.nodes[d], nested[i], at));
    }
    assert(linked.all_entered(nested)) by {
        assert forall|i: int| 0 <= i < nested.len() implies linked.entry.contains_key(
            #[trigger] nested[i],
        ) by {
            assert(l4.entry.contains_key(nested[i]));
        }
    }
    let m = if show {
        lemma_calls_of_all(ix, show, linked, s, nested, at);
        model::show_calls_of_all(ix, linked, nested, at)->0
    } else {
        lemma_step_alike(ix, show, linked, s, linked);
        linked
    };
    if show {
        memory::lemma_calls_of_all(ix, linked, nested, at);
    }
    assert(step(ix, show, linked, s, m, s)) by {
        reveal(closed_since);
    }
    lemma_step_chain(ix, show, l3, q, linked, s, m, s);
    lemma_step_alike(ix, show, m, s, p.layout);
    lemma_step_chain(ix, show, l3, q, m, s, p.layout, s);
    lemma_grown_chain(l, o, l3, q, p.layout, s);
    assert(l2.entry.contains_key(hid));
    assert(l3.entry.contains_key(hid));
    assert(closed_since(p.layout, o, s)) by {
        reveal(closed_since);
        assert forall|k: int| o.len() <= k < s.len() implies p.layout.entry.contains_key(
            #[trigger] s[k],
        ) by {
            if k == o.len() {
                assert(s[k] == q[k]);
            }
        }
    }
    s
}

/// Entering a header at the cluster that it opened.
proof fn lemma_entered(
    ix: IndexView,
    show: bool,
    l: Layout,
    o: Seq<Hid>,
    m: Layout,
    hid: Hid,
)
    requires
        settled(ix, show, l, o),
        !decides(ix, hid),
        o.contains(hid),
        m.nodes == l.nodes,
        m.clusters == l.clusters,
        m.entry.dom() == l.entry.dom().insert(hid),
        m.calls == l.calls,
        has_children(ix, hid),
        calls_known(ix, show, l, None),
    ensures
        settled(ix, show, m, o),
        calls_known(ix, show, m, None),
        grown(l, o, m, o),
{
    reveal(settled);
    reveal(calls_known);
    assert forall|h: Hid| #[trigger] l.entry.contains_key(h) implies m.entry.contains_key(h) by {
        assert(m.entry.dom().contains(h));
    }
    lemma_grown_same(l, o, m);
    assert forall|h: Hid| #[trigger] m.entry.contains_key(h) implies is_shown(
        ix,
        m.nodes,
        o,
        h,
    ) by {
        assert(m.entry.dom().contains(h));
        if h != hid {
            assert(l.entry.contains_key(h));
        }
    }
    assert forall|i: int, h: Hid|
        0 <= i < m.nodes.len() && #[trigger] stands_for(m.nodes[i], h) implies m.entry.contains_key(
        h,
    ) by {
        assert(stands_for(l.nodes[i], h));
        assert(l.entry.contains_key(h));
    }
    assert forall|k: int|
        0 <= k < o.len() && decides(ix, #[trigger] o[k]) implies m.entry.contains_key(o[k]) by {
        assert(l.entry.contains_key(o[k]));
    }
}

proof fn lemma_header_node(
    ix: IndexView,
    show: bool,
    l: Layout,
    o: Seq<Hid>,
    hid: Hid,
    parent: Option<ClusterId>,
)
    requires
        settled(ix, show, l, o),
        belongs(ix, l.nodes, o, hid, parent),
        !l.entry.contains_key(hid),
        has_children(ix, hid) ==> !decides(ix, hid) && has_lone_child(ix, hid) && parent is Some,
        l.place_node(ix.header(hid)->0, hid, false, parent) is Some,
    ensures
        settled(ix, show, l.place_node(ix.header(hid)->0, hid, false, parent)->0, o),
        grown(l, o, l.place_node(ix.header(hid)->0, hid, false, parent)->0, o),
{
    let h = ix.header(hid)->0;
    let m = l.place_node(h, hid, false, parent)->0;
    let node = NodeView {
        id: l.next_node(),
        label: h.title,
        kind: KindView::Header(hid, Some(h.span)),
        cluster: parent,
    };
    assert(belongs(ix, m.nodes, o, hid, parent)) by {
        let n = Layout { nodes: m.nodes, ..l };
        assert(l.nodes =~= m.nodes.subrange(0, l.nodes.len() as int));
        assert(l.clusters =~= l.clusters.subrange(0, l.clusters.len() as int));
        assert(o =~= o.subrange(0, o.len() as int));
        lemma_kept(ix, l, o, n, o);
    }
    lemma_node(ix, show, l, o, m, node);
}

proof fn lemma_headers(
    ix: IndexView,
    show: bool,
    l: Layout,
    o: Seq<Hid>,
    hids: Seq<Hid>,
    parent: Option<ClusterId>,
    f: nat,
) -> (q: Seq<Hid>)
    requires
        ready(ix, show, l, o, parent),
        all_belong(ix, l, o, hids, parent),
        model::place_headers(ix, show, l, hids, parent, f) is Some,
    ensures
        step(ix, show, l, o, model::place_headers(ix, show, l, hids, parent, f)->0, q),
    decreases f, 3nat, hids.len(),
{
    if hids.len() == 0 {
        lemma_step_alike(ix, show, l, o, l);
        o
    } else {
        let rest = hids.drop_first();
        assert(belongs(ix, l.nodes, o, hids[0], parent));
        let q = lemma_header(ix, show, l, o, hids[0], parent, f);
        let n = model::place_header(ix, show, l, hids[0], parent, f)->0.layout;
        lemma_step_on(ix, show, l, o, n, q, parent);
        lemma_all_kept(ix, l, o, n, q, hids, parent);
        assert forall|i: int| 0 <= i < rest.len() implies belongs(
            ix,
            n.nodes,
            q,
            #[trigger] rest[i],
            parent,
        ) by {
            assert(belongs(ix, n.nodes, q, hids[i + 1], parent));
        }
        let r = lemma_headers(ix, show, n, q, rest, parent, f);
        lemma_step_chain(
            ix,
            show,
            l,
            o,
            n,
            q,
            model::place_headers(ix, show, n, rest, parent, f)->0,
            r,
        );
        r
    }
}

proof fn lemma_items(
    ix: IndexView,
    show: bool,
    l: Layout,
    o: Seq<Hid>,
    items: Seq<Hid>,
    prev: Seq<NodeId>,
    parent: Option<ClusterId>,
    f: nat,
) -> (q: Seq<Hid>)
    requires
        ready(ix, show, l, o, parent),
        all_belong(ix, l, o, items, parent),
        model::place_items(ix, show, l, items, prev, parent, f) is Some,
    ensures
        step(ix, show, l, o, model::place_items(ix, show, l, items, prev, parent, f)->0, q),
    decreases f, 3nat, items.len(),
{
    if items.len() == 0 {
        lemma_step_alike(ix, show, l, o, l);
        o
    } else {
        let rest = items.drop_first();
        assert(belongs(ix, l.nodes, o, items[0], parent));
        let q = lemma_header(ix, show, l, o, items[0], parent, f);
        let p = model::place_header(ix, show, l, items[0], parent, f)->0;
        let n = p.layout.link(model::edges_into(prev, p.entry));
        lemma_step_alike(ix, show, p.layout, q, n);
        lemma_step_chain(ix, show, l, o, p.layout, q, n, q);
        lemma_step_on(ix, show, l, o, n, q, parent);
        lemma_all_kept(ix, l, o, n, q, items, parent);
        assert forall|i: int| 0 <= i < rest.len() implies belongs(
            ix,
            n.nodes,
            q,
            #[trigger] rest[i],
            parent,
        ) by {
            assert(belongs(ix, n.nodes, q, items[i + 1], parent));
        }
        let r = lemma_items(ix, show, n, q, rest, p.exits, parent, f);
        lemma_step_chain(
            ix,
            show,
            l,
            o,
            n,
            q,
            model::place_items(ix, show, n, rest, p.exits, parent, f)->0,
            r,
        );
        r
    }
}

proof fn lemma_scope(
    ix: IndexView,
    show: bool,
    l: Layout,
    o: Seq<Hid>,
    scope: ScopeId,
    parent: Option<ClusterId>,
    f: nat,
) -> (q: Seq<Hid>)
    requires
        ready(ix, show, l, o, parent),
        items_belong(ix, l, o, scope, parent),
        model::place_scope(ix, show, l, scope, parent, f) is Some,
    ensures
        step(ix, show, l, o, model::place_scope(ix, show, l, scope, parent, f)->0, q),
    decreases f, 4nat, 0nat,
{
    if l.visited.contains(scope) {
        lemma_step_alike(ix, show, l, o, l);
        o
    } else {
        let v = l.visit(scope);
        let items = ix.scope_items(scope);
        lemma_step_alike(ix, show, l, o, v);
        lemma_step_on(ix, show, l, o, v, o, parent);
        lemma_all_kept(ix, l, o, v, o, items, parent);
        let q = lemma_items(ix, show, v, o, items, seq![], parent, f);
        let m = model::place_items(ix, show, v, items, seq![], parent, f)->0;
        lemma_step_chain(ix, show, l, o, v, o, m, q);
        q
    }
}

proof fn lemma_scopes(
    ix: IndexView,
    show: bool,
    l: Layout,
    o: Seq<Hid>,
    scopes: Seq<ScopeId>,
    parent: Option<ClusterId>,
    f: nat,
) -> (q: Seq<Hid>)
    requires
        ready(ix, show, l, o, parent),
        forall|i: int|
            0 <= i < scopes.len() ==> items_belong(ix, l, o, #[trigger] scopes[i], parent),
        model::place_scopes(ix, show, l, scopes, parent, f) is Some,
    ensures
        step(ix, show, l, o, model::place_scopes(ix, show, l, scopes, parent, f)->0, q),
    decreases f, 5nat, scopes.len(),
{
    if scopes.len() == 0 {
        lemma_step_alike(ix, show, l, o, l);
        o
    } else {
        let rest = scopes.drop_first();
        assert(items_belong(ix, l, o, scopes[0], parent));
        let q = lemma_scope(ix, show, l, o, scopes[0], parent, f);
        let n = model::place_scope(ix, show, l, scopes[0], parent, f)->0;
        lemma_step_on(ix, show, l, o, n, q, parent);
        assert forall|i: int| 0 <= i < rest.len() implies items_belong(
            ix,
            n,
            q,
            #[trigger] rest[i],
            parent,
        ) by {
            assert(items_belong(ix, l, o, scopes[i + 1], parent));
            lemma_all_kept(ix, l, o, n, q, ix.scope_items(scopes[i + 1]), parent);
        }
        let r = lemma_scopes(ix, show, n, q, rest, parent, f);
        lemma_step_chain(
            ix,
            show,
            l,
            o,
            n,
            q,
            model::place_scopes(ix, show, n, rest, parent, f)->0,
            r,
        );
        r
    }
}

proof fn lemma_branches(
    ix: IndexView,
    show: bool,
    l: Layout,
    o: Seq<Hid>,
    nested: Seq<Hid>,
    parent: Option<ClusterId>,
    f: nat,
) -> (q: Seq<Hid>)
    requires
        ready(ix, show, l, o, parent),
        all_belong(ix, l, o, nested, parent),
        forall|i: int|
            0 <= i < nested.len() ==> items_belong(
                ix,
                l,
                o,
                ix.scope_of(#[trigger] nested[i]),
                parent,
            ),
        model::place_branches(ix, show, l, nested, parent, f) is Some,
    ensures
        step(ix, show, l, o, model::place_branches(ix, show, l, nested, parent, f)->0, q),
        model::place_branches(ix, show, l, nested, parent, f)->0.all_entered(nested),
    decreases f, 5nat, nested.len(),
{
    if nested.len() == 0 {
        lemma_step_alike(ix, show, l, o, l);
        o
    } else {
        let rest = nested.drop_first();
        let scope = ix.scope_of(nested[0]);
        assert(belongs(ix, l.nodes, o, nested[0], parent));
        let q = lemma_scope(ix, show, l, o, scope, parent, f);
        let n = model::place_scope(ix, show, l, scope, parent, f)->0;
        lemma_step_on(ix, show, l, o, n, q, parent);
        lemma_kept(ix, l, o, n, q);
        let r = lemma_header(ix, show, n, q, nested[0], parent, f);
        let u = model::place_header(ix, show, n, nested[0], parent, f)->0.layout;
        lemma_step_chain(ix, show, l, o, n, q, u, r);
        lemma_step_on(ix, show, l, o, u, r, parent);
        lemma_all_kept(ix, l, o, u, r, nested, parent);
        assert forall|i: int| 0 <= i < rest.len() implies belongs(
            ix,
            u.nodes,
            r,
            #[trigger] rest[i],
            parent,
        ) by {
            assert(belongs(ix, u.nodes, r, nested[i + 1], parent));
        }
        assert forall|i: int| 0 <= i < rest.len() implies items_belong(
            ix,
            u,
            r,
            ix.scope_of(#[trigger] rest[i]),
            parent,
        ) by {
            let s = ix.scope_of(nested[i + 1]);
            assert(items_belong(ix, l, o, s, parent));
            lemma_all_kept(ix, l, o, u, r, ix.scope_items(s), parent);
        }
        let t = lemma_branches(ix, show, u, r, rest, parent, f);
        lemma_step_chain(
            ix,
            show,
            l,
            o,
            u,
            r,
            model::place_branches(ix, show, u, rest, parent, f)->0,
            t,
        );
        let m = model::place_branches(ix, show, l, nested, parent, f)->0;
        assert forall|i: int| 0 <= i < nested.len() implies m.entry.contains_key(
            #[trigger] nested[i],
        ) by {
            if i > 0 {
                assert(m.entry.contains_key(rest[i - 1]));
            } else {
                assert(u.entry.contains_key(nested[0]));
            }
        }
        t
    }
}

/// Everything stands where it belongs. A header stands in the cluster of a header
/// that it hangs from, or in line behind one; only items of top-level scopes stand
/// in no cluster. A decision stands in the cluster of its own header. A call stands
/// beside the node of its header, or beside a decision that branches to it. A
/// cluster is that of one header, with its title, and stands where that hangs.
pub proof fn everything_stands_where_it_belongs(ix: IndexView, show: bool) -> (openers: Seq<Hid>)
    requires
        model::has_layout(ix, show),
    ensures
        stands_where_it_belongs(ix, show, model::layout_of(ix, show), openers),
{
    let f = choose|f: nat| model::layout(ix, show, f) is Some;
    let l = Layout::empty();
    let scopes = tops::top_scopes(ix);
    let o = Seq::<Hid>::empty();
    assert forall|i: int| 0 <= i < scopes.len() implies items_belong(
        ix,
        l,
        o,
        #[trigger] scopes[i],
        None,
    ) by {
        let items = ix.scope_items(scopes[i]);
        assert(scopes.contains(scopes[i]));
        assert forall|k: int| 0 <= k < items.len() implies belongs(
            ix,
            l.nodes,
            o,
            #[trigger] items[k],
            None,
        ) by {
            assert(items.contains(items[k]));
        }
    }
    assert(ready(ix, show, l, o, None)) by {
        reveal(settled);
        reveal(calls_known);
        reveal(open_above);
    }
    let q = lemma_scopes(ix, show, l, o, scopes, None, f);
    reveal(settled);
    q
}

/// A call stands in the cluster of the node of its header, where that header has
/// no children or decides.
pub proof fn calls_stand_in_the_cluster_of_their_header(ix: IndexView, show: bool, i: int, j: int)
    requires
        model::has_layout(ix, show),
        0 <= i < model::layout_of(ix, show).nodes.len(),
        0 <= j < model::layout_of(ix, show).nodes.len(),
        model::layout_of(ix, show).nodes[i].kind is Call,
        ({
            let h = model::layout_of(ix, show).nodes[i].kind->header;
            &&& stands_for(model::layout_of(ix, show).nodes[j], h)
            &&& !has_children(ix, h) || decides(ix, h)
        }),
    ensures
        model::layout_of(ix, show).nodes[i].cluster == model::layout_of(ix, show).nodes[j].cluster,
{
    let l = model::layout_of(ix, show);
    let openers = everything_stands_where_it_belongs(ix, show);
    let h = l.nodes[i].kind->header;
    assert(node_belongs(ix, show, l.nodes, openers, l.nodes[i]));
    let k = choose|k: int|
        0 <= k < l.nodes.len() && is_beside(ix, #[trigger] l.nodes[k], h, l.nodes[i].cluster);
    assert(stands_for(l.nodes[k], h));
    assert(stands_for(l.nodes[j], h));
}

/// Whether `p` is the only header that `c` hangs from.
pub open spec fn hangs_only_from(ix: IndexView, p: Hid, c: Hid) -> bool {
    &&& hangs_from(ix, p, c)
    &&& forall|x: Hid| #[trigger] hangs_from(ix, x, c) ==> x == p
    &&& forall|s: ScopeId| #[trigger]
        tops::top_scopes(ix).contains(s) ==> !ix.scope_items(s).contains(c)
}

proof fn lemma_md_hangs(ix: IndexView, p: Hid, c: Hid)
    requires
        laws::numbers_differ(ix),
        ix.md_children(p).contains(c),
        !ix.is_nested_target(c),
    ensures
        hangs_only_from(ix, p, c),
{
    laws::targets_are_children(ix, c);
    assert(ix.has_md_parent(c));
    assert forall|s: ScopeId| !#[trigger] ix.scope_items(s).contains(c) by {
        lemma_items_have_no_parent(ix, s, c);
    }
    assert forall|x: Hid| #[trigger] hangs_from(ix, x, c) implies x == p by {
        if ix.nested_children(x).contains(c) {
            assert(ix.is_nested_target(c));
        }
        assert(ix.md_children(x).contains(c));
        lemma_one_parent(ix, x, p, c);
    }
}

proof fn lemma_items_have_no_parent(ix: IndexView, s: ScopeId, c: Hid)
    ensures
        ix.scope_items(s).contains(c) ==> !ix.has_md_parent(c),
{
    if ix.scope_items(s).contains(c) {
        let found = ix.headers_in_scope(s);
        let free = |h: HeaderView| !ix.has_md_parent(h.hid);
        let kept = found.filter(free);
        let i = choose|i: int| 0 <= i < ix.scope_items(s).len() && ix.scope_items(s)[i] == c;
        assert(kept.contains(kept[i]));
        index::lemma_filter_member(found, free, kept[i]);
    }
}

/// Where headers have different numbers, a header has one parent in its scope.
proof fn lemma_one_parent(ix: IndexView, x: Hid, p: Hid, c: Hid)
    requires
        laws::numbers_differ(ix),
        ix.md_children(x).contains(c),
        ix.md_children(p).contains(c),
    ensures
        x == p,
{
    let i = lemma_md_header(ix, x, c);
    let j = lemma_md_header(ix, p, c);
    if i < j {
        assert(ix.headers[i].hid != ix.headers[j].hid);
    } else if j < i {
        assert(ix.headers[j].hid != ix.headers[i].hid);
    }
}

proof fn lemma_md_header(ix: IndexView, p: Hid, c: Hid) -> (i: int)
    requires
        ix.md_children(p).contains(c),
    ensures
        0 <= i < ix.headers.len(),
        ix.headers[i].hid == c,
        ix.md_parent(ix.headers[i]) == Some(p),
{
    let pred = |h: HeaderView| ix.md_parent(h) == Some(p);
    let kept = ix.headers.filter(pred);
    let k = choose|k: int| 0 <= k < ix.md_children(p).len() && ix.md_children(p)[k] == c;
    assert(kept.contains(kept[k]));
    index::lemma_filter_member(ix.headers, pred, kept[k]);
    choose|i: int| 0 <= i < ix.headers.len() && ix.headers[i] == kept[k]
}

/// Where every scope is entered once, at its first header, a header that opens a
/// scope and has no parent there hangs from the one whose nested edge leads to it.
proof fn lemma_nested_hangs(ix: IndexView, p: Hid, c: Hid)
    requires
        laws::numbers_differ(ix),
        trees::entered_once(ix),
        ix.nested_children(p).contains(c),
        !ix.has_md_parent(c),
    ensures
        hangs_only_from(ix, p, c),
{
    laws::targets_are_children(ix, c);
    let e = lemma_edge_of(ix, p, c);
    tops::top_scopes_are_sorted(ix);
    assert forall|s: ScopeId| #[trigger] tops::top_scopes(ix).contains(s) implies !ix.scope_items(
        s,
    ).contains(c) by {
        if ix.scope_items(s).contains(c) {
            laws::items_stand_in_their_scope(ix, s, c);
            assert(ix.scope_root(s) == c);
        }
    }
    assert forall|x: Hid| #[trigger] hangs_from(ix, x, c) implies x == p by {
        if ix.md_children(x).contains(c) {
            assert(ix.has_md_parent(c));
        }
        if !ix.nested_children(x).contains(c) {
            let n = choose|n: Hid| #[trigger]
                ix.nested_children(x).contains(n) && ix.scope_items(ix.scope_of(n)).contains(c);
            laws::items_stand_in_their_scope(ix, ix.scope_of(n), c);
            let g = lemma_edge_of(ix, x, n);
            assert(ix.scope_root(ix.scope_of(ix.scope_edges()[g].1)) == n);
            assert(ix.scope_root(ix.scope_of(ix.scope_edges()[e].1)) == c);
        }
        let g = lemma_edge_of(ix, x, c);
        if e < g {
            assert(ix.scope_edges()[e].1 != ix.scope_edges()[g].1);
        } else if g < e {
            assert(ix.scope_edges()[g].1 != ix.scope_edges()[e].1);
        }
    }
}

proof fn lemma_edge_of(ix: IndexView, p: Hid, c: Hid) -> (e: int)
    requires
        ix.nested_children(p).contains(c),
    ensures
        0 <= e < ix.scope_edges().len(),
        ix.scope_edges()[e] == (p, c),
{
    let es = ix.scope_edges();
    let kept = es.filter(index::starts_at(p));
    let i = choose|i: int| 0 <= i < ix.nested_children(p).len() && ix.nested_children(p)[i] == c;
    assert(kept.contains(kept[i]));
    index::lemma_filter_member(es, index::starts_at(p), kept[i]);
    choose|e: int| 0 <= e < es.len() && es[e] == kept[i]
}

/// Whether a header stands right in a cluster: as a node there, or with a cluster
/// of its own there.
pub open spec fn stands_in(l: Layout, openers: Seq<Hid>, c: Hid, cluster: ClusterId) -> bool {
    &&& forall|j: int|
        0 <= j < l.nodes.len() && #[trigger] stands_for(l.nodes[j], c) && l.nodes[j].kind is Header
            ==> l.nodes[j].cluster == Some(cluster)
    &&& forall|k: int|
        0 <= k < l.clusters.len() && #[trigger] openers[k] == c ==> l.clusters[k].parent == Some(
            cluster,
        )
}

/// What hangs only from a decision stands right in the cluster of the decision.
proof fn lemma_stands_in_decision(
    ix: IndexView,
    show: bool,
    l: Layout,
    openers: Seq<Hid>,
    i: int,
    c: Hid,
)
    requires
        stands_where_it_belongs(ix, show, l, openers),
        0 <= i < l.nodes.len(),
        l.nodes[i].kind is Decision,
        hangs_only_from(ix, l.nodes[i].kind->Decision_0, c),
    ensures
        l.nodes[i].cluster is Some,
        stands_in(l, openers, c, l.nodes[i].cluster->0),
{
    let h = l.nodes[i].kind->Decision_0;
    assert(node_belongs(ix, show, l.nodes, openers, l.nodes[i]));
    let d = l.nodes[i].cluster->0;
    assert forall|place: Option<ClusterId>| #[trigger]
        belongs(ix, l.nodes, openers, c, place) implies place == Some(d) by {
        let k = place->0;
        if !hangs_from(ix, openers[k@ as int], c) {
            let j = choose|j: int|
                0 <= j < l.nodes.len() && leads_in_line(ix, #[trigger] l.nodes[j], k, c);
            assert(node_belongs(ix, show, l.nodes, openers, l.nodes[j]));
            assert(stands_for(l.nodes[j], h) && stands_for(l.nodes[i], h));
        }
        assert(openers[k@ as int] == h);
        if k@ < d@ {
            assert(openers[k@ as int] == openers[d@ as int]);
        } else if d@ < k@ {
            assert(openers[d@ as int] == openers[k@ as int]);
        }
    }
    assert forall|j: int|
        0 <= j < l.nodes.len() && #[trigger] stands_for(l.nodes[j], c) && l.nodes[j].kind is Header
            implies l.nodes[j].cluster == Some(d) by {
        assert(node_belongs(ix, show, l.nodes, openers, l.nodes[j]));
        assert(belongs(ix, l.nodes, openers, c, l.nodes[j].cluster));
    }
    assert forall|k: int| 0 <= k < l.clusters.len() && #[trigger] openers[k] == c implies
        l.clusters[k].parent == Some(d) by {
        assert(cluster_belongs(ix, l.nodes, openers, l.clusters[k], openers[k]));
        assert(belongs(ix, l.nodes, openers, c, l.clusters[k].parent));
    }
}

/// What stands below a decision stands right in its cluster: the headers of its own
/// scope that follow its branches and open no scope themselves, and the branches,
/// where every scope is entered once, at its first header.
pub proof fn children_of_a_decision_stand_in_its_cluster(
    ix: IndexView,
    show: bool,
    i: int,
    c: Hid,
) -> (openers: Seq<Hid>)
    requires
        model::has_layout(ix, show),
        laws::numbers_differ(ix),
        0 <= i < model::layout_of(ix, show).nodes.len(),
        model::layout_of(ix, show).nodes[i].kind is Decision,
        ({
            let h = model::layout_of(ix, show).nodes[i].kind->Decision_0;
            ||| ix.md_children(h).contains(c) && !ix.is_nested_target(c)
            ||| ix.nested_children(h).contains(c) && !ix.has_md_parent(c) && trees::entered_once(ix)
        }),
    ensures
        stands_where_it_belongs(ix, show, model::layout_of(ix, show), openers),
        model::layout_of(ix, show).nodes[i].cluster is Some,
        stands_in(
            model::layout_of(ix, show),
            openers,
            c,
            model::layout_of(ix, show).nodes[i].cluster->0,
        ),
{
    let l = model::layout_of(ix, show);
    let h = l.nodes[i].kind->Decision_0;
    let openers = everything_stands_where_it_belongs(ix, show);
    if ix.md_children(h).contains(c) && !ix.is_nested_target(c) {
        lemma_md_hangs(ix, h, c);
    } else {
        lemma_nested_hangs(ix, h, c);
    }
    lemma_stands_in_decision(ix, show, l, openers, i, c);
    openers
}

/// Where every scope is entered once, at its first header, the calls of a header
/// in line stand in the cluster of its node too, unless it has a parent in a scope
/// that it opens.
pub proof fn calls_stand_in_line_with_their_header(ix: IndexView, show: bool, i: int, j: int)
    requires
        model::has_layout(ix, show),
        laws::numbers_differ(ix),
        trees::entered_once(ix),
        0 <= i < model::layout_of(ix, show).nodes.len(),
        0 <= j < model::layout_of(ix, show).nodes.len(),
        model::layout_of(ix, show).nodes[i].kind is Call,
        stands_for(
            model::layout_of(ix, show).nodes[j],
            model::layout_of(ix, show).nodes[i].kind->header,
        ),
        !ix.has_md_parent(model::layout_of(ix, show).nodes[i].kind->header),
    ensures
        model::layout_of(ix, show).nodes[i].cluster == model::layout_of(ix, show).nodes[j].cluster,
{
    let l = model::layout_of(ix, show);
    let h = l.nodes[i].kind->header;
    if !has_children(ix, h) || decides(ix, h) {
        calls_stand_in_the_cluster_of_their_header(ix, show, i, j);
    } else {
        let openers = everything_stands_where_it_belongs(ix, show);
        assert(node_belongs(ix, show, l.nodes, openers, l.nodes[i]));
        let k = choose|k: int|
            0 <= k < l.nodes.len() && branches_beside(
                ix,
                #[trigger] l.nodes[k],
                h,
                l.nodes[i].cluster,
            );
        lemma_nested_hangs(ix, l.nodes[k].kind->Decision_0, h);
        lemma_stands_in_decision(ix, show, l, openers, k, h);
        assert(node_belongs(ix, show, l.nodes, openers, l.nodes[j]));
        assert(stands_for(l.nodes[j], h));
    }
}

/// Where no header is part of itself, no header opens two clusters.
pub proof fn headers_open_one_cluster(ix: IndexView, show: bool) -> (openers: Seq<Hid>)
    requires
        ix.edges_known(),
        model::has_layout(ix, show),
        nesting::acyclic_throughout(ix),
    ensures
        stands_where_it_belongs(ix, show, model::layout_of(ix, show), openers),
        openers.no_duplicates(),
{
    let l = model::layout_of(ix, show);
    let openers = everything_stands_where_it_belongs(ix, show);
    let rank = choose|rank: Ranking|
        {
            &&& #[trigger] rank.ranks(ix)
            &&& forall|i: int|
                0 <= i < ix.headers.len() ==> rank.of((#[trigger] ix.headers[i]).hid) < rank.limit
        };
    assert forall|j: int, k: int| 0 <= j < k < openers.len() implies openers[j] != openers[k] by {
        if openers[j] == openers[k] {
            assert(cluster_belongs(ix, l.nodes, openers, l.clusters[k], openers[k]));
            laws::graph_is_sound(ix, show);
            assert(l.clusters[j].id@ == j);
            lemma_ranks_inside(ix, show, l, openers, rank, openers[k], l.clusters[k].parent, j);
        }
    }
    openers
}

/// What stands in a cluster, or below it, ranks below the header that opened it.
proof fn lemma_ranks_inside(
    ix: IndexView,
    show: bool,
    l: Layout,
    openers: Seq<Hid>,
    rank: Ranking,
    c: Hid,
    place: Option<ClusterId>,
    j: int,
)
    requires
        stands_where_it_belongs(ix, show, l, openers),
        rank.ranks(ix),
        ix.edges_known(),
        forall|i: int|
            0 <= i < ix.headers.len() ==> rank.of((#[trigger] ix.headers[i]).hid) < rank.limit,
        belongs(ix, l.nodes, openers, c, place),
        0 <= j < openers.len(),
        j <= u32::MAX,
        invariants::inside(l.clusters, place, Some(ClusterId::nth(j as nat))),
    ensures
        rank.of(c) < rank.of(openers[j]),
    decreases
            match place {
                Some(k) => k@ + 1,
                None => 0,
            },
{
    let k = place->0;
    lemma_ranks_in(ix, show, l, openers, rank, c, k);
    if k@ != j {
        assert(cluster_belongs(
            ix,
            l.nodes,
            openers,
            l.clusters[k@ as int],
            openers[k@ as int],
        ));
        lemma_ranks_inside(
            ix,
            show,
            l,
            openers,
            rank,
            openers[k@ as int],
            l.clusters[k@ as int].parent,
            j,
        );
    }
}

/// What stands right in a cluster ranks below the header that opened it.
proof fn lemma_ranks_in(
    ix: IndexView,
    show: bool,
    l: Layout,
    openers: Seq<Hid>,
    rank: Ranking,
    c: Hid,
    k: ClusterId,
)
    requires
        stands_where_it_belongs(ix, show, l, openers),
        rank.ranks(ix),
        ix.edges_known(),
        forall|i: int|
            0 <= i < ix.headers.len() ==> rank.of((#[trigger] ix.headers[i]).hid) < rank.limit,
        belongs(ix, l.nodes, openers, c, Some(k)),
    ensures
        rank.of(c) < rank.of(openers[k@ as int]),
    decreases rank.limit - rank.of(c),
{
    let o = openers[k@ as int];
    if hangs_from(ix, o, c) {
        lemma_ranks_below(ix, rank, o, c);
    } else {
        let j = choose|j: int|
            0 <= j < l.nodes.len() && leads_in_line(ix, #[trigger] l.nodes[j], k, c);
        let p = l.nodes[j].kind->Header_0;
        lemma_ranks_below(ix, rank, p, c);
        assert(node_belongs(ix, show, l.nodes, openers, l.nodes[j]));
        lemma_ranks_in(ix, show, l, openers, rank, p, k);
    }
}

proof fn lemma_ranks_below(ix: IndexView, rank: Ranking, p: Hid, c: Hid)
    requires
        rank.ranks(ix),
        ix.edges_known(),
        forall|i: int|
            0 <= i < ix.headers.len() ==> rank.of((#[trigger] ix.headers[i]).hid) < rank.limit,
        hangs_from(ix, p, c),
    ensures
        rank.of(c) < rank.of(p) < rank.limit,
{
    assert(nesting::below(ix, p, c));
    assert(exists|i: int| 0 <= i < ix.headers.len() && (#[trigger] ix.headers[i]).hid == p) by {
        if ix.md_children(p).contains(c) {
            let i = lemma_md_header(ix, p, c);
            let id = ix.headers[i].parent_id->0;
            index::lemma_last_with_id(ix.headers, id);
            let parent = index::last_with_id(ix.headers, id)->0;
            let k = choose|k: int| 0 <= k < ix.headers.len() && ix.headers[k] == parent;
            assert(ix.headers[k].hid == p);
        } else {
            let n = if ix.nested_children(p).contains(c) {
                c
            } else {
                choose|n: Hid| #[trigger]
                    ix.nested_children(p).contains(n) && ix.scope_items(ix.scope_of(n)).contains(c)
            };
            index::lemma_nested_child(ix, p, n);
            index::lemma_last_with_hid(ix.headers, p);
        }
    }
}

} // verus!
