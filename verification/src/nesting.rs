//! Indexes whose headers nest properly, and how many nodes they can have.
use vstd::prelude::*;
use crate::graph::{KindView, NodeView};
use crate::ids;
use crate::index;
use crate::index::{HeaderView, Hid, IndexView, ScopeId};
use crate::invariants;
use crate::model::Layout;
use crate::tops;

verus! {

broadcast use {
    ids::lemma_node_id,
    ids::lemma_node_nth,
    ids::lemma_cluster_id,
    ids::lemma_cluster_nth,
};

/// Whether `c` is laid out as part of `h`: as a child of it, or as an item of a
/// scope that a child of it opens.
pub open spec fn below(ix: IndexView, h: Hid, c: Hid) -> bool {
    ||| ix.md_children(h).contains(c)
    ||| ix.nested_children(h).contains(c)
    ||| exists|n: Hid| #[trigger]
        ix.nested_children(h).contains(n) && ix.scope_items(ix.scope_of(n)).contains(c)
}

/// Ranks of headers, and a bound below which those rank that are laid out.
pub struct Ranking {
    pub rank: spec_fn(Hid) -> nat,
    pub limit: nat,
}

impl Ranking {
    /// The rank of a header.
    pub open spec fn of(self, hid: Hid) -> nat {
        (self.rank)(hid)
    }

    /// Whether the items of all top-level scopes rank below the limit, and
    /// headers below the limit rank above all that is laid out as part of them.
    pub open spec fn ranks(self, ix: IndexView) -> bool {
        &&& forall|s: ScopeId, c: Hid|
            tops::top_scopes(ix).contains(s) && #[trigger] ix.scope_items(s).contains(c) ==> self.of(
                c,
            ) < self.limit
        &&& forall|h: Hid, c: Hid| #[trigger]
            below(ix, h, c) && self.of(h) < self.limit ==> self.of(c) < self.of(h)
    }
}

/// Whether no header that is reached from a top-level scope is laid out as part
/// of itself.
pub open spec fn acyclic(ix: IndexView) -> bool {
    exists|ranking: Ranking| #[trigger] ranking.ranks(ix)
}

/// Whether no header at all is laid out as part of itself.
pub open spec fn acyclic_throughout(ix: IndexView) -> bool {
    exists|ranking: Ranking|
        {
            &&& #[trigger] ranking.ranks(ix)
            &&& forall|i: int|
                0 <= i < ix.headers.len() ==> ranking.of((#[trigger] ix.headers[i]).hid)
                    < ranking.limit
        }
}

/// The largest number of nodes that `headers` can be given: one for each, and
/// one for each of its calls if calls are shown.
pub open spec fn node_limit(ix: IndexView, show: bool, headers: Seq<HeaderView>) -> nat
    decreases headers.len(),
{
    if headers.len() == 0 {
        0
    } else {
        node_limit(ix, show, headers.drop_last()) + 1 + if show {
            ix.calls(headers.last().hid).len()
        } else {
            0
        }
    }
}

/// Whether an index can be laid out: nested edges join headers of the index, no
/// header that is reached is laid out as part of itself, and there are enough
/// identifiers.
pub open spec fn well_formed(ix: IndexView, show: bool) -> bool {
    &&& ix.edges_known()
    &&& acyclic(ix)
    &&& node_limit(ix, show, ix.headers) <= u32::MAX
}

/// What a node stands for.
enum NodeKey {
    Header(Hid),
    Call(Hid, Seq<char>),
}

spec fn key_of(kind: KindView) -> NodeKey {
    match kind {
        KindView::Header(hid, _) => NodeKey::Header(hid),
        KindView::Decision(hid, _) => NodeKey::Header(hid),
        KindView::Call { header, callee } => NodeKey::Call(header, callee),
    }
}

spec fn call_keys(hid: Hid, callees: Seq<Seq<char>>) -> Seq<NodeKey> {
    callees.map_values(|c: Seq<char>| NodeKey::Call(hid, c))
}

/// All that nodes for `headers` can stand for.
spec fn all_keys(ix: IndexView, show: bool, headers: Seq<HeaderView>) -> Seq<NodeKey>
    decreases headers.len(),
{
    if headers.len() == 0 {
        seq![]
    } else {
        let hid = headers.last().hid;
        all_keys(ix, show, headers.drop_last()).push(NodeKey::Header(hid)) + if show {
            call_keys(hid, ix.calls(hid))
        } else {
            seq![]
        }
    }
}

proof fn lemma_all_keys(ix: IndexView, show: bool, headers: Seq<HeaderView>, hid: Hid)
    ensures
        all_keys(ix, show, headers).len() == node_limit(ix, show, headers),
        index::last_with_hid(headers, hid) is Some ==> {
            &&& all_keys(ix, show, headers).contains(NodeKey::Header(hid))
            &&& forall|c: Seq<char>| #[trigger]
                ix.calls(hid).contains(c) && show ==> all_keys(ix, show, headers).contains(
                    NodeKey::Call(hid, c),
                )
        },
    decreases headers.len(),
{
    if headers.len() > 0 {
        let rest = headers.drop_last();
        let last = headers.last().hid;
        lemma_all_keys(ix, show, rest, hid);
        let before = all_keys(ix, show, rest);
        let calls = if show {
            call_keys(last, ix.calls(last))
        } else {
            seq![]
        };
        let all = all_keys(ix, show, headers);
        assert(all == before.push(NodeKey::Header(last)) + calls);
        assert forall|k: NodeKey| #[trigger] before.contains(k) implies all.contains(k) by {
            let i = choose|i: int| 0 <= i < before.len() && before[i] == k;
            assert(all[i] == k);
        }
        if last == hid {
            assert(all[before.len() as int] == NodeKey::Header(hid));
            assert forall|c: Seq<char>| #[trigger]
                ix.calls(hid).contains(c) && show implies all.contains(NodeKey::Call(hid, c)) by {
                let i = choose|i: int| 0 <= i < ix.calls(hid).len() && ix.calls(hid)[i] == c;
                assert(all[before.len() + 1 + i] == NodeKey::Call(hid, c));
            }
        }
    }
}

proof fn lemma_node_room(ix: IndexView, show: bool, l: Layout, key: NodeKey)
    requires
        invariants::sound(ix, show, l),
        node_limit(ix, show, ix.headers) <= u32::MAX,
        all_keys(ix, show, ix.headers).contains(key),
        key matches NodeKey::Header(h) ==> !l.entry.contains_key(h),
        key matches NodeKey::Call(h, c) ==> !l.calls.contains_key((h, c)),
    ensures
        l.nodes.len() < u32::MAX,
{
    let universe = all_keys(ix, show, ix.headers);
    let f = |n: NodeView| key_of(n.kind);
    let used = l.nodes.map_values(f);
    let wanted = used.push(key);
    lemma_all_keys(ix, show, ix.headers, 0);
    assert forall|i: int| 0 <= i < used.len() implies universe.contains(#[trigger] used[i])
        && used[i] != key by {
        assert(invariants::describes(ix, show, l.nodes[i]));
        match l.nodes[i].kind {
            KindView::Header(hid, _) => lemma_all_keys(ix, show, ix.headers, hid),
            KindView::Decision(hid, _) => lemma_all_keys(ix, show, ix.headers, hid),
            KindView::Call { header, callee } => lemma_all_keys(ix, show, ix.headers, header),
        }
    }
    assert forall|i: int, j: int| 0 <= i < j < used.len() implies used[i] != used[j] by {
        assert(l.nodes[i].id@ == i && l.nodes[j].id@ == j);
    }
    assert(wanted.no_duplicates());
    wanted.unique_seq_to_set();
    universe.lemma_cardinality_of_set();
    vstd::seq_lib::seq_to_set_is_finite(universe);
    assert(wanted.to_set().subset_of(universe.to_set())) by {
        assert forall|k: NodeKey| #[trigger] wanted.to_set().contains(k) implies universe.contains(
            k,
        ) by {
            let i = choose|i: int| 0 <= i < wanted.len() && wanted[i] == k;
            if i < used.len() {
                assert(used[i] == k);
            }
        }
    }
    vstd::set_lib::lemma_len_subset(wanted.to_set(), universe.to_set());
}

/// There is an identifier for the node of a header that has none yet.
pub(crate) proof fn lemma_header_room(ix: IndexView, show: bool, l: Layout, hid: Hid)
    requires
        invariants::sound(ix, show, l),
        node_limit(ix, show, ix.headers) <= u32::MAX,
        ix.header(hid) is Some,
        !l.entry.contains_key(hid),
    ensures
        l.nodes.len() < u32::MAX,
{
    lemma_all_keys(ix, show, ix.headers, hid);
    lemma_node_room(ix, show, l, NodeKey::Header(hid));
}

/// There is an identifier for the node of a call that has none yet.
pub(crate) proof fn lemma_call_room(ix: IndexView, l: Layout, hid: Hid, callee: Seq<char>)
    requires
        invariants::sound(ix, true, l),
        node_limit(ix, true, ix.headers) <= u32::MAX,
        ix.header(hid) is Some,
        ix.calls(hid).contains(callee),
        !l.calls.contains_key((hid, callee)),
    ensures
        l.nodes.len() < u32::MAX,
{
    lemma_all_keys(ix, true, ix.headers, hid);
    lemma_node_room(ix, true, l, NodeKey::Call(hid, callee));
}

/// The headers that are laid out or are being laid out.
pub open spec fn begun(l: Layout, open: Set<Hid>) -> Set<Hid> {
    l.entry.dom().union(open)
}

/// Whether there are at most as many clusters as headers that are laid out or
/// are being laid out.
pub open spec fn counted(l: Layout, open: Set<Hid>) -> bool {
    l.clusters.len() <= begun(l, open).len()
}

/// There is an identifier for the cluster of a header that is not begun yet.
pub(crate) proof fn lemma_cluster_room(
    ix: IndexView,
    show: bool,
    l: Layout,
    open: Set<Hid>,
    hid: Hid,
)
    requires
        invariants::sound(ix, show, l),
        node_limit(ix, show, ix.headers) <= u32::MAX,
        counted(l, open),
        forall|h: Hid| #[trigger] open.contains(h) ==> ix.header(h) is Some,
        ix.header(hid) is Some,
        !begun(l, open).contains(hid),
    ensures
        l.clusters.len() < u32::MAX,
        begun(l, open).finite(),
        begun(l, open).insert(hid).len() == begun(l, open).len() + 1,
{
    let hids = ix.headers.map_values(|h: HeaderView| h.hid);
    let more = begun(l, open).insert(hid);
    assert(more.subset_of(hids.to_set())) by {
        assert forall|h: Hid| #[trigger] more.contains(h) implies hids.contains(h) by {
            assert(ix.header(h) is Some);
            index::lemma_last_with_hid(ix.headers, h);
            let i = choose|i: int| 0 <= i < ix.headers.len() && (#[trigger] ix.headers[i]).hid == h;
            assert(hids[i] == h);
        }
    }
    hids.lemma_cardinality_of_set();
    vstd::seq_lib::seq_to_set_is_finite(hids);
    vstd::set_lib::lemma_len_subset(more, hids.to_set());
    assert(begun(l, open).subset_of(hids.to_set()));
    vstd::set_lib::lemma_len_subset(begun(l, open), hids.to_set());
    lemma_headers_within_limit(ix, show, ix.headers);
}

/// Headers that are begun stay begun, and there are finitely many.
pub(crate) proof fn lemma_counted_kept(
    ix: IndexView,
    show: bool,
    l: Layout,
    m: Layout,
    open: Set<Hid>,
)
    requires
        counted(l, open),
        invariants::sound(ix, show, m),
        invariants::extends(ix, l, m),
        m.clusters.len() == l.clusters.len(),
        forall|h: Hid| #[trigger] open.contains(h) ==> ix.header(h) is Some,
    ensures
        counted(m, open),
{
    let hids = ix.headers.map_values(|h: HeaderView| h.hid);
    assert(begun(m, open).subset_of(hids.to_set())) by {
        assert forall|h: Hid| #[trigger] begun(m, open).contains(h) implies hids.contains(h) by {
            assert(ix.header(h) is Some);
            index::lemma_last_with_hid(ix.headers, h);
            let i = choose|i: int| 0 <= i < ix.headers.len() && (#[trigger] ix.headers[i]).hid == h;
            assert(hids[i] == h);
        }
    }
    vstd::seq_lib::seq_to_set_is_finite(hids);
    vstd::set_lib::lemma_len_subset(begun(m, open), hids.to_set());
    assert(begun(l, open).subset_of(begun(m, open))) by {
        assert forall|h: Hid| #[trigger] begun(l, open).contains(h) implies begun(
            m,
            open,
        ).contains(h) by {
            if l.entry.contains_key(h) {
                assert(m.entry.contains_key(h));
            }
        }
    }
    vstd::set_lib::lemma_len_subset(begun(l, open), begun(m, open));
}

proof fn lemma_headers_within_limit(ix: IndexView, show: bool, headers: Seq<HeaderView>)
    ensures
        headers.len() <= node_limit(ix, show, headers),
    decreases headers.len(),
{
    if headers.len() > 0 {
        lemma_headers_within_limit(ix, show, headers.drop_last());
    }
}

} // verus!
