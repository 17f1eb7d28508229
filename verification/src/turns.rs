//! In which order things come: a header with all that hangs from it takes its turn
//! before what follows it.
use vstd::prelude::*;
use crate::flow;
use crate::ids;
use crate::ids::{ClusterId, NodeId};
use crate::index::{Hid, IndexView, ScopeId};
use crate::invariants;
use crate::merge;
use crate::model;
use crate::model::{Layout, Shape};
use crate::placement;
use crate::tops;

verus! {

/// The turn of a header: the nodes and clusters that are added for it and all that
/// is laid out with it, and the headers that were laid out before.
pub struct Turn {
    pub first_node: int,
    pub end_node: int,
    pub first_cluster: int,
    pub end_cluster: int,
    pub before: Set<Hid>,
}

/// Whether one turn ends before the other begins.
pub open spec fn ends_before(a: Turn, b: Turn) -> bool {
    a.end_node <= b.first_node && a.end_cluster <= b.first_cluster
}

/// Whether a header comes in a list before all occurrences of another.
pub open spec fn precedes(list: Seq<Hid>, a: Hid, b: Hid) -> bool {
    exists|k: int|
        0 <= k < list.len() && #[trigger] list[k] == a && !list.take(k + 1).contains(b)
}

/// The items of scopes, one scope after the other.
pub open spec fn items_of_all(ix: IndexView, scopes: Seq<ScopeId>) -> Seq<Hid>
    decreases scopes.len(),
{
    if scopes.len() == 0 {
        seq![]
    } else {
        ix.scope_items(scopes[0]) + items_of_all(ix, scopes.drop_first())
    }
}

/// The items of the scopes that headers open, each time followed by the header.
pub open spec fn opened_by_all(ix: IndexView, hids: Seq<Hid>) -> Seq<Hid>
    decreases hids.len(),
{
    if hids.len() == 0 {
        seq![]
    } else {
        (ix.scope_items(ix.scope_of(hids[0])) + seq![hids[0]]) + opened_by_all(
            ix,
            hids.drop_first(),
        )
    }
}

/// The order in which what hangs from a header is laid out. Scopes that nested children
/// open come first, in the order of these, and the children of the same scope come
/// last. A container takes all its scopes before any of its children.
pub open spec fn laying_order(ix: IndexView, l: Layout, h: Hid) -> Seq<Hid> {
    let nested = ix.nested_children(h);
    match flow::laid_as(ix, l, h) {
        Shape::Container => items_of_all(ix, nested.map_values(|n: Hid| ix.scope_of(n)))
            + flow::children_in_order(ix, h),
        _ => opened_by_all(ix, nested) + ix.md_children(h),
    }
}

/// Whether a header opens a cluster.
pub open spec fn opens(ix: IndexView, l: Layout, h: Hid) -> bool {
    flow::laid_as(ix, l, h) == Shape::Branch || flow::laid_as(ix, l, h) == Shape::Container
}

/// Whether a header opens a cluster when its turn begins.
pub open spec fn opened_by(ix: IndexView, l: Layout, turns: Map<Hid, Turn>, k: int, h: Hid) -> bool {
    &&& turns.contains_key(h)
    &&& opens(ix, l, h)
    &&& turns[h].first_cluster == k
    &&& ix.header(h) matches Some(v) && l.clusters[k].label == v.title
}

/// Whether a cluster begins the turn of a header that opens it.
pub open spec fn has_opener(ix: IndexView, l: Layout, turns: Map<Hid, Turn>, k: int) -> bool {
    exists|h: Hid| #[trigger] opened_by(ix, l, turns, k, h)
}

/// Whether the turn of a header begins with its own node, if it has one, and its own
/// cluster, if it opens one; a decision stands in that cluster.
pub open spec fn begins_itself(ix: IndexView, l: Layout, h: Hid, t: Turn) -> bool {
    &&& flow::laid_as(ix, l, h) != Shape::Container ==> {
        &&& t.first_node < t.end_node
        &&& placement::stands_for(l.nodes[t.first_node], h)
    }
    &&& opens(ix, l, h) ==> t.first_cluster < t.end_cluster
    &&& flow::laid_as(ix, l, h) == Shape::Branch ==> l.nodes[t.first_node].cluster == Some(
        ClusterId::nth(t.first_cluster as nat),
    )
}

/// Whether one turn lies within that of a header, behind the node and the cluster of
/// the header itself.
pub open spec fn lies_within(ix: IndexView, l: Layout, h: Hid, outer: Turn, t: Turn) -> bool {
    &&& outer.first_node <= t.first_node
    &&& t.end_node <= outer.end_node
    &&& outer.first_cluster <= t.first_cluster
    &&& t.end_cluster <= outer.end_cluster
    &&& flow::laid_as(ix, l, h) != Shape::Container ==> outer.first_node < t.first_node
    &&& opens(ix, l, h) ==> outer.first_cluster < t.first_cluster
}

/// Whether something hangs only from a header and was not laid out before it.
pub open spec fn comes_with(ix: IndexView, t: Turn, h: Hid, c: Hid) -> bool {
    placement::hangs_only_from(ix, h, c) && !t.before.contains(c)
}

/// Whether what hangs only from a header takes its turns within that of the header,
/// one after the other in the laying order.
pub open spec fn keeps_order_below(
    ix: IndexView,
    l: Layout,
    turns: Map<Hid, Turn>,
    h: Hid,
) -> bool {
    &&& forall|c: Hid| #[trigger]
        comes_with(ix, turns[h], h, c) ==> turns.contains_key(c) && lies_within(
            ix,
            l,
            h,
            turns[h],
            turns[c],
        )
    &&& forall|c: Hid, d: Hid|
        #![trigger comes_with(ix, turns[h], h, c), comes_with(ix, turns[h], h, d)]
        comes_with(ix, turns[h], h, c) && comes_with(ix, turns[h], h, d) && precedes(
            laying_order(ix, l, h),
            c,
            d,
        ) ==> ends_before(turns[c], turns[d])
}

/// Whether a header hangs from none of those that have a turn.
pub open spec fn hangs_from_none(ix: IndexView, turns: Map<Hid, Turn>, c: Hid) -> bool {
    forall|p: Hid| #[trigger] turns.contains_key(p) ==> !placement::hangs_from(ix, p, c)
}

/// Whether headers take their turns in the order of a list, unless they hang from
/// others.
#[verifier::opaque]
pub open spec fn in_turn(ix: IndexView, turns: Map<Hid, Turn>, list: Seq<Hid>) -> bool {
    forall|c: Hid, d: Hid|
        #![trigger turns[c], turns[d]]
        turns.contains_key(c) && turns.contains_key(d) && precedes(list, c, d) && hangs_from_none(
            ix,
            turns,
            d,
        ) ==> ends_before(turns[c], turns[d])
}

/// Whether a header takes its turn because of another one that it hangs from.
pub open spec fn brought_by(ix: IndexView, turns: Map<Hid, Turn>, p: Hid, c: Hid) -> bool {
    &&& turns.contains_key(p)
    &&& placement::hangs_from(ix, p, c)
    &&& !turns[p].before.contains(c)
}

/// Whether a turn lies between two layouts.
pub open spec fn lies_between(l: Layout, m: Layout, t: Turn) -> bool {
    &&& l.nodes.len() <= t.first_node <= t.end_node <= m.nodes.len()
    &&& l.clusters.len() <= t.first_cluster <= t.end_cluster <= m.clusters.len()
    &&& forall|h: Hid| #[trigger] l.entry.contains_key(h) ==> t.before.contains(h)
    &&& forall|h: Hid| #[trigger] t.before.contains(h) ==> m.entry.contains_key(h)
}

/// Whether the headers that have turns are those laid out between `l` and `m`.
pub open spec fn are_new(l: Layout, m: Layout, turns: Map<Hid, Turn>) -> bool {
    forall|h: Hid| #[trigger]
        turns.contains_key(h) <==> m.entry.contains_key(h) && !l.entry.contains_key(h)
}

/// Whether the turns lie between two layouts, begin with what the headers add
/// themselves, and keep the order of what hangs from these.
#[verifier::opaque]
pub open spec fn keep_order(ix: IndexView, l: Layout, m: Layout, turns: Map<Hid, Turn>) -> bool {
    forall|h: Hid| #[trigger]
        turns.contains_key(h) ==> {
            &&& lies_between(l, m, turns[h])
            &&& begins_itself(ix, m, h, turns[h])
            &&& keeps_order_below(ix, m, turns, h)
        }
}

/// Whether every header that takes its turn is asked for, or hangs from one that
/// brings it along.
#[verifier::opaque]
pub open spec fn are_brought(ix: IndexView, turns: Map<Hid, Turn>, roots: Seq<Hid>) -> bool {
    forall|c: Hid| #[trigger]
        turns.contains_key(c) ==> roots.contains(c) || exists|p: Hid| #[trigger]
            brought_by(ix, turns, p, c)
}

/// Whether every node that stands for a header begins the turn of that header.
#[verifier::opaque]
pub open spec fn nodes_begin_turns(l: Layout, m: Layout, turns: Map<Hid, Turn>) -> bool {
    forall|i: int, h: Hid|
        l.nodes.len() <= i < m.nodes.len() && #[trigger] placement::stands_for(m.nodes[i], h)
            ==> turns.contains_key(h) && turns[h].first_node == i
}

/// Whether every cluster begins the turn of a header that opens it.
#[verifier::opaque]
pub open spec fn clusters_begin_turns(
    ix: IndexView,
    l: Layout,
    m: Layout,
    turns: Map<Hid, Turn>,
) -> bool {
    forall|k: int|
        l.clusters.len() <= k < m.clusters.len() ==> #[trigger] has_opener(ix, m, turns, k)
}

/// Whether a call of a header gets its node between `l` and `m`.
pub open spec fn is_new_call(ix: IndexView, l: Layout, m: Layout, h: Hid, i: int) -> bool {
    &&& 0 <= i < ix.calls(h).len()
    &&& m.calls.contains_key((h, ix.calls(h)[i]))
    &&& !l.calls.contains_key((h, ix.calls(h)[i]))
}

/// The place of the node of a call.
pub open spec fn call_place(ix: IndexView, l: Layout, h: Hid, i: int) -> int {
    l.calls[(h, ix.calls(h)[i])]@ as int
}

/// Whether a header without children or that decides has a call at a place within its
/// turn, before all that hangs from it.
pub open spec fn calls_itself(
    ix: IndexView,
    l: Layout,
    turns: Map<Hid, Turn>,
    h: Hid,
    at: int,
) -> bool {
    &&& turns.contains_key(h)
    &&& flow::laid_as(ix, l, h) == Shape::Leaf || flow::laid_as(ix, l, h) == Shape::Branch
    &&& turns[h].first_node < at < turns[h].end_node
    &&& forall|c: Hid| #[trigger] comes_with(ix, turns[h], h, c) ==> at < turns[c].first_node
}

/// Whether a branch of a decision has a call at a place within the turn of the
/// decision, behind all that hangs from it. The branch has no calls of its own, unless
/// it was laid out before.
pub open spec fn calls_for_branch(
    ix: IndexView,
    l: Layout,
    turns: Map<Hid, Turn>,
    b: Hid,
    h: Hid,
    at: int,
) -> bool {
    &&& turns.contains_key(b)
    &&& flow::laid_as(ix, l, b) == Shape::Branch
    &&& ix.nested_children(b).contains(h)
    &&& turns[b].first_node < at < turns[b].end_node
    &&& forall|c: Hid| #[trigger] comes_with(ix, turns[b], b, c) ==> turns[c].end_node <= at
    &&& flow::laid_as(ix, l, h) == Shape::Leaf || flow::laid_as(ix, l, h) == Shape::Branch
        ==> turns[b].before.contains(h)
}

/// Whether a call has its node where it belongs in the order of turns.
pub open spec fn is_called_in_turn(
    ix: IndexView,
    l: Layout,
    turns: Map<Hid, Turn>,
    h: Hid,
    at: int,
) -> bool {
    ||| calls_itself(ix, l, turns, h, at)
    ||| exists|b: Hid| #[trigger] calls_for_branch(ix, l, turns, b, h, at)
}

/// Whether the calls that get their nodes between `l` and `m` get them in turn, all
/// calls of a header at once, in the order in which they first occur.
#[verifier::opaque]
pub open spec fn calls_in_turn(ix: IndexView, l: Layout, m: Layout, turns: Map<Hid, Turn>) -> bool {
    &&& forall|h: Hid, i: int| #[trigger]
        is_new_call(ix, l, m, h, i) ==> {
            &&& l.nodes.len() <= call_place(ix, m, h, i) < m.nodes.len()
            &&& m.entry.contains_key(h)
            &&& is_called_in_turn(ix, m, turns, h, call_place(ix, m, h, i))
        }
    &&& forall|h: Hid, i: int, j: int|
        #![trigger is_new_call(ix, l, m, h, i), ix.calls(h)[j]]
        is_new_call(ix, l, m, h, i) && 0 <= j < ix.calls(h).len() ==> m.calls.contains_key(
            (h, ix.calls(h)[j]),
        )
    &&& forall|h: Hid, i: int, j: int|
        #![trigger is_new_call(ix, l, m, h, i), is_new_call(ix, l, m, h, j)]
        is_new_call(ix, l, m, h, i) && is_new_call(ix, l, m, h, j) && i < j && !ix.calls(h).take(
            j,
        ).contains(ix.calls(h)[j]) ==> call_place(ix, m, h, i) < call_place(ix, m, h, j)
}

/// The turns of the headers that are laid out between `l` and `m`, of which `roots`
/// are asked for in turn.
pub open spec fn taken(
    ix: IndexView,
    l: Layout,
    m: Layout,
    turns: Map<Hid, Turn>,
    roots: Seq<Hid>,
) -> bool {
    &&& are_new(l, m, turns)
    &&& keep_order(ix, l, m, turns)
    &&& m.all_entered(roots)
    &&& are_brought(ix, turns, roots)
    &&& in_turn(ix, turns, roots)
    &&& nodes_begin_turns(l, m, turns)
    &&& clusters_begin_turns(ix, l, m, turns)
    &&& calls_in_turn(ix, l, m, turns)
}

/// Whether the headers that are laid out between `l` and `m` take their turns.
#[verifier::opaque]
pub(crate) open spec fn take_turns(
    ix: IndexView,
    l: Layout,
    m: Layout,
    roots: Seq<Hid>,
) -> bool {
    exists|turns: Map<Hid, Turn>| taken(ix, l, m, turns, roots)
}

/// Where no header, node or cluster is added, no turn is taken.
pub(crate) proof fn lemma_turns_none(ix: IndexView, l: Layout, m: Layout, roots: Seq<Hid>)
    requires
        m.entry == l.entry,
        m.nodes == l.nodes,
        m.clusters == l.clusters,
        m.calls == l.calls,
        l.all_entered(roots),
    ensures
        take_turns(ix, l, m, roots),
{
    reveal(take_turns);
    reveal(keep_order);
    reveal(are_brought);
    reveal(in_turn);
    reveal(nodes_begin_turns);
    reveal(clusters_begin_turns);
    reveal(calls_in_turn);
    assert(taken(ix, l, m, Map::empty(), roots));
}

/// Links add nothing that takes a turn.
pub(crate) proof fn lemma_turns_linked(
    ix: IndexView,
    k: Layout,
    l: Layout,
    m: Layout,
    n: Layout,
    roots: Seq<Hid>,
)
    requires
        take_turns(ix, l, m, roots),
        k.entry == l.entry,
        k.nodes == l.nodes,
        k.clusters == l.clusters,
        k.calls == l.calls,
        n.entry == m.entry,
        n.nodes == m.nodes,
        n.clusters == m.clusters,
        n.calls == m.calls,
    ensures
        take_turns(ix, k, n, roots),
{
    reveal(take_turns);
    reveal(keep_order);
    reveal(nodes_begin_turns);
    reveal(clusters_begin_turns);
    let turns = choose|turns: Map<Hid, Turn>| taken(ix, l, m, turns, roots);
    assert forall|h: Hid| #[trigger] turns.contains_key(h) implies {
        &&& lies_between(k, n, turns[h])
        &&& begins_itself(ix, n, h, turns[h])
        &&& keeps_order_below(ix, n, turns, h)
    } by {
        lemma_below_kept(ix, m, n, turns, turns, h);
    }
    assert forall|j: int| k.clusters.len() <= j < n.clusters.len() implies #[trigger] has_opener(
        ix,
        n,
        turns,
        j,
    ) by {
        assert(has_opener(ix, m, turns, j));
        let h = choose|h: Hid| #[trigger] opened_by(ix, m, turns, j, h);
        assert(opened_by(ix, n, turns, j, h));
    }
    assert forall|i: int, h: Hid|
        k.nodes.len() <= i < n.nodes.len() && #[trigger] placement::stands_for(
            n.nodes[i],
            h,
        ) implies turns.contains_key(h) && turns[h].first_node == i by {
        assert(placement::stands_for(m.nodes[i], h));
    }
    assert(calls_in_turn(ix, k, n, turns)) by {
        reveal(calls_in_turn);
        assert forall|h: Hid, i: int| #[trigger] is_new_call(ix, k, n, h, i) implies {
            &&& k.nodes.len() <= call_place(ix, n, h, i) < n.nodes.len()
            &&& n.entry.contains_key(h)
            &&& is_called_in_turn(ix, n, turns, h, call_place(ix, n, h, i))
        } by {
            assert(is_new_call(ix, l, m, h, i));
            let at = call_place(ix, m, h, i);
            if calls_itself(ix, m, turns, h, at) {
                assert(calls_itself(ix, n, turns, h, at));
            } else {
                let b = choose|b: Hid| #[trigger] calls_for_branch(ix, m, turns, b, h, at);
                assert(calls_for_branch(ix, n, turns, b, h, at));
            }
        }
        assert forall|h: Hid, i: int, j: int|
            #![trigger is_new_call(ix, k, n, h, i), ix.calls(h)[j]]
            is_new_call(ix, k, n, h, i) && 0 <= j < ix.calls(h).len() implies n.calls.contains_key(
            (h, ix.calls(h)[j]),
        ) by {
            assert(is_new_call(ix, l, m, h, i));
        }
        assert forall|h: Hid, i: int, j: int|
            #![trigger is_new_call(ix, k, n, h, i), is_new_call(ix, k, n, h, j)]
            is_new_call(ix, k, n, h, i) && is_new_call(ix, k, n, h, j) && i < j && !ix.calls(
                h,
            ).take(j).contains(ix.calls(h)[j]) implies call_place(ix, n, h, i) < call_place(
            ix,
            n,
            h,
            j,
        ) by {
            assert(is_new_call(ix, l, m, h, i));
            assert(is_new_call(ix, l, m, h, j));
        }
    }
    assert(taken(ix, k, n, turns, roots));
}

/// What is kept of the order below a header as more turns are taken.
proof fn lemma_below_kept(
    ix: IndexView,
    l: Layout,
    m: Layout,
    some: Map<Hid, Turn>,
    all: Map<Hid, Turn>,
    h: Hid,
)
    requires
        some.contains_key(h),
        forall|c: Hid| #[trigger]
            some.contains_key(c) ==> all.contains_key(c) && all[c] == some[c],
        flow::laid_as(ix, m, h) == flow::laid_as(ix, l, h),
        keeps_order_below(ix, l, some, h),
    ensures
        keeps_order_below(ix, m, all, h),
{
    assert forall|c: Hid| #[trigger] comes_with(ix, all[h], h, c) implies all.contains_key(c)
        && lies_within(ix, m, h, all[h], all[c]) by {
        assert(comes_with(ix, some[h], h, c));
    }
    assert forall|c: Hid, d: Hid|
        #![trigger comes_with(ix, all[h], h, c), comes_with(ix, all[h], h, d)]
        comes_with(ix, all[h], h, c) && comes_with(ix, all[h], h, d) && precedes(
            laying_order(ix, m, h),
            c,
            d,
        ) implies ends_before(all[c], all[d]) by {
        assert(comes_with(ix, some[h], h, c));
        assert(comes_with(ix, some[h], h, d));
    }
}

/// A header that is entered stays laid out in the same way.
proof fn lemma_laid_kept(ix: IndexView, show: bool, l: Layout, m: Layout, h: Hid)
    requires
        invariants::sound(ix, show, l),
        invariants::extends(ix, l, m),
        l.entry.contains_key(h),
        m.entry.contains_key(h),
        m.entry[h] == l.entry[h],
    ensures
        flow::laid_as(ix, m, h) == flow::laid_as(ix, l, h),
        l.entry[h]@ < l.nodes.len(),
{
    assert(invariants::is_header_node(l, l.entry[h]));
    assert(m.nodes[l.entry[h]@ as int] == l.nodes[l.entry[h]@ as int]);
}

proof fn lemma_precedes_left(a: Seq<Hid>, b: Seq<Hid>, c: Hid, d: Hid)
    requires
        precedes(a + b, c, d),
    ensures
        precedes(a, c, d) || (precedes(b, c, d) && !a.contains(d)),
{
    let k = choose|k: int|
        0 <= k < (a + b).len() && #[trigger] (a + b)[k] == c && !(a + b).take(k + 1).contains(d);
    let seen = (a + b).take(k + 1);
    if k < a.len() {
        assert(a.take(k + 1) =~= seen);
        assert(a[k] == c);
    } else {
        let j = k - a.len();
        assert(b[j] == c);
        assert(!a.contains(d)) by {
            if a.contains(d) {
                let i = choose|i: int| 0 <= i < a.len() && a[i] == d;
                assert(seen[i] == d);
            }
        }
        assert(!b.take(j + 1).contains(d)) by {
            let part = b.take(j + 1);
            if part.contains(d) {
                let i = choose|i: int| 0 <= i < part.len() && part[i] == d;
                assert(seen[a.len() + i] == d);
            }
        }
    }
}

/// Whether turns of two steps make up those of both.
spec fn put_together(
    a: Layout,
    b: Layout,
    c: Layout,
    x: Map<Hid, Turn>,
    y: Map<Hid, Turn>,
    z: Map<Hid, Turn>,
) -> bool {
    &&& are_new(a, b, x)
    &&& are_new(b, c, y)
    &&& forall|h: Hid| #[trigger]
        z.contains_key(h) <==> x.contains_key(h) || y.contains_key(h)
    &&& forall|h: Hid| #[trigger] x.contains_key(h) ==> z[h] == x[h]
    &&& forall|h: Hid| #[trigger] y.contains_key(h) ==> z[h] == y[h]
}

proof fn lemma_order_together(
    ix: IndexView,
    show: bool,
    a: Layout,
    b: Layout,
    c: Layout,
    x: Map<Hid, Turn>,
    y: Map<Hid, Turn>,
    z: Map<Hid, Turn>,
)
    requires
        put_together(a, b, c, x, y, z),
        keep_order(ix, a, b, x),
        keep_order(ix, b, c, y),
        invariants::sound(ix, show, b),
        invariants::extends(ix, a, b),
        invariants::extends(ix, b, c),
        invariants::keeps_entries(b, c),
    ensures
        keep_order(ix, a, c, z),
{
    reveal(keep_order);
    assert forall|h: Hid| #[trigger] z.contains_key(h) implies {
        &&& lies_between(a, c, z[h])
        &&& begins_itself(ix, c, h, z[h])
        &&& keeps_order_below(ix, c, z, h)
    } by {
        if x.contains_key(h) {
            lemma_laid_kept(ix, show, b, c, h);
            assert(lies_between(a, b, x[h]));
            assert(begins_itself(ix, b, h, x[h]));
            lemma_below_kept(ix, b, c, x, z, h);
        } else {
            assert(y.contains_key(h));
            assert(lies_between(b, c, y[h]));
            assert(begins_itself(ix, c, h, y[h]));
            lemma_below_kept(ix, c, c, y, z, h);
            assert forall|g: Hid| #[trigger] a.entry.contains_key(g) implies z[h].before.contains(
                g,
            ) by {
                assert(b.entry.contains_key(g));
            }
        }
    }
}

proof fn lemma_brought_together(
    ix: IndexView,
    a: Layout,
    b: Layout,
    c: Layout,
    x: Map<Hid, Turn>,
    y: Map<Hid, Turn>,
    z: Map<Hid, Turn>,
    first: Seq<Hid>,
    second: Seq<Hid>,
)
    requires
        put_together(a, b, c, x, y, z),
        are_brought(ix, x, first),
        are_brought(ix, y, second),
    ensures
        are_brought(ix, z, first + second),
{
    reveal(are_brought);
    let roots = first + second;
    assert forall|h: Hid| #[trigger] z.contains_key(h) implies roots.contains(h) || exists|p: Hid|
        #[trigger] brought_by(ix, z, p, h) by {
        vstd::seq_lib::lemma_seq_concat_contains_all_elements(first, second, h);
        if x.contains_key(h) {
            if !first.contains(h) {
                let p = choose|p: Hid| #[trigger] brought_by(ix, x, p, h);
                assert(x.contains_key(p));
                assert(brought_by(ix, z, p, h));
            }
        } else {
            assert(y.contains_key(h));
            if !second.contains(h) {
                let p = choose|p: Hid| #[trigger] brought_by(ix, y, p, h);
                assert(y.contains_key(p));
                assert(brought_by(ix, z, p, h));
            }
        }
    }
}

proof fn lemma_fewer_to_hang_from(
    ix: IndexView,
    some: Map<Hid, Turn>,
    all: Map<Hid, Turn>,
    h: Hid,
)
    requires
        hangs_from_none(ix, all, h),
        forall|p: Hid| #[trigger] some.contains_key(p) ==> all.contains_key(p),
    ensures
        hangs_from_none(ix, some, h),
{
    assert forall|p: Hid| #[trigger] some.contains_key(p) implies !placement::hangs_from(
        ix,
        p,
        h,
    ) by {
        assert(all.contains_key(p));
    }
}

proof fn lemma_in_turn_together(
    ix: IndexView,
    a: Layout,
    b: Layout,
    c: Layout,
    x: Map<Hid, Turn>,
    y: Map<Hid, Turn>,
    z: Map<Hid, Turn>,
    first: Seq<Hid>,
    second: Seq<Hid>,
)
    requires
        put_together(a, b, c, x, y, z),
        keep_order(ix, a, b, x),
        keep_order(ix, b, c, y),
        are_brought(ix, x, first),
        in_turn(ix, x, first),
        in_turn(ix, y, second),
        b.all_entered(first),
    ensures
        in_turn(ix, z, first + second),
{
    reveal(in_turn);
    assert forall|g: Hid, h: Hid|
        #![trigger z[g], z[h]]
        z.contains_key(g) && z.contains_key(h) && precedes(first + second, g, h)
            && hangs_from_none(ix, z, h) implies ends_before(z[g], z[h]) by {
        lemma_precedes_left(first, second, g, h);
        lemma_fewer_to_hang_from(ix, x, z, h);
        lemma_fewer_to_hang_from(ix, y, z, h);
        if precedes(first, g, h) {
            let k = choose|k: int|
                0 <= k < first.len() && #[trigger] first[k] == g && !first.take(k + 1).contains(h);
            assert(b.entry.contains_key(first[k]));
            assert(!y.contains_key(g));
            assert(x.contains_key(g));
            if x.contains_key(h) {
                assert(ends_before(x[g], x[h]));
            } else {
                lemma_apart(ix, a, b, c, x, y, g, h);
            }
        } else {
            if x.contains_key(h) {
                assert(false) by {
                    reveal(are_brought);
                    let p = choose|p: Hid| #[trigger] brought_by(ix, x, p, h);
                    assert(x.contains_key(p));
                }
            }
            if x.contains_key(g) {
                lemma_apart(ix, a, b, c, x, y, g, h);
            } else {
                assert(ends_before(y[g], y[h]));
            }
        }
    }
}

proof fn lemma_apart(
    ix: IndexView,
    a: Layout,
    b: Layout,
    c: Layout,
    x: Map<Hid, Turn>,
    y: Map<Hid, Turn>,
    g: Hid,
    h: Hid,
)
    requires
        keep_order(ix, a, b, x),
        keep_order(ix, b, c, y),
        x.contains_key(g),
        y.contains_key(h),
    ensures
        ends_before(x[g], y[h]),
{
    reveal(keep_order);
    assert(lies_between(a, b, x[g]));
    assert(lies_between(b, c, y[h]));
}

proof fn lemma_begin_together(
    ix: IndexView,
    show: bool,
    a: Layout,
    b: Layout,
    c: Layout,
    x: Map<Hid, Turn>,
    y: Map<Hid, Turn>,
    z: Map<Hid, Turn>,
)
    requires
        put_together(a, b, c, x, y, z),
        nodes_begin_turns(a, b, x),
        nodes_begin_turns(b, c, y),
        clusters_begin_turns(ix, a, b, x),
        clusters_begin_turns(ix, b, c, y),
        invariants::sound(ix, show, b),
        invariants::extends(ix, b, c),
        invariants::keeps_entries(b, c),
    ensures
        nodes_begin_turns(a, c, z),
        clusters_begin_turns(ix, a, c, z),
{
    reveal(nodes_begin_turns);
    reveal(clusters_begin_turns);
    assert forall|i: int, h: Hid|
        a.nodes.len() <= i < c.nodes.len() && #[trigger] placement::stands_for(
            c.nodes[i],
            h,
        ) implies z.contains_key(h) && z[h].first_node == i by {
        if i < b.nodes.len() {
            assert(b.nodes[i] == c.nodes[i]);
            assert(placement::stands_for(b.nodes[i], h));
            assert(x.contains_key(h));
        } else {
            assert(y.contains_key(h));
        }
    }
    assert forall|k: int| a.clusters.len() <= k < c.clusters.len() implies #[trigger] has_opener(
        ix,
        c,
        z,
        k,
    ) by {
        if k < b.clusters.len() {
            assert(has_opener(ix, b, x, k));
            assert(b.clusters[k] == c.clusters[k]);
            let h = choose|h: Hid| #[trigger] opened_by(ix, b, x, k, h);
            assert(x.contains_key(h));
            lemma_laid_kept(ix, show, b, c, h);
            assert(opened_by(ix, c, z, k, h));
        } else {
            assert(has_opener(ix, c, y, k));
            let h = choose|h: Hid| #[trigger] opened_by(ix, c, y, k, h);
            assert(y.contains_key(h));
            assert(opened_by(ix, c, z, k, h));
        }
    }
}

proof fn lemma_called_kept(
    ix: IndexView,
    show: bool,
    k: Layout,
    l: Layout,
    m: Layout,
    some: Map<Hid, Turn>,
    all: Map<Hid, Turn>,
    h: Hid,
    at: int,
)
    requires
        are_new(k, l, some),
        keep_order(ix, k, l, some),
        forall|c: Hid| #[trigger]
            some.contains_key(c) ==> all.contains_key(c) && all[c] == some[c],
        invariants::sound(ix, show, l),
        invariants::extends(ix, l, m),
        invariants::keeps_entries(l, m),
        l.entry.contains_key(h),
        is_called_in_turn(ix, l, some, h, at),
    ensures
        is_called_in_turn(ix, m, all, h, at),
{
    reveal(keep_order);
    lemma_laid_kept(ix, show, l, m, h);
    if calls_itself(ix, l, some, h, at) {
        assert(keeps_order_below(ix, l, some, h));
        assert forall|c: Hid| #[trigger] comes_with(ix, all[h], h, c) implies at
            < all[c].first_node by {
            assert(comes_with(ix, some[h], h, c));
            assert(some.contains_key(c));
        }
        assert(calls_itself(ix, m, all, h, at));
    } else {
        let b = choose|b: Hid| #[trigger] calls_for_branch(ix, l, some, b, h, at);
        assert(some.contains_key(b));
        lemma_laid_kept(ix, show, l, m, b);
        assert(keeps_order_below(ix, l, some, b));
        assert forall|c: Hid| #[trigger] comes_with(ix, all[b], b, c) implies all[c].end_node
            <= at by {
            assert(comes_with(ix, some[b], b, c));
            assert(some.contains_key(c));
        }
        assert(calls_for_branch(ix, m, all, b, h, at));
    }
}

proof fn lemma_calls_together(
    ix: IndexView,
    show: bool,
    a: Layout,
    b: Layout,
    c: Layout,
    x: Map<Hid, Turn>,
    y: Map<Hid, Turn>,
    z: Map<Hid, Turn>,
)
    requires
        put_together(a, b, c, x, y, z),
        keep_order(ix, a, b, x),
        keep_order(ix, b, c, y),
        calls_in_turn(ix, a, b, x),
        calls_in_turn(ix, b, c, y),
        invariants::sound(ix, show, b),
        invariants::sound(ix, show, c),
        invariants::extends(ix, a, b),
        invariants::extends(ix, b, c),
        invariants::keeps_entries(b, c),
    ensures
        calls_in_turn(ix, a, c, z),
{
    reveal(calls_in_turn);
    assert forall|h: Hid, i: int| #[trigger] is_new_call(ix, a, c, h, i) implies is_new_call(
        ix,
        a,
        b,
        h,
        i,
    ) || is_new_call(ix, b, c, h, i) by {}
    assert forall|h: Hid, i: int| #[trigger] is_new_call(ix, a, b, h, i) implies call_place(
        ix,
        c,
        h,
        i,
    ) == call_place(ix, b, h, i) by {}
    assert forall|h: Hid, i: int| #[trigger] is_new_call(ix, a, c, h, i) implies {
        &&& a.nodes.len() <= call_place(ix, c, h, i) < c.nodes.len()
        &&& c.entry.contains_key(h)
        &&& is_called_in_turn(ix, c, z, h, call_place(ix, c, h, i))
    } by {
        if is_new_call(ix, a, b, h, i) {
            lemma_called_kept(ix, show, a, b, c, x, z, h, call_place(ix, b, h, i));
        } else {
            assert(is_new_call(ix, b, c, h, i));
            lemma_called_kept(ix, show, b, c, c, y, z, h, call_place(ix, c, h, i));
        }
    }
    assert forall|h: Hid, i: int, j: int|
        #![trigger is_new_call(ix, a, c, h, i), ix.calls(h)[j]]
        is_new_call(ix, a, c, h, i) && 0 <= j < ix.calls(h).len() implies c.calls.contains_key(
        (h, ix.calls(h)[j]),
    ) by {
        if is_new_call(ix, a, b, h, i) {
            assert(b.calls.contains_key((h, ix.calls(h)[j])));
        } else {
            assert(is_new_call(ix, b, c, h, i));
        }
    }
    assert forall|h: Hid, i: int, j: int|
        #![trigger is_new_call(ix, a, c, h, i), is_new_call(ix, a, c, h, j)]
        is_new_call(ix, a, c, h, i) && is_new_call(ix, a, c, h, j) && i < j && !ix.calls(h).take(
            j,
        ).contains(ix.calls(h)[j]) implies call_place(ix, c, h, i) < call_place(ix, c, h, j) by {
        if is_new_call(ix, a, b, h, i) {
            assert(b.calls.contains_key((h, ix.calls(h)[j])));
            assert(is_new_call(ix, a, b, h, j));
        } else {
            assert(is_new_call(ix, b, c, h, i));
            if is_new_call(ix, a, b, h, j) {
                assert(b.calls.contains_key((h, ix.calls(h)[i])));
            }
            assert(is_new_call(ix, b, c, h, j));
        }
    }
}

/// Turns that are taken one after the other.
pub(crate) proof fn lemma_turns_chain(
    ix: IndexView,
    show: bool,
    a: Layout,
    b: Layout,
    c: Layout,
    first: Seq<Hid>,
    second: Seq<Hid>,
)
    requires
        take_turns(ix, a, b, first),
        take_turns(ix, b, c, second),
        invariants::sound(ix, show, b),
        invariants::sound(ix, show, c),
        invariants::extends(ix, a, b),
        invariants::extends(ix, b, c),
        invariants::keeps_entries(b, c),
    ensures
        take_turns(ix, a, c, first + second),
{
    reveal(take_turns);
    let x = choose|x: Map<Hid, Turn>| taken(ix, a, b, x, first);
    let y = choose|y: Map<Hid, Turn>| taken(ix, b, c, y, second);
    let z = x.union_prefer_right(y);
    let roots = first + second;
    assert(put_together(a, b, c, x, y, z));
    lemma_order_together(ix, show, a, b, c, x, y, z);
    lemma_brought_together(ix, a, b, c, x, y, z, first, second);
    lemma_in_turn_together(ix, a, b, c, x, y, z, first, second);
    lemma_begin_together(ix, show, a, b, c, x, y, z);
    lemma_calls_together(ix, show, a, b, c, x, y, z);
    assert(c.all_entered(roots)) by {
        assert forall|k: int| 0 <= k < roots.len() implies c.entry.contains_key(
            #[trigger] roots[k],
        ) by {
            if k < first.len() {
                assert(b.entry.contains_key(first[k]));
            } else {
                assert(c.entry.contains_key(second[k - first.len()]));
            }
        }
    }
    assert(are_new(a, c, z)) by {
        assert forall|h: Hid| #[trigger] z.contains_key(h) <==> c.entry.contains_key(h)
            && !a.entry.contains_key(h) by {
            if a.entry.contains_key(h) {
                assert(b.entry.contains_key(h));
            }
            if b.entry.contains_key(h) {
                assert(c.entry.contains_key(h));
            }
            assert(x.contains_key(h) <==> b.entry.contains_key(h) && !a.entry.contains_key(h));
            assert(y.contains_key(h) <==> c.entry.contains_key(h) && !b.entry.contains_key(h));
        }
    }
    assert(taken(ix, a, c, z, roots));
}

proof fn lemma_items_of_all(ix: IndexView, scopes: Seq<ScopeId>, c: Hid)
    ensures
        items_of_all(ix, scopes).contains(c) <==> exists|k: int|
            0 <= k < scopes.len() && ix.scope_items(#[trigger] scopes[k]).contains(c),
    decreases scopes.len(),
{
    if scopes.len() > 0 {
        let rest = scopes.drop_first();
        let items = ix.scope_items(scopes[0]);
        lemma_items_of_all(ix, rest, c);
        vstd::seq_lib::lemma_seq_concat_contains_all_elements(items, items_of_all(ix, rest), c);
        if exists|k: int| 0 <= k < rest.len() && ix.scope_items(#[trigger] rest[k]).contains(c) {
            let k = choose|k: int|
                0 <= k < rest.len() && ix.scope_items(#[trigger] rest[k]).contains(c);
            assert(scopes[k + 1] == rest[k]);
        }
        if exists|k: int|
            0 <= k < scopes.len() && ix.scope_items(#[trigger] scopes[k]).contains(c) {
            let k = choose|k: int|
                0 <= k < scopes.len() && ix.scope_items(#[trigger] scopes[k]).contains(c);
            if k > 0 {
                assert(rest[k - 1] == scopes[k]);
            }
        }
    }
}

proof fn lemma_opened_by_all(ix: IndexView, hids: Seq<Hid>, c: Hid)
    ensures
        opened_by_all(ix, hids).contains(c) <==> exists|k: int|
            0 <= k < hids.len() && (#[trigger] hids[k] == c || ix.scope_items(
                ix.scope_of(hids[k]),
            ).contains(c)),
    decreases hids.len(),
{
    if hids.len() > 0 {
        let rest = hids.drop_first();
        let items = ix.scope_items(ix.scope_of(hids[0]));
        let one = seq![hids[0]];
        lemma_opened_by_all(ix, rest, c);
        vstd::seq_lib::lemma_seq_concat_contains_all_elements(items, one, c);
        vstd::seq_lib::lemma_seq_concat_contains_all_elements(
            items + one,
            opened_by_all(ix, rest),
            c,
        );
        assert(one[0] == hids[0]);
        assert(one.contains(c) <==> c == hids[0]);
        if exists|k: int|
            0 <= k < rest.len() && (#[trigger] rest[k] == c || ix.scope_items(
                ix.scope_of(rest[k]),
            ).contains(c)) {
            let k = choose|k: int|
                0 <= k < rest.len() && (#[trigger] rest[k] == c || ix.scope_items(
                    ix.scope_of(rest[k]),
                ).contains(c));
            assert(hids[k + 1] == rest[k]);
        }
        if exists|k: int|
            0 <= k < hids.len() && (#[trigger] hids[k] == c || ix.scope_items(
                ix.scope_of(hids[k]),
            ).contains(c)) {
            let k = choose|k: int|
                0 <= k < hids.len() && (#[trigger] hids[k] == c || ix.scope_items(
                    ix.scope_of(hids[k]),
                ).contains(c));
            if k > 0 {
                assert(rest[k - 1] == hids[k]);
            }
        }
    }
}

/// The laying order lists what hangs from a header.
proof fn lemma_laying_order(ix: IndexView, l: Layout, h: Hid, c: Hid)
    ensures
        laying_order(ix, l, h).contains(c) <==> placement::hangs_from(ix, h, c),
{
    let nested = ix.nested_children(h);
    let md = ix.md_children(h);
    let spans = merge::spans_of(ix);
    let all = flow::children_in_order(ix, h);
    let scopes = nested.map_values(|n: Hid| ix.scope_of(n));
    lemma_items_of_all(ix, scopes, c);
    lemma_opened_by_all(ix, nested, c);
    vstd::seq_lib::lemma_seq_concat_contains_all_elements(items_of_all(ix, scopes), all, c);
    vstd::seq_lib::lemma_seq_concat_contains_all_elements(opened_by_all(ix, nested), md, c);
    merge::lemma_merged_keeps(spans, md, nested);
    assert(all.contains(c) <==> md.contains(c) || nested.contains(c)) by {
        if all.contains(c) {
            let i = choose|i: int| 0 <= i < all.len() && all[i] == c;
            merge::lemma_merged_member(spans, md, nested, i);
        }
        if md.contains(c) {
            let i = choose|i: int| 0 <= i < md.len() && md[i] == c;
            assert(all.contains(md[i]));
        }
        if nested.contains(c) {
            let i = choose|i: int| 0 <= i < nested.len() && nested[i] == c;
            assert(all.contains(nested[i]));
        }
    }
    if exists|n: Hid| #[trigger]
        nested.contains(n) && ix.scope_items(ix.scope_of(n)).contains(c) {
        let n = choose|n: Hid| #[trigger]
            nested.contains(n) && ix.scope_items(ix.scope_of(n)).contains(c);
        let k = choose|k: int| 0 <= k < nested.len() && nested[k] == n;
        assert(scopes[k] == ix.scope_of(n));
        assert(nested[k] == n);
    }
    if exists|k: int| 0 <= k < scopes.len() && ix.scope_items(#[trigger] scopes[k]).contains(c) {
        let k = choose|k: int|
            0 <= k < scopes.len() && ix.scope_items(#[trigger] scopes[k]).contains(c);
        assert(nested.contains(nested[k]));
    }
    if exists|k: int|
        0 <= k < nested.len() && (#[trigger] nested[k] == c || ix.scope_items(
            ix.scope_of(nested[k]),
        ).contains(c)) {
        let k = choose|k: int|
            0 <= k < nested.len() && (#[trigger] nested[k] == c || ix.scope_items(
                ix.scope_of(nested[k]),
            ).contains(c));
        assert(nested.contains(nested[k]));
    }
    if nested.contains(c) {
        let k = choose|k: int| 0 <= k < nested.len() && nested[k] == c;
        assert(nested[k] == c);
    }
}

/// The turn of a header: it begins with what it adds itself, then all that hangs from
/// it takes its turn, and it ends with what completes it.
pub(crate) proof fn lemma_turn(
    ix: IndexView,
    show: bool,
    l: Layout,
    begun: Layout,
    below: Layout,
    m: Layout,
    hid: Hid,
)
    requires
        ix.header(hid) is Some,
        !l.entry.contains_key(hid),
        !placement::hangs_from(ix, hid, hid),
        forall|h: Hid| #[trigger]
            begun.entry.contains_key(h) && h != hid ==> l.entry.contains_key(h),
        forall|h: Hid| #[trigger] l.entry.contains_key(h) ==> begun.entry.contains_key(h),
        begun.entry.contains_key(hid) || !below.entry.contains_key(hid),
        m.entry.contains_key(hid),
        forall|h: Hid| #[trigger]
            m.entry.contains_key(h) && h != hid ==> below.entry.contains_key(h),
        invariants::keeps_entries(below, m),
        invariants::sound(ix, show, below),
        invariants::extends(ix, begun, below),
        invariants::extends(ix, below, m),
        l.nodes.len() <= begun.nodes.len(),
        forall|i: int, h: Hid|
            l.nodes.len() <= i < begun.nodes.len() && #[trigger] placement::stands_for(
                m.nodes[i],
                h,
            ) ==> h == hid && i == l.nodes.len(),
        forall|i: int, h: Hid|
            below.nodes.len() <= i < m.nodes.len() ==> !(#[trigger] placement::stands_for(
                m.nodes[i],
                h,
            )),
        flow::laid_as(ix, m, hid) != Shape::Container ==> {
            &&& l.nodes.len() < begun.nodes.len()
            &&& placement::stands_for(m.nodes[l.nodes.len() as int], hid)
        },
        m.clusters.len() == below.clusters.len(),
        opens(ix, m, hid) ==> {
            &&& begun.clusters.len() == l.clusters.len() + 1
            &&& m.clusters[l.clusters.len() as int].label == ix.header(hid)->0.title
        },
        !opens(ix, m, hid) ==> begun.clusters.len() == l.clusters.len(),
        flow::laid_as(ix, m, hid) == Shape::Branch ==> m.nodes[l.nodes.len() as int].cluster
            == Some(ClusterId::nth(l.clusters.len())),
        take_turns(ix, begun, below, laying_order(ix, m, hid)),
        invariants::sound(ix, show, m),
        invariants::extends(ix, l, begun),
        adds_own_calls(ix, l, begun, m, hid),
        adds_branch_calls(ix, l, below, m, hid),
    ensures
        take_turns(ix, l, m, seq![hid]),
{
    reveal(take_turns);
    let list = laying_order(ix, m, hid);
    let x = choose|x: Map<Hid, Turn>| taken(ix, begun, below, x, list);
    let own = Turn {
        first_node: l.nodes.len() as int,
        end_node: m.nodes.len() as int,
        first_cluster: l.clusters.len() as int,
        end_cluster: m.clusters.len() as int,
        before: l.entry.dom(),
    };
    let z = x.insert(hid, own);
    let roots = seq![hid];
    assert(!x.contains_key(hid));
    assert forall|h: Hid| #[trigger] x.contains_key(h) implies z.contains_key(h) && z[h] == x[h] by {}
    assert forall|h: Hid| #[trigger] z.contains_key(h) <==> m.entry.contains_key(h)
        && !l.entry.contains_key(h) by {
        if h != hid {
            if below.entry.contains_key(h) {
                assert(m.entry.contains_key(h));
            }
            if l.entry.contains_key(h) {
                assert(begun.entry.contains_key(h));
            }
            if begun.entry.contains_key(h) {
                assert(l.entry.contains_key(h));
            }
            assert(x.contains_key(h) <==> below.entry.contains_key(h)
                && !begun.entry.contains_key(h));
        }
    }
    lemma_turn_order(ix, show, l, begun, below, m, hid, x, own);
    lemma_turn_brought(ix, l, begun, below, m, hid, x, own);
    assert(nodes_begin_turns(l, m, z)) by {
        reveal(nodes_begin_turns);
        assert forall|i: int, h: Hid|
            l.nodes.len() <= i < m.nodes.len() && #[trigger] placement::stands_for(
                m.nodes[i],
                h,
            ) implies z.contains_key(h) && z[h].first_node == i by {
            if begun.nodes.len() <= i < below.nodes.len() {
                assert(below.nodes[i] == m.nodes[i]);
                assert(placement::stands_for(below.nodes[i], h));
                assert(x.contains_key(h));
            }
        }
    }
    assert(clusters_begin_turns(ix, l, m, z)) by {
        reveal(clusters_begin_turns);
        assert forall|k: int|
            l.clusters.len() <= k < m.clusters.len() implies #[trigger] has_opener(
            ix,
            m,
            z,
            k,
        ) by {
            if k < begun.clusters.len() {
                assert(opened_by(ix, m, z, k, hid));
            } else {
                assert(has_opener(ix, below, x, k));
                assert(below.clusters[k] == m.clusters[k]);
                let h = choose|h: Hid| #[trigger] opened_by(ix, below, x, k, h);
                assert(x.contains_key(h));
                assert(below.entry.contains_key(h));
                lemma_laid_kept(ix, show, below, m, h);
                assert(opened_by(ix, m, z, k, h));
            }
        }
    }
    assert(m.all_entered(roots));
    lemma_turn_calls(ix, show, l, begun, below, m, hid, x, own);
    assert(taken(ix, l, m, z, roots));
}

/// Whether only calls of a header itself get nodes as it begins, right behind its own,
/// all of them and in order.
pub(crate) open spec fn adds_own_calls(
    ix: IndexView,
    l: Layout,
    begun: Layout,
    m: Layout,
    hid: Hid,
) -> bool {
    &&& forall|h: Hid, i: int| #[trigger]
        is_new_call(ix, l, begun, h, i) ==> {
            &&& h == hid
            &&& l.nodes.len() < call_place(ix, begun, h, i) < begun.nodes.len()
            &&& flow::laid_as(ix, m, hid) == Shape::Leaf || flow::laid_as(ix, m, hid)
                == Shape::Branch
        }
    &&& calls_come_in_order(ix, l, begun)
}

/// Whether only calls of branches get nodes as a header is completed, all of them and
/// in order.
pub(crate) open spec fn adds_branch_calls(
    ix: IndexView,
    l: Layout,
    below: Layout,
    m: Layout,
    hid: Hid,
) -> bool {
    &&& forall|h: Hid, i: int| #[trigger]
        is_new_call(ix, below, m, h, i) ==> {
            &&& below.nodes.len() <= call_place(ix, m, h, i) < m.nodes.len()
            &&& (h == hid && flow::laid_as(ix, m, hid) == Shape::Leaf) || {
                &&& flow::laid_as(ix, m, hid) == Shape::Branch
                &&& ix.nested_children(hid).contains(h)
                &&& m.entry.contains_key(h)
                &&& flow::laid_as(ix, m, h) == Shape::Leaf || flow::laid_as(ix, m, h)
                    == Shape::Branch ==> l.entry.contains_key(h)
            }
        }
    &&& calls_come_in_order(ix, below, m)
}

/// Whether calls of a header get their nodes at once and in order.
pub(crate) open spec fn calls_come_in_order(ix: IndexView, l: Layout, m: Layout) -> bool {
    &&& forall|h: Hid, i: int, j: int|
        #![trigger is_new_call(ix, l, m, h, i), ix.calls(h)[j]]
        is_new_call(ix, l, m, h, i) && 0 <= j < ix.calls(h).len() ==> m.calls.contains_key(
            (h, ix.calls(h)[j]),
        )
    &&& forall|h: Hid, i: int, j: int|
        #![trigger is_new_call(ix, l, m, h, i), is_new_call(ix, l, m, h, j)]
        is_new_call(ix, l, m, h, i) && is_new_call(ix, l, m, h, j) && i < j && !ix.calls(h).take(
            j,
        ).contains(ix.calls(h)[j]) ==> call_place(ix, m, h, i) < call_place(ix, m, h, j)
}

proof fn lemma_turn_calls(
    ix: IndexView,
    show: bool,
    l: Layout,
    begun: Layout,
    below: Layout,
    m: Layout,
    hid: Hid,
    x: Map<Hid, Turn>,
    own: Turn,
)
    requires
        taken(ix, begun, below, x, laying_order(ix, m, hid)),
        keep_order(ix, l, m, x.insert(hid, own)),
        !x.contains_key(hid),
        !l.entry.contains_key(hid),
        m.entry.contains_key(hid),
        invariants::keeps_entries(below, m),
        invariants::sound(ix, show, below),
        invariants::sound(ix, show, m),
        invariants::extends(ix, l, begun),
        invariants::extends(ix, begun, below),
        invariants::extends(ix, below, m),
        flow::laid_as(ix, m, hid) != Shape::Container ==> l.nodes.len() < begun.nodes.len(),
        own.first_node == l.nodes.len(),
        own.end_node == m.nodes.len(),
        own.before == l.entry.dom(),
        adds_own_calls(ix, l, begun, m, hid),
        adds_branch_calls(ix, l, below, m, hid),
    ensures
        calls_in_turn(ix, l, m, x.insert(hid, own)),
{
    reveal(calls_in_turn);
    let z = x.insert(hid, own);
    assert forall|c: Hid| #[trigger] comes_with(ix, own, hid, c) implies begun.nodes.len()
        <= z[c].first_node && z[c].end_node <= below.nodes.len() by {
        lemma_within_below(ix, l, begun, below, m, hid, x, own, c);
    }
    assert forall|h: Hid, i: int| #[trigger] is_new_call(ix, l, m, h, i) implies {
        &&& is_new_call(ix, l, begun, h, i) || is_new_call(ix, begun, below, h, i) || is_new_call(
            ix,
            below,
            m,
            h,
            i,
        )
        &&& is_new_call(ix, l, begun, h, i) ==> call_place(ix, m, h, i) == call_place(
            ix,
            begun,
            h,
            i,
        )
        &&& is_new_call(ix, begun, below, h, i) ==> call_place(ix, m, h, i) == call_place(
            ix,
            below,
            h,
            i,
        )
    } by {
        let k = (h, ix.calls(h)[i]);
        if begun.calls.contains_key(k) {
            assert(below.calls.contains_key(k));
        }
    }
    assert forall|h: Hid, i: int| #[trigger] is_new_call(ix, l, m, h, i) implies {
        &&& l.nodes.len() <= call_place(ix, m, h, i) < m.nodes.len()
        &&& m.entry.contains_key(h)
        &&& is_called_in_turn(ix, m, z, h, call_place(ix, m, h, i))
    } by {
        let at = call_place(ix, m, h, i);
        if is_new_call(ix, l, begun, h, i) {
            assert(calls_itself(ix, m, z, h, at));
        } else if is_new_call(ix, begun, below, h, i) {
            assert(keep_order(ix, begun, below, x));
            lemma_called_kept(ix, show, begun, below, m, x, z, h, at);
        } else {
            assert(is_new_call(ix, below, m, h, i));
            if h == hid && flow::laid_as(ix, m, hid) == Shape::Leaf {
                assert forall|c: Hid| #[trigger] comes_with(ix, z[hid], hid, c) implies at
                    < z[c].first_node by {
                    lemma_laying_order(ix, m, hid, c);
                    assert(laying_order(ix, m, hid) =~= seq![]);
                }
                assert(calls_itself(ix, m, z, h, at));
            } else {
                assert(calls_for_branch(ix, m, z, hid, h, at));
            }
        }
    }
    assert forall|h: Hid, i: int, j: int|
        #![trigger is_new_call(ix, l, m, h, i), ix.calls(h)[j]]
        is_new_call(ix, l, m, h, i) && 0 <= j < ix.calls(h).len() implies m.calls.contains_key(
        (h, ix.calls(h)[j]),
    ) by {
        let k = (h, ix.calls(h)[j]);
        if is_new_call(ix, l, begun, h, i) {
            assert(begun.calls.contains_key(k));
            assert(below.calls.contains_key(k));
        } else if is_new_call(ix, begun, below, h, i) {
            assert(below.calls.contains_key(k));
        } else {
            assert(is_new_call(ix, below, m, h, i));
        }
    }
    assert forall|h: Hid, i: int, j: int|
        #![trigger is_new_call(ix, l, m, h, i), is_new_call(ix, l, m, h, j)]
        is_new_call(ix, l, m, h, i) && is_new_call(ix, l, m, h, j) && i < j && !ix.calls(h).take(
            j,
        ).contains(ix.calls(h)[j]) implies call_place(ix, m, h, i) < call_place(ix, m, h, j) by {
        let (a, b) = ((h, ix.calls(h)[i]), (h, ix.calls(h)[j]));
        if is_new_call(ix, l, begun, h, i) {
            assert(begun.calls.contains_key(b));
            assert(is_new_call(ix, l, begun, h, j));
        } else if is_new_call(ix, l, begun, h, j) {
            assert(begun.calls.contains_key(a));
            assert(is_new_call(ix, l, begun, h, i));
        } else if is_new_call(ix, begun, below, h, i) {
            assert(below.calls.contains_key(b));
            assert(is_new_call(ix, begun, below, h, j));
        } else if is_new_call(ix, begun, below, h, j) {
            assert(below.calls.contains_key(a));
            assert(is_new_call(ix, begun, below, h, i));
        } else {
            assert(is_new_call(ix, below, m, h, i));
            assert(is_new_call(ix, below, m, h, j));
        }
    }
}

/// What comes with a header has its nodes among those that are added below it.
proof fn lemma_within_below(
    ix: IndexView,
    l: Layout,
    begun: Layout,
    below: Layout,
    m: Layout,
    hid: Hid,
    x: Map<Hid, Turn>,
    own: Turn,
    c: Hid,
)
    requires
        keep_order(ix, begun, below, x),
        keep_order(ix, l, m, x.insert(hid, own)),
        comes_with(ix, own, hid, c),
        !x.contains_key(hid),
        flow::laid_as(ix, m, hid) != Shape::Container ==> l.nodes.len() < begun.nodes.len(),
        own.first_node == l.nodes.len(),
    ensures
        begun.nodes.len() <= x.insert(hid, own)[c].first_node,
        x.insert(hid, own)[c].end_node <= below.nodes.len(),
{
    reveal(keep_order);
    let z = x.insert(hid, own);
    assert(z.contains_key(hid));
    assert(keeps_order_below(ix, m, z, hid));
    assert(comes_with(ix, z[hid], hid, c));
    assert(z.contains_key(c));
    if c == hid {
        assert(lies_within(ix, m, hid, z[hid], z[hid]));
        assert(flow::laid_as(ix, m, hid) == Shape::Container);
        assert(opens(ix, m, hid));
    }
    assert(x.contains_key(c));
    assert(lies_between(begun, below, x[c]));
}

/// How linking the calls of a header adds nodes.
pub(crate) proof fn lemma_new_calls(
    ix: IndexView,
    l: Layout,
    hid: Hid,
    callees: Seq<Seq<char>>,
    rep: NodeId,
    cluster: Option<ClusterId>,
)
    requires
        model::place_calls(l, hid, callees, rep, cluster) is Some,
    ensures
        ({
            let m = model::place_calls(l, hid, callees, rep, cluster)->0;
            &&& l.nodes.len() <= m.nodes.len()
            &&& forall|k: (Hid, Seq<char>)| #[trigger]
                m.calls.contains_key(k) && !l.calls.contains_key(k) ==> {
                    &&& k.0 == hid
                    &&& callees.contains(k.1)
                    &&& l.nodes.len() <= m.calls[k]@ < m.nodes.len()
                }
            &&& forall|k: (Hid, Seq<char>)| #[trigger]
                l.calls.contains_key(k) ==> m.calls.contains_key(k) && m.calls[k] == l.calls[k]
            &&& forall|i: int|
                0 <= i < callees.len() ==> m.calls.contains_key((hid, #[trigger] callees[i]))
            &&& forall|i: int, j: int|
                0 <= i < j < callees.len() && !l.calls.contains_key((hid, #[trigger] callees[i]))
                    && !l.calls.contains_key((hid, #[trigger] callees[j])) && !callees.take(
                    j,
                ).contains(callees[j]) ==> m.calls[(hid, callees[i])]@ < m.calls[(
                    hid,
                    callees[j],
                )]@
        }),
    decreases callees.len(),
{
    broadcast use ids::lemma_node_nth;

    if callees.len() > 0 {
        let n = model::place_call(l, hid, callees[0], rep, cluster)->0;
        let rest = callees.drop_first();
        let m = model::place_calls(n, hid, rest, rep, cluster)->0;
        let first = (hid, callees[0]);
        lemma_new_calls(ix, n, hid, rest, rep, cluster);
        assert(n.calls.contains_key(first));
        assert forall|k: (Hid, Seq<char>)| #[trigger]
            l.calls.contains_key(k) implies m.calls.contains_key(k) && m.calls[k] == l.calls[k] by {
            assert(n.calls.contains_key(k));
        }
        assert forall|k: (Hid, Seq<char>)| #[trigger]
            m.calls.contains_key(k) && !l.calls.contains_key(k) implies {
            &&& k.0 == hid
            &&& callees.contains(k.1)
            &&& l.nodes.len() <= m.calls[k]@ < m.nodes.len()
        } by {
            if n.calls.contains_key(k) {
                assert(k == first);
                assert(callees[0] == k.1);
            } else {
                assert(rest.contains(k.1));
                let i = choose|i: int| 0 <= i < rest.len() && rest[i] == k.1;
                assert(callees[i + 1] == k.1);
            }
        }
        assert forall|i: int| 0 <= i < callees.len() implies m.calls.contains_key(
            (hid, #[trigger] callees[i]),
        ) by {
            if i > 0 {
                assert(m.calls.contains_key((hid, rest[i - 1])));
            }
        }
        assert forall|i: int, j: int|
            0 <= i < j < callees.len() && !l.calls.contains_key((hid, #[trigger] callees[i]))
                && !l.calls.contains_key((hid, #[trigger] callees[j])) && !callees.take(j).contains(
                callees[j],
            ) implies m.calls[(hid, callees[i])]@ < m.calls[(hid, callees[j])]@ by {
            let (a, b) = ((hid, callees[i]), (hid, callees[j]));
            assert(callees.take(j)[0] == callees[0]);
            assert(callees[j] != callees[0]);
            assert(!n.calls.contains_key(b));
            assert(m.calls.contains_key((hid, rest[j - 1])));
            if a == first {
                assert(m.calls[first] == n.calls[first]);
            } else {
                assert(i > 0);
                assert(!n.calls.contains_key(a));
                assert(rest[i - 1] == callees[i] && rest[j - 1] == callees[j]);
                let (more, less) = (callees.take(j), rest.take(j - 1));
                assert(!less.contains(callees[j])) by {
                    if less.contains(callees[j]) {
                        let q = choose|q: int| 0 <= q < less.len() && less[q] == callees[j];
                        assert(more[q + 1] == callees[j]);
                    }
                }
            }
        }
    }
}

/// How showing the calls of a header adds nodes.
pub(crate) proof fn lemma_new_calls_shown(
    ix: IndexView,
    show: bool,
    l: Layout,
    m: Layout,
    hid: Hid,
    rep: NodeId,
    cluster: Option<ClusterId>,
)
    requires
        model::show_calls(ix, show, l, hid, rep, cluster) == Some(m),
    ensures
        l.nodes.len() <= m.nodes.len(),
        forall|h: Hid, i: int| #[trigger]
            is_new_call(ix, l, m, h, i) ==> h == hid && l.nodes.len() <= call_place(ix, m, h, i)
                < m.nodes.len(),
        calls_come_in_order(ix, l, m),
{
    if show {
        lemma_new_calls(ix, l, hid, ix.calls(hid), rep, cluster);
    }
    assert forall|h: Hid, i: int| #[trigger] is_new_call(ix, l, m, h, i) implies h == hid
        && l.nodes.len() <= call_place(ix, m, h, i) < m.nodes.len() by {
        let k = (h, ix.calls(h)[i]);
        assert(m.calls.contains_key(k));
    }
    assert forall|h: Hid, i: int, j: int|
        #![trigger is_new_call(ix, l, m, h, i), is_new_call(ix, l, m, h, j)]
        is_new_call(ix, l, m, h, i) && is_new_call(ix, l, m, h, j) && i < j && !ix.calls(h).take(
            j,
        ).contains(ix.calls(h)[j]) implies call_place(ix, m, h, i) < call_place(ix, m, h, j) by {
        assert(h == hid);
        assert(!l.calls.contains_key((hid, ix.calls(hid)[i])));
        assert(!l.calls.contains_key((hid, ix.calls(hid)[j])));
    }
}

/// How linking the calls of several headers adds nodes.
pub(crate) proof fn lemma_new_calls_of_all(
    ix: IndexView,
    l: Layout,
    hids: Seq<Hid>,
    cluster: Option<ClusterId>,
)
    requires
        model::show_calls_of_all(ix, l, hids, cluster) is Some,
    ensures
        ({
            let m = model::show_calls_of_all(ix, l, hids, cluster)->0;
            &&& l.nodes.len() <= m.nodes.len()
            &&& forall|h: Hid, i: int| #[trigger]
                is_new_call(ix, l, m, h, i) ==> hids.contains(h) && l.nodes.len() <= call_place(
                    ix,
                    m,
                    h,
                    i,
                ) < m.nodes.len()
            &&& calls_come_in_order(ix, l, m)
            &&& forall|k: (Hid, Seq<char>)| #[trigger]
                l.calls.contains_key(k) ==> m.calls.contains_key(k) && m.calls[k] == l.calls[k]
        }),
    decreases hids.len(),
{
    if hids.len() > 0 {
        let first = hids[0];
        let rest = hids.drop_first();
        let n = model::place_calls(l, first, ix.calls(first), l.entry[first], cluster)->0;
        let m = model::show_calls_of_all(ix, n, rest, cluster)->0;
        lemma_new_calls(ix, l, first, ix.calls(first), l.entry[first], cluster);
        lemma_new_calls_of_all(ix, n, rest, cluster);
        assert forall|k: (Hid, Seq<char>)| #[trigger]
            l.calls.contains_key(k) implies m.calls.contains_key(k) && m.calls[k] == l.calls[k] by {
            assert(n.calls.contains_key(k));
        }
        assert forall|h: Hid, i: int| #[trigger] is_new_call(ix, l, m, h, i) implies {
            let k = (h, ix.calls(h)[i]);
            ||| is_new_call(ix, n, m, h, i)
            ||| h == first && n.calls.contains_key(k) && m.calls[k] == n.calls[k]
        } by {
            let k = (h, ix.calls(h)[i]);
            if n.calls.contains_key(k) {
                assert(k.0 == first);
            }
        }
        assert forall|h: Hid, i: int| #[trigger] is_new_call(ix, l, m, h, i) implies hids.contains(
            h,
        ) && l.nodes.len() <= call_place(ix, m, h, i) < m.nodes.len() by {
            let k = (h, ix.calls(h)[i]);
            if is_new_call(ix, n, m, h, i) {
                let q = choose|q: int| 0 <= q < rest.len() && rest[q] == h;
                assert(hids[q + 1] == h);
            } else {
                assert(n.calls.contains_key(k));
                assert(hids[0] == h);
            }
        }
        assert forall|h: Hid, i: int, j: int|
            #![trigger is_new_call(ix, l, m, h, i), ix.calls(h)[j]]
            is_new_call(ix, l, m, h, i) && 0 <= j < ix.calls(h).len() implies m.calls.contains_key(
            (h, ix.calls(h)[j]),
        ) by {
            if !is_new_call(ix, n, m, h, i) {
                assert(n.calls.contains_key((first, ix.calls(first)[j])));
            }
        }
        assert forall|h: Hid, i: int, j: int|
            #![trigger is_new_call(ix, l, m, h, i), is_new_call(ix, l, m, h, j)]
            is_new_call(ix, l, m, h, i) && is_new_call(ix, l, m, h, j) && i < j && !ix.calls(
                h,
            ).take(j).contains(ix.calls(h)[j]) implies call_place(ix, m, h, i) < call_place(
            ix,
            m,
            h,
            j,
        ) by {
            if h == first {
                let (a, b) = ((first, ix.calls(first)[i]), (first, ix.calls(first)[j]));
                assert(n.calls.contains_key(a));
                assert(n.calls.contains_key(b));
                assert(m.calls[a] == n.calls[a] && m.calls[b] == n.calls[b]);
                assert(!l.calls.contains_key(a) && !l.calls.contains_key(b));
            } else {
                assert(is_new_call(ix, n, m, h, i));
                assert(is_new_call(ix, n, m, h, j));
            }
        }
    }
}

proof fn lemma_turn_order(
    ix: IndexView,
    show: bool,
    l: Layout,
    begun: Layout,
    below: Layout,
    m: Layout,
    hid: Hid,
    x: Map<Hid, Turn>,
    own: Turn,
)
    requires
        taken(ix, begun, below, x, laying_order(ix, m, hid)),
        !x.contains_key(hid),
        !placement::hangs_from(ix, hid, hid),
        forall|h: Hid| #[trigger]
            begun.entry.contains_key(h) && h != hid ==> l.entry.contains_key(h),
        forall|h: Hid| #[trigger] l.entry.contains_key(h) ==> begun.entry.contains_key(h),
        invariants::keeps_entries(below, m),
        invariants::sound(ix, show, below),
        invariants::extends(ix, begun, below),
        invariants::extends(ix, below, m),
        l.nodes.len() <= begun.nodes.len(),
        m.clusters.len() == below.clusters.len(),
        l.clusters.len() <= begun.clusters.len(),
        flow::laid_as(ix, m, hid) != Shape::Container ==> {
            &&& l.nodes.len() < begun.nodes.len()
            &&& placement::stands_for(m.nodes[l.nodes.len() as int], hid)
        },
        opens(ix, m, hid) ==> begun.clusters.len() == l.clusters.len() + 1,
        flow::laid_as(ix, m, hid) == Shape::Branch ==> m.nodes[l.nodes.len() as int].cluster
            == Some(ClusterId::nth(l.clusters.len())),
        own.first_node == l.nodes.len(),
        own.end_node == m.nodes.len(),
        own.first_cluster == l.clusters.len(),
        own.end_cluster == m.clusters.len(),
        own.before == l.entry.dom(),
    ensures
        keep_order(ix, l, m, x.insert(hid, own)),
{
    reveal(keep_order);
    let z = x.insert(hid, own);
    lemma_own_order(ix, l, begun, below, m, hid, x, own);
    assert forall|h: Hid| #[trigger] z.contains_key(h) implies {
        &&& lies_between(l, m, z[h])
        &&& begins_itself(ix, m, h, z[h])
        &&& keeps_order_below(ix, m, z, h)
    } by {
        if h != hid {
            assert(x.contains_key(h));
            assert(below.entry.contains_key(h));
            assert(lies_between(begun, below, x[h]));
            assert(begins_itself(ix, below, h, x[h]));
            lemma_laid_kept(ix, show, below, m, h);
            lemma_below_kept(ix, below, m, x, z, h);
            assert forall|g: Hid| #[trigger] l.entry.contains_key(g) implies z[h].before.contains(
                g,
            ) by {
                assert(begun.entry.contains_key(g));
            }
        }
    }
}

proof fn lemma_turn_brought(
    ix: IndexView,
    l: Layout,
    begun: Layout,
    below: Layout,
    m: Layout,
    hid: Hid,
    x: Map<Hid, Turn>,
    own: Turn,
)
    requires
        are_new(begun, below, x),
        are_brought(ix, x, laying_order(ix, m, hid)),
        !x.contains_key(hid),
        forall|h: Hid| #[trigger] l.entry.contains_key(h) ==> begun.entry.contains_key(h),
        own.before == l.entry.dom(),
    ensures
        are_brought(ix, x.insert(hid, own), seq![hid]),
        in_turn(ix, x.insert(hid, own), seq![hid]),
{
    reveal(are_brought);
    reveal(in_turn);
    let list = laying_order(ix, m, hid);
    let z = x.insert(hid, own);
    let roots = seq![hid];
    assert(roots[0] == hid);
    assert forall|c: Hid| #[trigger] z.contains_key(c) implies roots.contains(c) || exists|p: Hid|
        #[trigger] brought_by(ix, z, p, c) by {
        if c != hid {
            assert(x.contains_key(c));
            if list.contains(c) {
                lemma_laying_order(ix, m, hid, c);
                assert(!l.entry.contains_key(c));
                assert(brought_by(ix, z, hid, c));
            } else {
                let p = choose|p: Hid| #[trigger] brought_by(ix, x, p, c);
                assert(x.contains_key(p));
                assert(brought_by(ix, z, p, c));
            }
        }
    }
    assert forall|c: Hid, d: Hid|
        #![trigger z[c], z[d]]
        z.contains_key(c) && z.contains_key(d) && precedes(roots, c, d) && hangs_from_none(
            ix,
            z,
            d,
        ) implies ends_before(z[c], z[d]) by {
        let k = choose|k: int|
            0 <= k < roots.len() && #[trigger] roots[k] == c && !roots.take(k + 1).contains(d);
        let seen = roots.take(k + 1);
        assert(seen[0] == hid);
        assert(d != hid);
        assert(!roots.contains(d));
        let p = choose|p: Hid| #[trigger] brought_by(ix, z, p, d);
        assert(z.contains_key(p));
        assert(false);
    }
}

/// The order of what hangs from a header itself.
proof fn lemma_own_order(
    ix: IndexView,
    l: Layout,
    begun: Layout,
    below: Layout,
    m: Layout,
    hid: Hid,
    x: Map<Hid, Turn>,
    own: Turn,
)
    requires
        taken(ix, begun, below, x, laying_order(ix, m, hid)),
        !x.contains_key(hid),
        !placement::hangs_from(ix, hid, hid),
        forall|h: Hid| #[trigger]
            begun.entry.contains_key(h) && h != hid ==> l.entry.contains_key(h),
        l.nodes.len() <= begun.nodes.len(),
        below.nodes.len() <= m.nodes.len(),
        m.clusters.len() == below.clusters.len(),
        l.clusters.len() <= begun.clusters.len(),
        flow::laid_as(ix, m, hid) != Shape::Container ==> l.nodes.len() < begun.nodes.len(),
        opens(ix, m, hid) ==> begun.clusters.len() == l.clusters.len() + 1,
        own.first_node == l.nodes.len(),
        own.end_node == m.nodes.len(),
        own.first_cluster == l.clusters.len(),
        own.end_cluster == m.clusters.len(),
        own.before == l.entry.dom(),
    ensures
        keeps_order_below(ix, m, x.insert(hid, own), hid),
{
    reveal(keep_order);
    reveal(in_turn);
    let list = laying_order(ix, m, hid);
    let z = x.insert(hid, own);
    assert forall|c: Hid| #[trigger] comes_with(ix, own, hid, c) implies c != hid
        && x.contains_key(c) && z[c] == x[c] by {
        assert(placement::hangs_from(ix, hid, c));
        lemma_laying_order(ix, m, hid, c);
        let k = choose|k: int| 0 <= k < list.len() && list[k] == c;
        assert(below.entry.contains_key(list[k]));
        assert(!l.entry.contains_key(c));
        if begun.entry.contains_key(c) {
            assert(l.entry.contains_key(c));
        }
    }
    assert forall|c: Hid| #[trigger] comes_with(ix, z[hid], hid, c) implies z.contains_key(c)
        && lies_within(ix, m, hid, z[hid], z[c]) by {
        assert(comes_with(ix, own, hid, c));
        assert(lies_between(begun, below, x[c]));
    }
    assert forall|c: Hid, d: Hid|
        #![trigger comes_with(ix, z[hid], hid, c), comes_with(ix, z[hid], hid, d)]
        comes_with(ix, z[hid], hid, c) && comes_with(ix, z[hid], hid, d) && precedes(
            list,
            c,
            d,
        ) implies ends_before(z[c], z[d]) by {
        assert(comes_with(ix, own, hid, c));
        assert(comes_with(ix, own, hid, d));
        assert(hangs_from_none(ix, x, d)) by {
            assert forall|p: Hid| #[trigger] x.contains_key(p) implies !placement::hangs_from(
                ix,
                p,
                d,
            ) by {
                if placement::hangs_from(ix, p, d) {
                    assert(p == hid);
                }
            }
        }
        assert(ends_before(x[c], x[d]));
    }
}

/// Linking calls adds no node that stands for a header.
pub(crate) proof fn lemma_only_calls(
    l: Layout,
    hid: Hid,
    callees: Seq<Seq<char>>,
    rep: NodeId,
    cluster: Option<ClusterId>,
)
    requires
        model::place_calls(l, hid, callees, rep, cluster) is Some,
    ensures
        ({
            let m = model::place_calls(l, hid, callees, rep, cluster)->0;
            &&& l.nodes.is_prefix_of(m.nodes)
            &&& m.clusters == l.clusters
            &&& forall|i: int, h: Hid|
                l.nodes.len() <= i < m.nodes.len() ==> !(#[trigger] placement::stands_for(
                    m.nodes[i],
                    h,
                ))
        }),
    decreases callees.len(),
{
    if callees.len() > 0 {
        let n = model::place_call(l, hid, callees[0], rep, cluster)->0;
        let rest = callees.drop_first();
        lemma_only_calls(n, hid, rest, rep, cluster);
        let m = model::place_calls(n, hid, rest, rep, cluster)->0;
        assert forall|i: int, h: Hid| l.nodes.len() <= i < m.nodes.len() implies !(
        #[trigger] placement::stands_for(m.nodes[i], h)) by {
            if i < n.nodes.len() {
                assert(m.nodes[i] == n.nodes[i]);
            }
        }
    }
}

/// Linking the calls of headers adds no node that stands for a header.
pub(crate) proof fn lemma_only_calls_of_all(
    ix: IndexView,
    l: Layout,
    hids: Seq<Hid>,
    cluster: Option<ClusterId>,
)
    requires
        model::show_calls_of_all(ix, l, hids, cluster) is Some,
    ensures
        ({
            let m = model::show_calls_of_all(ix, l, hids, cluster)->0;
            &&& l.nodes.is_prefix_of(m.nodes)
            &&& m.clusters == l.clusters
            &&& forall|i: int, h: Hid|
                l.nodes.len() <= i < m.nodes.len() ==> !(#[trigger] placement::stands_for(
                    m.nodes[i],
                    h,
                ))
        }),
    decreases hids.len(),
{
    if hids.len() > 0 {
        let callees = ix.calls(hids[0]);
        lemma_only_calls(l, hids[0], callees, l.entry[hids[0]], cluster);
        let n = model::place_calls(l, hids[0], callees, l.entry[hids[0]], cluster)->0;
        lemma_only_calls_of_all(ix, n, hids.drop_first(), cluster);
        let m = model::show_calls_of_all(ix, n, hids.drop_first(), cluster)->0;
        assert forall|i: int, h: Hid| l.nodes.len() <= i < m.nodes.len() implies !(
        #[trigger] placement::stands_for(m.nodes[i], h)) by {
            if i < n.nodes.len() {
                assert(m.nodes[i] == n.nodes[i]);
                assert(!placement::stands_for(n.nodes[i], h));
            }
        }
    }
}

/// Whether a place lies within the turn of a header, behind the node of the header and
/// before all that hangs only from it.
pub open spec fn is_right_behind(
    ix: IndexView,
    turns: Map<Hid, Turn>,
    h: Hid,
    at: int,
) -> bool {
    &&& turns.contains_key(h)
    &&& turns[h].first_node < at < turns[h].end_node
    &&& forall|c: Hid| #[trigger]
        placement::hangs_only_from(ix, h, c) ==> at < turns[c].first_node
}

/// Whether a place lies within the turn of a decision with `h` as a branch, behind all
/// that hangs only from it.
pub open spec fn is_at_the_end(
    ix: IndexView,
    turns: Map<Hid, Turn>,
    b: Hid,
    h: Hid,
    at: int,
) -> bool {
    &&& turns.contains_key(b)
    &&& placement::decides(ix, b)
    &&& ix.nested_children(b).contains(h)
    &&& turns[b].first_node < at < turns[b].end_node
    &&& forall|c: Hid| #[trigger]
        placement::hangs_only_from(ix, b, c) ==> turns[c].end_node <= at
}

/// Whether a header hangs from one header at most.
pub open spec fn hangs_once(ix: IndexView, h: Hid) -> bool {
    forall|p: Hid| #[trigger]
        placement::hangs_from(ix, p, h) ==> placement::hangs_only_from(ix, p, h)
}

/// Whether the nodes of calls have their places in the order of turns. Calls of a header
/// without children, or that decides, come right behind its node, unless it hangs from
/// several headers; calls of any other header come at the end of a decision that has it
/// as a branch. The calls of a header come in the order in which they first occur.
pub open spec fn calls_take_turns(ix: IndexView, l: Layout, turns: Map<Hid, Turn>) -> bool {
    &&& forall|h: Hid, i: int|
        #![trigger ix.calls(h)[i]]
        0 <= i < ix.calls(h).len() && l.calls.contains_key((h, ix.calls(h)[i])) ==> {
            &&& 0 <= call_place(ix, l, h, i) < l.nodes.len()
            &&& if !placement::has_children(ix, h) || placement::decides(ix, h) {
                hangs_once(ix, h) ==> is_right_behind(ix, turns, h, call_place(ix, l, h, i))
            } else {
                exists|b: Hid| #[trigger]
                    is_at_the_end(ix, turns, b, h, call_place(ix, l, h, i))
            }
        }
    &&& forall|h: Hid, i: int, j: int|
        #![trigger ix.calls(h)[i], ix.calls(h)[j]]
        0 <= i < j < ix.calls(h).len() && l.calls.contains_key((h, ix.calls(h)[i]))
            && !ix.calls(h).take(j).contains(ix.calls(h)[j]) ==> l.calls.contains_key(
            (h, ix.calls(h)[j]),
        ) && call_place(ix, l, h, i) < call_place(ix, l, h, j)
}

/// Whether all headers that are laid out take their turns: a turn begins with the node
/// and the cluster that the header adds itself, and whatever hangs only from the header
/// takes its turn within, in the laying order. The items of top-level scopes take their
/// turns in the order of the scopes.
pub open spec fn all_take_turns(ix: IndexView, l: Layout, turns: Map<Hid, Turn>) -> bool {
    &&& forall|h: Hid| #[trigger] turns.contains_key(h) <==> l.entry.contains_key(h)
    &&& forall|h: Hid| #[trigger]
        turns.contains_key(h) ==> {
            &&& 0 <= turns[h].first_node <= turns[h].end_node <= l.nodes.len()
            &&& 0 <= turns[h].first_cluster <= turns[h].end_cluster <= l.clusters.len()
            &&& begins_itself(ix, l, h, turns[h])
        }
    &&& forall|i: int, h: Hid|
        0 <= i < l.nodes.len() && #[trigger] placement::stands_for(l.nodes[i], h)
            ==> turns.contains_key(h) && turns[h].first_node == i
    &&& forall|k: int| 0 <= k < l.clusters.len() ==> #[trigger] has_opener(ix, l, turns, k)
    &&& forall|h: Hid, c: Hid| #[trigger]
        placement::hangs_only_from(ix, h, c) && turns.contains_key(h) ==> turns.contains_key(c)
            && lies_within(ix, l, h, turns[h], turns[c])
    &&& forall|h: Hid, c: Hid, d: Hid|
        #![trigger placement::hangs_only_from(ix, h, c), placement::hangs_only_from(ix, h, d)]
        turns.contains_key(h) && placement::hangs_only_from(ix, h, c)
            && placement::hangs_only_from(ix, h, d) && precedes(laying_order(ix, l, h), c, d)
            ==> ends_before(turns[c], turns[d])
    &&& forall|c: Hid, d: Hid|
        #![trigger turns[c], turns[d]]
        turns.contains_key(c) && turns.contains_key(d) && precedes(
            items_of_all(ix, tops::top_scopes(ix)),
            c,
            d,
        ) && hangs_from_none(ix, turns, d) ==> ends_before(turns[c], turns[d])
    &&& calls_take_turns(ix, l, turns)
}

/// The turns of a whole layout.
pub(crate) proof fn lemma_all_taken(ix: IndexView, m: Layout) -> (turns: Map<Hid, Turn>)
    requires
        take_turns(ix, Layout::empty(), m, items_of_all(ix, tops::top_scopes(ix))),
    ensures
        all_take_turns(ix, m, turns),
{
    reveal(take_turns);
    reveal(keep_order);
    reveal(in_turn);
    reveal(nodes_begin_turns);
    reveal(clusters_begin_turns);
    let l = Layout::empty();
    let roots = items_of_all(ix, tops::top_scopes(ix));
    let turns = choose|turns: Map<Hid, Turn>| taken(ix, l, m, turns, roots);
    assert forall|h: Hid, c: Hid| #[trigger]
        placement::hangs_only_from(ix, h, c) && turns.contains_key(h) implies comes_with(
        ix,
        turns[h],
        h,
        c,
    ) by {
        if turns[h].before.contains(c) {
            assert(lies_between(l, m, turns[h]));
            assert(turns.contains_key(c));
            reveal(are_brought);
            if roots.contains(c) {
                lemma_items_of_all(ix, tops::top_scopes(ix), c);
                let k = choose|k: int|
                    0 <= k < tops::top_scopes(ix).len() && ix.scope_items(
                        #[trigger] tops::top_scopes(ix)[k],
                    ).contains(c);
                assert(tops::top_scopes(ix).contains(tops::top_scopes(ix)[k]));
            } else {
                let p = choose|p: Hid| #[trigger] brought_by(ix, turns, p, c);
                assert(p == h);
            }
        }
    }
    assert forall|h: Hid, c: Hid| #[trigger]
        placement::hangs_only_from(ix, h, c) && turns.contains_key(h) implies turns.contains_key(c)
        && lies_within(ix, m, h, turns[h], turns[c]) by {
        assert(comes_with(ix, turns[h], h, c));
        assert(keeps_order_below(ix, m, turns, h));
    }
    assert forall|h: Hid, c: Hid, d: Hid|
        #![trigger placement::hangs_only_from(ix, h, c), placement::hangs_only_from(ix, h, d)]
        turns.contains_key(h) && placement::hangs_only_from(ix, h, c)
            && placement::hangs_only_from(ix, h, d) && precedes(
            laying_order(ix, m, h),
            c,
            d,
        ) implies ends_before(turns[c], turns[d]) by {
        assert(comes_with(ix, turns[h], h, c));
        assert(comes_with(ix, turns[h], h, d));
        assert(keeps_order_below(ix, m, turns, h));
    }
    assert forall|h: Hid| #[trigger] turns.contains_key(h) implies {
        &&& 0 <= turns[h].first_node <= turns[h].end_node <= m.nodes.len()
        &&& 0 <= turns[h].first_cluster <= turns[h].end_cluster <= m.clusters.len()
        &&& begins_itself(ix, m, h, turns[h])
    } by {
        assert(lies_between(l, m, turns[h]));
    }
    lemma_all_calls_taken(ix, m, turns);
    turns
}

proof fn lemma_all_calls_taken(ix: IndexView, m: Layout, turns: Map<Hid, Turn>)
    requires
        calls_in_turn(ix, Layout::empty(), m, turns),
        forall|h: Hid, c: Hid| #[trigger]
            placement::hangs_only_from(ix, h, c) && turns.contains_key(h) ==> comes_with(
                ix,
                turns[h],
                h,
                c,
            ),
    ensures
        calls_take_turns(ix, m, turns),
{
    reveal(calls_in_turn);
    let l = Layout::empty();
    assert forall|h: Hid, i: int|
        #![trigger ix.calls(h)[i]]
        0 <= i < ix.calls(h).len() && m.calls.contains_key((h, ix.calls(h)[i])) implies {
        &&& 0 <= call_place(ix, m, h, i) < m.nodes.len()
        &&& if !placement::has_children(ix, h) || placement::decides(ix, h) {
            hangs_once(ix, h) ==> is_right_behind(ix, turns, h, call_place(ix, m, h, i))
        } else {
            exists|b: Hid| #[trigger] is_at_the_end(ix, turns, b, h, call_place(ix, m, h, i))
        }
    } by {
        assert(is_new_call(ix, l, m, h, i));
        let at = call_place(ix, m, h, i);
        if calls_itself(ix, m, turns, h, at) {
            assert(is_right_behind(ix, turns, h, at)) by {
                assert forall|c: Hid| #[trigger] placement::hangs_only_from(ix, h, c) implies at
                    < turns[c].first_node by {
                    assert(comes_with(ix, turns[h], h, c));
                }
            }
        } else {
            let b = choose|b: Hid| #[trigger] calls_for_branch(ix, m, turns, b, h, at);
            assert(is_at_the_end(ix, turns, b, h, at)) by {
                assert forall|c: Hid| #[trigger]
                    placement::hangs_only_from(ix, b, c) implies turns[c].end_node <= at by {
                    assert(comes_with(ix, turns[b], b, c));
                }
            }
            assert(placement::hangs_from(ix, b, h));
            if hangs_once(ix, h) {
                assert(placement::hangs_only_from(ix, b, h));
                assert(comes_with(ix, turns[b], b, h));
            }
        }
    }
    assert forall|h: Hid, i: int, j: int|
        #![trigger ix.calls(h)[i], ix.calls(h)[j]]
        0 <= i < j < ix.calls(h).len() && m.calls.contains_key((h, ix.calls(h)[i]))
            && !ix.calls(h).take(j).contains(ix.calls(h)[j]) implies m.calls.contains_key(
        (h, ix.calls(h)[j]),
    ) && call_place(ix, m, h, i) < call_place(ix, m, h, j) by {
        assert(is_new_call(ix, l, m, h, i));
        assert(is_new_call(ix, l, m, h, j));
    }
}

} // verus!
