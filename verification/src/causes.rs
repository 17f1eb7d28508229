//! Why there is an edge.
//!
//! Every edge of a graph has a cause, and every cause has one edge.
use vstd::prelude::*;
use crate::flow;
use crate::graph::Edge;
use crate::ids::{ClusterId, NodeId};
use crate::index::{Hid, IndexView, ScopeId};
use crate::invariants;
use crate::memory;
use crate::merge;
use crate::model;
use crate::model::{Layout, Shape};
use crate::placement;

verus! {

/// What an edge is for.
pub enum Cause {
    /// A call under a header that has no children or decides.
    Call { header: Hid, at: int },
    /// From a decision to one of its branches.
    Branch { header: Hid, child: int },
    /// A call under a branch of a decision.
    BranchCall { header: Hid, child: int, at: int },
    /// From where the branches of a decision are left to what follows them.
    Join { header: Hid, from: int },
    /// From a decision without branches to what follows.
    Follow { header: Hid },
    /// From one of the headers that follow a decision to the next.
    Along { header: Hid, step: int },
    /// From a header in line to its only child.
    Line { header: Hid },
    /// From where a child is left to the next child of the same header.
    Next { header: Hid, child: int, from: int },
    /// From where an item of a scope is left to the next item.
    Item { scope: ScopeId, item: int, from: int },
}

/// The header that an edge is for.
pub open spec fn owner(cause: Cause) -> Option<Hid> {
    match cause {
        Cause::Call { header, .. } => Some(header),
        Cause::Branch { header, .. } => Some(header),
        Cause::BranchCall { header, .. } => Some(header),
        Cause::Join { header, .. } => Some(header),
        Cause::Follow { header } => Some(header),
        Cause::Along { header, .. } => Some(header),
        Cause::Line { header } => Some(header),
        Cause::Next { header, .. } => Some(header),
        Cause::Item { .. } => None,
    }
}

/// Whether there is such a cause. Calls of headers without children and of those
/// that decide; from a decision to each branch, once more the calls of each branch,
/// from each end of the branches to what follows, or from the decision where there
/// are no branches, and along what follows; from a header in line to its child;
/// else from each child of a header to the next one; and from each item of a scope
/// to the next one.
pub open spec fn is_cause(ix: IndexView, show: bool, l: Layout, cause: Cause) -> bool {
    match cause {
        Cause::Call { header, at } => {
            &&& show
            &&& l.entry.contains_key(header)
            &&& !placement::has_children(ix, header) || placement::decides(ix, header)
            &&& 0 <= at < ix.calls(header).len()
        },
        Cause::Branch { header, child } => {
            &&& l.entry.contains_key(header)
            &&& placement::decides(ix, header)
            &&& 0 <= child < ix.nested_children(header).len()
        },
        Cause::BranchCall { header, child, at } => {
            &&& show
            &&& l.entry.contains_key(header)
            &&& placement::decides(ix, header)
            &&& 0 <= child < ix.nested_children(header).len()
            &&& 0 <= at < ix.calls(ix.nested_children(header)[child]).len()
        },
        Cause::Join { header, from } => {
            &&& l.entry.contains_key(header)
            &&& placement::decides(ix, header)
            &&& ix.md_children(header).len() > 0
            &&& 0 <= from < l.exits_of(ix.nested_children(header)).len()
        },
        Cause::Follow { header } => {
            &&& l.entry.contains_key(header)
            &&& placement::decides(ix, header)
            &&& ix.md_children(header).len() > 0
            &&& ix.nested_children(header).len() == 0
        },
        Cause::Along { header, step } => {
            &&& l.entry.contains_key(header)
            &&& placement::decides(ix, header)
            &&& 0 <= step < ix.md_children(header).len() - 1
        },
        Cause::Line { header } => {
            &&& l.entry.contains_key(header)
            &&& flow::laid_as(ix, l, header) == Shape::Flat
        },
        Cause::Next { header, child, from } => {
            &&& l.entry.contains_key(header)
            &&& flow::laid_as(ix, l, header) == Shape::Container
            &&& 0 <= child < flow::children_in_order(ix, header).len() - 1
            &&& 0 <= from < l.exits[flow::left_by(
                ix,
                header,
                flow::children_in_order(ix, header)[child],
            )].len()
        },
        Cause::Item { scope, item, from } => {
            &&& l.visited.contains(scope)
            &&& 0 <= item < ix.scope_items(scope).len() - 1
            &&& 0 <= from < l.exits[ix.scope_items(scope)[item]].len()
        },
    }
}

/// The edge that a cause has.
pub open spec fn edge_of(ix: IndexView, l: Layout, cause: Cause) -> Edge {
    match cause {
        Cause::Call { header, at } => call_edge(ix, l, header, at),
        Cause::Branch { header, child } => Edge {
            from: l.entry[header],
            to: l.entry[ix.nested_children(header)[child]],
        },
        Cause::BranchCall { header, child, at } => call_edge(
            ix,
            l,
            ix.nested_children(header)[child],
            at,
        ),
        Cause::Join { header, from } => Edge {
            from: l.exits_of(ix.nested_children(header))[from],
            to: l.entry[ix.md_children(header)[0]],
        },
        Cause::Follow { header } => Edge {
            from: l.entry[header],
            to: l.entry[ix.md_children(header)[0]],
        },
        Cause::Along { header, step } => Edge {
            from: l.entry[ix.md_children(header)[step]],
            to: l.entry[ix.md_children(header)[step + 1]],
        },
        Cause::Line { header } => Edge {
            from: l.entry[header],
            to: l.entry[flow::only_child(ix, header)],
        },
        Cause::Next { header, child, from } => Edge {
            from: l.exits[flow::left_by(
                ix,
                header,
                flow::children_in_order(ix, header)[child],
            )][from],
            to: l.entry[flow::children_in_order(ix, header)[child + 1]],
        },
        Cause::Item { scope, item, from } => Edge {
            from: l.exits[ix.scope_items(scope)[item]][from],
            to: l.entry[ix.scope_items(scope)[item + 1]],
        },
    }
}

/// From the node of a call to where its header is entered.
pub open spec fn call_edge(ix: IndexView, l: Layout, h: Hid, at: int) -> Edge {
    Edge { from: l.calls[(h, ix.calls(h)[at])], to: l.entry[h] }
}

/// Where an edge comes among those for the same header, or between items of the same
/// scope: calls first; then from a decision to its branches, the calls of these, and
/// what follows them; or from each child or item to the next one.
pub open spec fn step(cause: Cause) -> (int, int, int) {
    match cause {
        Cause::Call { at, .. } => (0, at, 0),
        Cause::Branch { child, .. } => (1, child, 0),
        Cause::BranchCall { child, at, .. } => (2, child, at),
        Cause::Join { from, .. } => (3, from, 0),
        Cause::Follow { .. } => (3, 0, 0),
        Cause::Along { step, .. } => (4, step, 0),
        Cause::Line { .. } => (1, 0, 0),
        Cause::Next { child, from, .. } => (1, child, from),
        Cause::Item { item, from, .. } => (0, item, from),
    }
}

/// Whether one step comes before another.
pub open spec fn step_before(a: (int, int, int), b: (int, int, int)) -> bool {
    a.0 < b.0 || (a.0 == b.0 && (a.1 < b.1 || (a.1 == b.1 && a.2 < b.2)))
}

/// Whether two causes are of the same header, or of the same scope.
pub open spec fn same_subject(a: Cause, b: Cause) -> bool {
    match (a, b) {
        (Cause::Item { scope: s, .. }, Cause::Item { scope: t, .. }) => s == t,
        _ => owner(a) is Some && owner(a) == owner(b),
    }
}

/// Whether `a` is of a child of the header of `b`, and `b` is no call; or whether `a`
/// is of an item of the scope of `b` that `b` does not come before.
pub open spec fn is_part(ix: IndexView, a: Cause, b: Cause) -> bool {
    match b {
        Cause::Call { .. } => false,
        Cause::Item { scope, item, .. } => {
            let items = ix.scope_items(scope);
            owner(a) matches Some(h) && exists|k: int|
                0 <= k <= item + 1 && k < items.len() && #[trigger] items[k] == h
        },
        _ => {
            owner(a) matches Some(c) && owner(b) matches Some(h) && c != h && (ix.md_children(
                h,
            ).contains(c) || ix.nested_children(h).contains(c))
        },
    }
}

/// Whether the edge of one cause comes before that of another: in the order of steps,
/// and after the edges of all that a header or a sequence of items is made of.
pub open spec fn comes_first(ix: IndexView, a: Cause, b: Cause) -> bool {
    (same_subject(a, b) && step_before(step(a), step(b))) || is_part(ix, a, b)
}

/// Whether causes come in order.
pub open spec fn are_ordered(ix: IndexView, log: Seq<Cause>) -> bool {
    forall|i: int, j: int|
        0 <= i < j < log.len() ==> !comes_first(ix, #[trigger] log[j], #[trigger] log[i])
}

/// The edges of causes.
pub open spec fn edges_of(ix: IndexView, l: Layout, log: Seq<Cause>) -> Seq<Edge> {
    log.map_values(|c: Cause| edge_of(ix, l, c))
}

/// Whether `log` lists, without repetition, all causes that there are, in the order
/// of the edges, which is theirs.
pub open spec fn explains(ix: IndexView, show: bool, l: Layout, log: Seq<Cause>) -> bool {
    &&& l.edges == edges_of(ix, l, log)
    &&& log.no_duplicates()
    &&& are_ordered(ix, log)
    &&& forall|c: Cause| #[trigger] log.contains(c) <==> is_cause(ix, show, l, c)
}

/// Whether a cause came up between `l` and `m`.
pub(crate) open spec fn is_new(
    ix: IndexView,
    show: bool,
    l: Layout,
    m: Layout,
    cause: Cause,
) -> bool {
    &&& is_cause(ix, show, m, cause)
    &&& match cause {
        Cause::Item { scope, .. } => !l.visited.contains(scope),
        _ => !l.entry.contains_key(owner(cause)->0),
    }
}

/// Whether `log` lists the causes of the edges between `l` and `m`: those that came
/// up, and those between items of the scope `pending` from the `k`th on.
pub(crate) open spec fn logs_with(
    ix: IndexView,
    show: bool,
    l: Layout,
    m: Layout,
    log: Seq<Cause>,
    pending: Option<ScopeId>,
    k: int,
) -> bool {
    &&& m.edges == l.edges + edges_of(ix, m, log)
    &&& log.no_duplicates()
    &&& are_ordered(ix, log)
    &&& forall|c: Cause| #[trigger]
        log.contains(c) <==> is_new(ix, show, l, m, c) || is_pending(ix, show, m, c, pending, k)
}

pub(crate) open spec fn is_pending(
    ix: IndexView,
    show: bool,
    m: Layout,
    c: Cause,
    pending: Option<ScopeId>,
    k: int,
) -> bool {
    &&& is_cause(ix, show, m, c)
    &&& c matches Cause::Item { scope, item, .. } && pending == Some(scope) && item >= k - 1
}

/// Whether the edges between `l` and `m` are explained.
#[verifier::opaque]
pub(crate) open spec fn tells(ix: IndexView, show: bool, l: Layout, m: Layout) -> bool {
    exists|log: Seq<Cause>| logs_with(ix, show, l, m, log, None, 0)
}

/// Whether the edges between `l` and `m` are explained, with those between items of
/// a scope from the `k`th on.
#[verifier::opaque]
pub(crate) open spec fn tells_items(
    ix: IndexView,
    show: bool,
    l: Layout,
    m: Layout,
    scope: ScopeId,
    k: int,
) -> bool {
    exists|log: Seq<Cause>| logs_with(ix, show, l, m, log, Some(scope), k)
}

/// Whether what `cause` speaks of is there and stays as it is.
spec fn firm(ix: IndexView, show: bool, l: Layout, cause: Cause) -> bool {
    match cause {
        Cause::Item { scope, .. } => flow::in_sequence(l, ix.scope_items(scope)),
        _ => flow::header_flow(ix, show, l, owner(cause)->0),
    }
}

/// A cause keeps its edge as a layout goes on.
proof fn lemma_cause_kept(ix: IndexView, show: bool, l: Layout, m: Layout, cause: Cause)
    requires
        invariants::sound(ix, show, l),
        invariants::extends(ix, l, m),
        flow::keeps_exits(l, m),
        invariants::keeps_entries(l, m),
        firm(ix, show, l, cause),
        match cause {
            Cause::Item { scope, .. } => l.visited.contains(scope),
            _ => l.entry.contains_key(owner(cause)->0),
        },
    ensures
        is_cause(ix, show, l, cause) == is_cause(ix, show, m, cause),
        is_cause(ix, show, l, cause) ==> edge_of(ix, l, cause) == edge_of(ix, m, cause),
{
    match cause {
        Cause::Item { scope, item, from } => {
            let items = ix.scope_items(scope);
            if 0 <= item < items.len() - 1 {
                assert(l.exits.contains_key(items[item]));
                assert(l.exits.contains_key(items[item + 1]));
                assert(l.entry.contains_key(items[item + 1]));
            }
        },
        _ => {
            let h = owner(cause)->0;
            let md = ix.md_children(h);
            let nested = ix.nested_children(h);
            let all = flow::children_in_order(ix, h);
            assert(l.entry.contains_key(h));
            assert(m.entry.contains_key(h) && m.entry[h] == l.entry[h]);
            assert(m.nodes[l.entry[h]@ as int] == l.nodes[l.entry[h]@ as int]);
            if placement::decides(ix, h) {
                flow::lemma_left_kept(l, m, md);
                flow::lemma_left_kept(l, m, nested);
                flow::lemma_left_entered(ix, show, l, md);
                flow::lemma_left_entered(ix, show, l, nested);
            }
            match cause {
                Cause::Call { header, at } => {
                    if is_cause(ix, show, l, cause) || is_cause(ix, show, m, cause) {
                        assert(l.calls.contains_key((h, ix.calls(h)[at])));
                    }
                },
                Cause::Branch { child, .. } => {
                    if 0 <= child < nested.len() && placement::decides(ix, h) {
                        assert(l.entry.contains_key(nested[child]));
                    }
                },
                Cause::BranchCall { child, at, .. } => {
                    if is_cause(ix, show, l, cause) || is_cause(ix, show, m, cause) {
                        let c = nested[child];
                        assert(l.entry.contains_key(nested[child]));
                        assert(invariants::calls_linked(ix, l, nested[child]));
                        assert(l.calls.contains_key((c, ix.calls(c)[at])));
                    }
                },
                Cause::Join { from, .. } => {
                    if md.len() > 0 && placement::decides(ix, h) {
                        assert(l.entry.contains_key(md[0]));
                    }
                },
                Cause::Follow { .. } => {
                    if md.len() > 0 && placement::decides(ix, h) {
                        assert(l.entry.contains_key(md[0]));
                    }
                },
                Cause::Along { step, .. } => {
                    if 0 <= step < md.len() - 1 && placement::decides(ix, h) {
                        assert(l.entry.contains_key(md[step]));
                        assert(l.entry.contains_key(md[step + 1]));
                    }
                },
                Cause::Line { .. } => {
                    if flow::laid_as(ix, l, h) == Shape::Flat {
                        assert(l.exits.contains_key(flow::only_child(ix, h)));
                        assert(l.entry.contains_key(flow::only_child(ix, h)));
                    }
                },
                Cause::Next { child, from, .. } => {
                    if flow::laid_as(ix, l, h) == Shape::Container && 0 <= child < all.len() - 1 {
                        assert(l.exits.contains_key(flow::left_by(ix, h, all[child])));
                        assert(l.exits.contains_key(all[child + 1]));
                        assert(l.entry.contains_key(all[child + 1]));
                    }
                },
                Cause::Item { .. } => {},
            }
        },
    }
}

/// The edges of causes that came up stay the same.
proof fn lemma_log_kept(
    ix: IndexView,
    show: bool,
    l: Layout,
    m: Layout,
    n: Layout,
    log: Seq<Cause>,
)
    requires
        invariants::sound(ix, show, m),
        invariants::extends(ix, m, n),
        flow::keeps_exits(m, n),
        invariants::keeps_entries(m, n),
        flow::flows(ix, show, l, m),
        forall|c: Cause| #[trigger] log.contains(c) ==> is_new(ix, show, l, m, c),
    ensures
        edges_of(ix, n, log) == edges_of(ix, m, log),
{
    assert forall|i: int| 0 <= i < log.len() implies edge_of(ix, n, #[trigger] log[i]) == edge_of(
        ix,
        m,
        log[i],
    ) by {
        assert(log.contains(log[i]));
        lemma_cause_kept(ix, show, m, n, log[i]);
    }
    assert(edges_of(ix, n, log) =~= edges_of(ix, m, log));
}

/// Whether causes of one header come in the order of their steps.
pub(crate) open spec fn are_sorted(log: Seq<Cause>) -> bool {
    forall|i: int, j: int|
        0 <= i < j < log.len() ==> step_before(step(#[trigger] log[i]), step(#[trigger] log[j]))
}

/// Nothing changed, so there is nothing to tell.
pub(crate) proof fn lemma_tells_same(ix: IndexView, show: bool, l: Layout, m: Layout)
    requires
        m.edges == l.edges,
        m.entry == l.entry,
        m.visited == l.visited,
    ensures
        tells(ix, show, l, m),
{
    reveal(tells);
    let log = Seq::<Cause>::empty();
    assert(l.edges + edges_of(ix, m, log) =~= l.edges);
    assert(logs_with(ix, show, l, m, log, None, 0));
}

/// Two logs one after the other.
pub(crate) proof fn lemma_logs_chain(
    ix: IndexView,
    show: bool,
    a: Layout,
    b: Layout,
    c: Layout,
    x: Seq<Cause>,
    y: Seq<Cause>,
    pending: Option<ScopeId>,
    k: int,
)
    requires
        logs_with(ix, show, a, b, x, None, 0),
        logs_with(ix, show, b, c, y, pending, k),
        invariants::sound(ix, show, b),
        invariants::extends(ix, b, c),
        flow::keeps_exits(b, c),
        invariants::keeps_entries(b, c),
        flow::flows(ix, show, a, b),
        forall|h: Hid| #[trigger] a.entry.contains_key(h) ==> b.entry.contains_key(h),
        a.visited.subset_of(b.visited),
        pending matches Some(s) ==> a.visited.contains(s),
    ensures
        logs_with(ix, show, a, c, x + y, pending, k),
{
    let z = x + y;
    lemma_log_kept(ix, show, a, b, c, x);
    assert(edges_of(ix, c, z) =~= edges_of(ix, c, x) + edges_of(ix, c, y));
    assert(c.edges =~= a.edges + edges_of(ix, c, z));
    assert forall|i: int, j: int| 0 <= i < z.len() && 0 <= j < z.len() && i != j implies z[i]
        != z[j] by {
        lemma_apart(ix, show, a, b, c, x, y, pending, k, z, i, j);
    }
    assert forall|i: int, j: int| 0 <= i < j < z.len() implies !comes_first(
        ix,
        #[trigger] z[j],
        #[trigger] z[i],
    ) by {
        if j < x.len() {
            assert(z[i] == x[i] && z[j] == x[j]);
        } else if i >= x.len() {
            assert(z[i] == y[i - x.len()] && z[j] == y[j - x.len()]);
        } else {
            assert(z[i] == x[i] && z[j] == y[j - x.len()]);
            assert(x.contains(x[i]));
            assert(y.contains(y[j - x.len()]));
            lemma_not_first(ix, show, a, b, c, x[i], y[j - x.len()], pending, k);
        }
    }
    assert forall|d: Cause| #[trigger] z.contains(d) <==> is_new(ix, show, a, c, d) || is_pending(
        ix,
        show,
        c,
        d,
        pending,
        k,
    ) by {
        vstd::seq_lib::lemma_seq_concat_contains_all_elements(x, y, d);
        let in_b = match d {
            Cause::Item { scope, .. } => b.visited.contains(scope),
            _ => b.entry.contains_key(owner(d)->0),
        };
        let in_a = match d {
            Cause::Item { scope, .. } => a.visited.contains(scope),
            _ => a.entry.contains_key(owner(d)->0),
        };
        if in_b && !in_a {
            lemma_cause_kept(ix, show, b, c, d);
        }
        assert(is_cause(ix, show, b, d) ==> in_b);
        assert(z.contains(d) <==> x.contains(d) || y.contains(d));
    }
}

/// What comes up later does not come first.
proof fn lemma_not_first(
    ix: IndexView,
    show: bool,
    a: Layout,
    b: Layout,
    c: Layout,
    early: Cause,
    late: Cause,
    pending: Option<ScopeId>,
    k: int,
)
    requires
        invariants::sound(ix, show, b),
        flow::flows(ix, show, a, b),
        a.visited.subset_of(b.visited),
        is_new(ix, show, a, b, early),
        is_new(ix, show, b, c, late) || is_pending(ix, show, c, late, pending, k),
        pending matches Some(s) ==> a.visited.contains(s),
    ensures
        !comes_first(ix, late, early),
{
    if is_part(ix, late, early) {
        lemma_parts_entered(ix, show, b, late, early);
    }
}

/// What a header or a sequence of items is made of is laid out before.
proof fn lemma_parts_entered(ix: IndexView, show: bool, l: Layout, part: Cause, whole: Cause)
    requires
        invariants::sound(ix, show, l),
        firm(ix, show, l, whole),
        is_part(ix, part, whole),
    ensures
        owner(part) is Some,
        l.exits.contains_key(owner(part)->0),
        l.entry.contains_key(owner(part)->0),
{
    let c = owner(part)->0;
    match whole {
        Cause::Item { scope, item, .. } => {
            let items = ix.scope_items(scope);
            let k = choose|k: int|
                0 <= k <= item + 1 && k < items.len() && #[trigger] items[k] == c;
            assert(l.exits.contains_key(items[k]));
        },
        _ => {
            let h = owner(whole)->0;
            let md = ix.md_children(h);
            let nested = ix.nested_children(h);
            let all = flow::children_in_order(ix, h);
            assert(l.exits.contains_key(c)) by {
                if flow::laid_as(ix, l, h) == Shape::Container {
                    merge::lemma_merged_keeps(merge::spans_of(ix), md, nested);
                    if md.contains(c) {
                        let k = choose|k: int| 0 <= k < md.len() && md[k] == c;
                        assert(all.contains(md[k]));
                    } else {
                        let k = choose|k: int| 0 <= k < nested.len() && nested[k] == c;
                        assert(all.contains(nested[k]));
                    }
                    let k = choose|k: int| 0 <= k < all.len() && all[k] == c;
                    assert(l.exits.contains_key(all[k]));
                } else if flow::laid_as(ix, l, h) == Shape::Branch {
                    if md.contains(c) {
                        let k = choose|k: int| 0 <= k < md.len() && md[k] == c;
                        assert(l.exits.contains_key(md[k]));
                    } else {
                        let k = choose|k: int| 0 <= k < nested.len() && nested[k] == c;
                        assert(l.exits.contains_key(nested[k]));
                    }
                } else if flow::laid_as(ix, l, h) == Shape::Flat {
                    if md.contains(c) {
                        let k = choose|k: int| 0 <= k < md.len() && md[k] == c;
                        assert(c == flow::only_child(ix, h));
                    } else {
                        let k = choose|k: int| 0 <= k < nested.len() && nested[k] == c;
                        assert(c == flow::only_child(ix, h));
                    }
                }
            }
        },
    }
}

proof fn lemma_apart(
    ix: IndexView,
    show: bool,
    a: Layout,
    b: Layout,
    c: Layout,
    x: Seq<Cause>,
    y: Seq<Cause>,
    pending: Option<ScopeId>,
    k: int,
    z: Seq<Cause>,
    i: int,
    j: int,
)
    requires
        logs_with(ix, show, a, b, x, None, 0),
        logs_with(ix, show, b, c, y, pending, k),
        a.visited.subset_of(b.visited),
        pending matches Some(s) ==> a.visited.contains(s),
        z == x + y,
        0 <= i < z.len(),
        0 <= j < z.len(),
        i != j,
    ensures
        z[i] != z[j],
{
    let (i, j) = if i < j {
        (i, j)
    } else {
        (j, i)
    };
    if j < x.len() {
        assert(z[i] == x[i] && z[j] == x[j]);
    } else if i >= x.len() {
        assert(z[i] == y[i - x.len()] && z[j] == y[j - x.len()]);
    } else {
        assert(x.contains(x[i]));
        assert(y.contains(y[j - x.len()]));
        assert(is_new(ix, show, a, b, x[i]));
    }
}

pub(crate) proof fn lemma_tells_chain(ix: IndexView, show: bool, a: Layout, b: Layout, c: Layout)
    requires
        tells(ix, show, a, b),
        tells(ix, show, b, c),
        invariants::sound(ix, show, b),
        invariants::extends(ix, a, b),
        invariants::extends(ix, b, c),
        flow::flows(ix, show, a, b),
        flow::flows(ix, show, b, c),
    ensures
        tells(ix, show, a, c),
{
    reveal(tells);
    let x = choose|x: Seq<Cause>| logs_with(ix, show, a, b, x, None, 0);
    let y = choose|y: Seq<Cause>| logs_with(ix, show, b, c, y, None, 0);
    lemma_logs_chain(ix, show, a, b, c, x, y, None, 0);
}

/// A header with what it adds first, what is laid out below it, and what it adds
/// last.
pub(crate) proof fn lemma_tells_header(
    ix: IndexView,
    show: bool,
    l: Layout,
    begun: Layout,
    below: Layout,
    m: Layout,
    hid: Hid,
    first: Seq<Cause>,
    last: Seq<Cause>,
)
    requires
        !l.entry.contains_key(hid),
        begun.entry.contains_key(hid) || !below.entry.contains_key(hid),
        tells(ix, show, begun, below),
        begun.edges == l.edges + edges_of(ix, m, first),
        m.edges == below.edges + edges_of(ix, m, last),
        (first + last).no_duplicates(),
        are_sorted(first + last),
        forall|i: int| 0 <= i < first.len() ==> (#[trigger] first[i]) is Call,
        !below.exits.contains_key(hid) || below == begun,
        forall|c: Cause| #[trigger]
            (first + last).contains(c) <==> owner(c) == Some(hid) && is_cause(ix, show, m, c),
        forall|h: Hid| #[trigger]
            begun.entry.contains_key(h) && h != hid ==> l.entry.contains_key(h),
        forall|h: Hid| #[trigger] l.entry.contains_key(h) ==> begun.entry.contains_key(h),
        begun.visited == l.visited,
        forall|h: Hid| #[trigger]
            m.entry.contains_key(h) && h != hid ==> below.entry.contains_key(h),
        m.visited == below.visited,
        invariants::sound(ix, show, below),
        invariants::extends(ix, below, m),
        flow::keeps_exits(below, m),
        invariants::keeps_entries(below, m),
        flow::flows(ix, show, begun, below),
    ensures
        tells(ix, show, l, m),
{
    reveal(tells);
    let mid = choose|mid: Seq<Cause>| logs_with(ix, show, begun, below, mid, None, 0);
    lemma_log_kept(ix, show, begun, below, m, mid);
    let z = first + mid + last;
    let own = first + last;
    assert(edges_of(ix, m, z) =~= edges_of(ix, m, first) + edges_of(ix, m, mid) + edges_of(
        ix,
        m,
        last,
    ));
    assert(m.edges =~= l.edges + edges_of(ix, m, z));
    let (p, q) = (first.len() as int, (first.len() + mid.len()) as int);
    assert forall|i: int| 0 <= i < mid.len() implies owner(#[trigger] mid[i]) != Some(hid) by {
        assert(mid.contains(mid[i]));
        assert(is_new(ix, show, begun, below, mid[i]));
    }
    assert forall|i: int| 0 <= i < first.len() implies owner(#[trigger] first[i]) == Some(hid) by {
        assert(own[i] == first[i]);
        assert(own.contains(own[i]));
    }
    assert forall|i: int| 0 <= i < last.len() implies owner(#[trigger] last[i]) == Some(hid) by {
        assert(own[first.len() + i] == last[i]);
        assert(own.contains(own[first.len() + i]));
    }
    assert forall|i: int, j: int| 0 <= i < j < z.len() implies z[i] != z[j] by {
        if i < p {
            assert(z[i] == first[i] && own[i] == first[i]);
            if j < p {
                assert(z[j] == first[j] && own[j] == first[j]);
            } else if j < q {
                assert(z[j] == mid[j - p]);
            } else {
                assert(z[j] == last[j - q] && own[p + j - q] == last[j - q]);
            }
        } else if i < q {
            assert(z[i] == mid[i - p]);
            if j < q {
                assert(z[j] == mid[j - p]);
            } else {
                assert(z[j] == last[j - q]);
            }
        } else {
            assert(z[i] == last[i - q] && own[p + i - q] == last[i - q]);
            assert(z[j] == last[j - q] && own[p + j - q] == last[j - q]);
        }
    }
    assert forall|i: int, j: int| 0 <= i < j < z.len() implies !comes_first(
        ix,
        #[trigger] z[j],
        #[trigger] z[i],
    ) by {
        if i < p {
            assert(z[i] == first[i] && own[i] == first[i]);
            if j < p {
                assert(z[j] == first[j] && own[j] == first[j]);
            } else if j < q {
                assert(z[j] == mid[j - p]);
            } else {
                assert(z[j] == last[j - q] && own[p + j - q] == last[j - q]);
            }
        } else if i < q {
            assert(z[i] == mid[i - p]);
            if j < q {
                assert(z[j] == mid[j - p]);
            } else {
                assert(z[j] == last[j - q]);
                assert(mid.contains(mid[i - p]));
                if is_part(ix, z[j], z[i]) {
                    lemma_parts_entered(ix, show, below, z[j], z[i]);
                }
            }
        } else {
            assert(z[i] == last[i - q] && own[p + i - q] == last[i - q]);
            assert(z[j] == last[j - q] && own[p + j - q] == last[j - q]);
        }
    }
    assert forall|c: Cause| #[trigger] z.contains(c) <==> is_new(ix, show, l, m, c) by {
        vstd::seq_lib::lemma_seq_concat_contains_all_elements(first, mid, c);
        vstd::seq_lib::lemma_seq_concat_contains_all_elements(first + mid, last, c);
        vstd::seq_lib::lemma_seq_concat_contains_all_elements(first, last, c);
        if owner(c) != Some(hid) {
            let in_below = match c {
                Cause::Item { scope, .. } => below.visited.contains(scope),
                _ => below.entry.contains_key(owner(c)->0),
            };
            let in_begun = match c {
                Cause::Item { scope, .. } => begun.visited.contains(scope),
                _ => begun.entry.contains_key(owner(c)->0),
            };
            if in_below && !in_begun {
                lemma_cause_kept(ix, show, below, m, c);
            }
            assert(mid.contains(c) <==> is_new(ix, show, begun, below, c));
        }
    }
    assert(logs_with(ix, show, l, m, z, None, 0));
}

/// Edges from the nodes of calls.
pub(crate) open spec fn called_edges(
    l: Layout,
    hid: Hid,
    callees: Seq<Seq<char>>,
    rep: NodeId,
) -> Seq<Edge> {
    Seq::new(callees.len(), |i: int| Edge { from: l.calls[(hid, callees[i])], to: rep })
}

/// Linking the calls of a header adds an edge for each.
pub(crate) proof fn lemma_call_edges(
    l: Layout,
    hid: Hid,
    callees: Seq<Seq<char>>,
    rep: NodeId,
    cluster: Option<ClusterId>,
)
    requires
        model::place_calls(l, hid, callees, rep, cluster) is Some,
    ensures
        ({
            let m = model::place_calls(l, hid, callees, rep, cluster)->0;
            &&& m.edges == l.edges + called_edges(m, hid, callees, rep)
            &&& forall|k: (Hid, Seq<char>)| #[trigger]
                l.calls.contains_key(k) ==> m.calls.contains_key(k) && m.calls[k] == l.calls[k]
        }),
    decreases callees.len(),
{
    let m = model::place_calls(l, hid, callees, rep, cluster)->0;
    let added = called_edges(m, hid, callees, rep);
    if callees.len() == 0 {
        assert(l.edges + added =~= l.edges);
    } else {
        let n = model::place_call(l, hid, callees[0], rep, cluster)->0;
        let rest = callees.drop_first();
        lemma_call_edges(n, hid, rest, rep, cluster);
        assert(n.calls.contains_key((hid, callees[0])));
        assert(m.edges =~= l.edges + added);
        assert forall|k: (Hid, Seq<char>)| #[trigger]
            l.calls.contains_key(k) implies m.calls.contains_key(k) && m.calls[k] == l.calls[k] by {
            assert(n.calls.contains_key(k));
        }
    }
}

/// The causes of the calls of a header.
pub(crate) open spec fn call_log(ix: IndexView, show: bool, hid: Hid) -> Seq<Cause> {
    if show {
        Seq::new(ix.calls(hid).len(), |at: int| Cause::Call { header: hid, at })
    } else {
        seq![]
    }
}

/// The causes of the calls of the branches from the `k`th on.
pub(crate) open spec fn branch_call_log(ix: IndexView, hid: Hid, k: int) -> Seq<Cause>
    decreases ix.nested_children(hid).len() - k,
{
    let nested = ix.nested_children(hid);
    if k < 0 || k >= nested.len() {
        seq![]
    } else {
        Seq::new(
            ix.calls(nested[k]).len(),
            |at: int| Cause::BranchCall { header: hid, child: k, at },
        ) + branch_call_log(ix, hid, k + 1)
    }
}

pub(crate) proof fn lemma_branch_call_log(ix: IndexView, hid: Hid, k: int)
    requires
        0 <= k <= ix.nested_children(hid).len(),
    ensures
        branch_call_log(ix, hid, k).no_duplicates(),
        are_sorted(branch_call_log(ix, hid, k)),
        forall|c: Cause| #[trigger]
            branch_call_log(ix, hid, k).contains(c) <==> (c matches Cause::BranchCall {
                header,
                child,
                at,
            } && header == hid && k <= child < ix.nested_children(hid).len() && 0 <= at < ix.calls(
                ix.nested_children(hid)[child],
            ).len()),
    decreases ix.nested_children(hid).len() - k,
{
    let nested = ix.nested_children(hid);
    if k < nested.len() {
        let row = Seq::new(
            ix.calls(nested[k]).len(),
            |at: int| Cause::BranchCall { header: hid, child: k, at },
        );
        let rest = branch_call_log(ix, hid, k + 1);
        let all = row + rest;
        lemma_branch_call_log(ix, hid, k + 1);
        assert forall|i: int, j: int| 0 <= i < j < all.len() implies step_before(
            step(#[trigger] all[i]),
            step(#[trigger] all[j]),
        ) && all[i] != all[j] by {
            if i < row.len() && j >= row.len() {
                assert(rest.contains(rest[j - row.len()]));
            } else if i >= row.len() {
                assert(rest[i - row.len()] != rest[j - row.len()]);
            }
        }
        assert forall|c: Cause| #[trigger] all.contains(c) <==> (c matches Cause::BranchCall {
            header,
            child,
            at,
        } && header == hid && k <= child < nested.len() && 0 <= at < ix.calls(
            nested[child],
        ).len()) by {
            vstd::seq_lib::lemma_seq_concat_contains_all_elements(row, rest, c);
            if let Cause::BranchCall { header, child, at } = c {
                if header == hid && child == k && 0 <= at < ix.calls(nested[k]).len() {
                    assert(row[at] == c);
                }
            }
        }
    }
}

/// Linking the calls of branches from the `k`th on.
pub(crate) proof fn lemma_branch_call_edges(
    ix: IndexView,
    l: Layout,
    hid: Hid,
    k: int,
    cluster: Option<ClusterId>,
)
    requires
        0 <= k <= ix.nested_children(hid).len(),
        model::show_calls_of_all(ix, l, ix.nested_children(hid).skip(k), cluster) is Some,
    ensures
        ({
            let m = model::show_calls_of_all(
                ix,
                l,
                ix.nested_children(hid).skip(k),
                cluster,
            )->0;
            &&& m.edges == l.edges + edges_of(ix, m, branch_call_log(ix, hid, k))
            &&& m.entry == l.entry
            &&& forall|key: (Hid, Seq<char>)| #[trigger]
                l.calls.contains_key(key) ==> m.calls.contains_key(key) && m.calls[key]
                    == l.calls[key]
        }),
    decreases ix.nested_children(hid).len() - k,
{
    let nested = ix.nested_children(hid);
    let list = nested.skip(k);
    let m = model::show_calls_of_all(ix, l, list, cluster)->0;
    if k == nested.len() {
        assert(l.edges + edges_of(ix, m, branch_call_log(ix, hid, k)) =~= l.edges);
    } else {
        let c = nested[k];
        assert(list[0] == c);
        assert(list.drop_first() =~= nested.skip(k + 1));
        let n = model::place_calls(l, c, ix.calls(c), l.entry[c], cluster)->0;
        lemma_call_edges(l, c, ix.calls(c), l.entry[c], cluster);
        memory::lemma_calls(l, c, ix.calls(c), l.entry[c], cluster);
        lemma_branch_call_edges(ix, n, hid, k + 1, cluster);
        lemma_all_called(l, c, ix.calls(c), l.entry[c], cluster);
        let row = Seq::new(
            ix.calls(c).len(),
            |at: int| Cause::BranchCall { header: hid, child: k, at },
        );
        let rest = branch_call_log(ix, hid, k + 1);
        let added = called_edges(n, c, ix.calls(c), l.entry[c]);
        assert forall|i: int| 0 <= i < row.len() implies edge_of(ix, m, #[trigger] row[i])
            == added[i] by {
            assert(n.calls.contains_key((c, ix.calls(c)[i])));
        }
        assert(edges_of(ix, m, row) =~= added);
        assert(edges_of(ix, m, row + rest) =~= edges_of(ix, m, row) + edges_of(ix, m, rest));
        assert(m.edges =~= l.edges + edges_of(ix, m, row + rest));
    }
}

/// Once the calls of a header are linked, each has a node.
pub(crate) proof fn lemma_all_called(
    l: Layout,
    hid: Hid,
    callees: Seq<Seq<char>>,
    rep: NodeId,
    cluster: Option<ClusterId>,
)
    requires
        model::place_calls(l, hid, callees, rep, cluster) is Some,
    ensures
        forall|i: int|
            0 <= i < callees.len() ==> model::place_calls(
                l,
                hid,
                callees,
                rep,
                cluster,
            )->0.calls.contains_key((hid, #[trigger] callees[i])),
    decreases callees.len(),
{
    if callees.len() > 0 {
        let n = model::place_call(l, hid, callees[0], rep, cluster)->0;
        let rest = callees.drop_first();
        lemma_all_called(n, hid, rest, rep, cluster);
        lemma_call_edges(n, hid, rest, rep, cluster);
        let m = model::place_calls(n, hid, rest, rep, cluster)->0;
        assert forall|i: int| 0 <= i < callees.len() implies m.calls.contains_key(
            (hid, #[trigger] callees[i]),
        ) by {
            if i > 0 {
                assert(m.calls.contains_key((hid, rest[i - 1])));
            } else {
                assert(n.calls.contains_key((hid, callees[0])));
            }
        }
    }
}

/// The causes between the children of a container from the `k`th on.
pub(crate) open spec fn next_log(ix: IndexView, l: Layout, hid: Hid, k: int) -> Seq<Cause>
    decreases flow::children_in_order(ix, hid).len() - k,
{
    let all = flow::children_in_order(ix, hid);
    if k < 0 || k >= all.len() - 1 {
        seq![]
    } else {
        Seq::new(
            l.exits[flow::left_by(ix, hid, all[k])].len(),
            |from: int| Cause::Next { header: hid, child: k, from },
        ) + next_log(ix, l, hid, k + 1)
    }
}

pub(crate) proof fn lemma_next_log(ix: IndexView, l: Layout, hid: Hid, k: int)
    requires
        0 <= k,
    ensures
        next_log(ix, l, hid, k).no_duplicates(),
        are_sorted(next_log(ix, l, hid, k)),
        forall|c: Cause| #[trigger]
            next_log(ix, l, hid, k).contains(c) <==> (c matches Cause::Next {
                header,
                child,
                from,
            } && header == hid && k <= child < flow::children_in_order(ix, hid).len() - 1 && 0
                <= from < l.exits[flow::left_by(
                ix,
                hid,
                flow::children_in_order(ix, hid)[child],
            )].len()),
    decreases flow::children_in_order(ix, hid).len() - k,
{
    let all = flow::children_in_order(ix, hid);
    if k < all.len() - 1 {
        let n = l.exits[flow::left_by(ix, hid, all[k])].len();
        let row = Seq::new(n, |from: int| Cause::Next { header: hid, child: k, from });
        let rest = next_log(ix, l, hid, k + 1);
        let z = row + rest;
        lemma_next_log(ix, l, hid, k + 1);
        assert forall|i: int, j: int| 0 <= i < j < z.len() implies step_before(
            step(#[trigger] z[i]),
            step(#[trigger] z[j]),
        ) && z[i] != z[j] by {
            if i < row.len() && j >= row.len() {
                assert(rest.contains(rest[j - row.len()]));
            } else if i >= row.len() {
                assert(rest[i - row.len()] != rest[j - row.len()]);
            }
        }
        assert forall|c: Cause| #[trigger] z.contains(c) <==> (c matches Cause::Next {
            header,
            child,
            from,
        } && header == hid && k <= child < all.len() - 1 && 0 <= from < l.exits[flow::left_by(
            ix,
            hid,
            all[child],
        )].len()) by {
            vstd::seq_lib::lemma_seq_concat_contains_all_elements(row, rest, c);
            if let Cause::Next { header, child, from } = c {
                if header == hid && child == k && 0 <= from < n {
                    assert(row[from] == c);
                }
            }
        }
    }
}

/// The causes of the edges of a branch once its children are laid out.
pub(crate) open spec fn branch_log(ix: IndexView, show: bool, l: Layout, hid: Hid) -> Seq<Cause> {
    let md = ix.md_children(hid);
    let nested = ix.nested_children(hid);
    let out = Seq::new(nested.len(), |child: int| Cause::Branch { header: hid, child });
    let calls = if show {
        branch_call_log(ix, hid, 0)
    } else {
        seq![]
    };
    let into = if md.len() == 0 {
        seq![]
    } else if nested.len() == 0 {
        seq![Cause::Follow { header: hid }]
    } else {
        Seq::new(l.exits_of(nested).len(), |from: int| Cause::Join { header: hid, from })
    };
    let along = Seq::new(
        if md.len() == 0 {
            0
        } else {
            (md.len() - 1) as nat
        },
        |step: int| Cause::Along { header: hid, step },
    );
    out + calls + into + along
}

proof fn lemma_sorted_together(x: Seq<Cause>, y: Seq<Cause>)
    requires
        are_sorted(x),
        are_sorted(y),
        forall|c: Cause, d: Cause| #[trigger] x.contains(c) && #[trigger] y.contains(d) ==> step(c).0
            < step(d).0,
    ensures
        are_sorted(x + y),
{
    assert forall|i: int, j: int| 0 <= i < j < (x + y).len() implies step_before(
        step(#[trigger] (x + y)[i]),
        step(#[trigger] (x + y)[j]),
    ) by {
        if i < x.len() && j >= x.len() {
            assert(x.contains(x[i]));
            assert(y.contains(y[j - x.len()]));
        }
    }
}

proof fn lemma_joined(x: Seq<Cause>, y: Seq<Cause>)
    requires
        x.no_duplicates(),
        y.no_duplicates(),
        forall|c: Cause| #[trigger] x.contains(c) ==> !y.contains(c),
    ensures
        (x + y).no_duplicates(),
        forall|c: Cause| #[trigger] (x + y).contains(c) <==> x.contains(c) || y.contains(c),
{
    assert forall|i: int, j: int| 0 <= i < j < (x + y).len() implies (x + y)[i] != (x + y)[j] by {
        if i < x.len() && j >= x.len() {
            assert(x.contains(x[i]));
            assert(y.contains(y[j - x.len()]));
        }
    }
    assert forall|c: Cause| #[trigger] (x + y).contains(c) <==> x.contains(c) || y.contains(c) by {
        vstd::seq_lib::lemma_seq_concat_contains_all_elements(x, y, c);
    }
}

proof fn lemma_call_log(ix: IndexView, show: bool, hid: Hid)
    ensures
        call_log(ix, show, hid).no_duplicates(),
        forall|c: Cause| #[trigger]
            call_log(ix, show, hid).contains(c) <==> (show && (c matches Cause::Call { header, at }
                && header == hid && 0 <= at < ix.calls(hid).len())),
{
    let log = call_log(ix, show, hid);
    assert forall|c: Cause| #[trigger] log.contains(c) <==> (show && (c matches Cause::Call {
        header,
        at,
    } && header == hid && 0 <= at < ix.calls(hid).len())) by {
        if show {
            if let Cause::Call { header, at } = c {
                if header == hid && 0 <= at < ix.calls(hid).len() {
                    assert(log[at] == c);
                }
            }
        }
    }
}

/// A header without children has the causes of its calls.
pub(crate) proof fn lemma_leaf_causes(ix: IndexView, show: bool, m: Layout, hid: Hid)
    requires
        m.entry.contains_key(hid),
        flow::laid_as(ix, m, hid) == Shape::Leaf,
    ensures
        (Seq::<Cause>::empty() + call_log(ix, show, hid)).no_duplicates(),
        are_sorted(Seq::<Cause>::empty() + call_log(ix, show, hid)),
        forall|c: Cause| #[trigger]
            (Seq::<Cause>::empty() + call_log(ix, show, hid)).contains(c) <==> owner(c) == Some(hid)
                && is_cause(ix, show, m, c),
{
    lemma_call_log(ix, show, hid);
    assert(Seq::<Cause>::empty() + call_log(ix, show, hid) =~= call_log(ix, show, hid));
}

/// A branch has the causes of its calls and of what it leads to.
pub(crate) proof fn lemma_branch_causes(ix: IndexView, show: bool, m: Layout, hid: Hid)
    requires
        invariants::sound(ix, show, m),
        m.entry.contains_key(hid),
        flow::laid_as(ix, m, hid) == Shape::Branch,
        m.all_left(ix.nested_children(hid)),
    ensures
        (call_log(ix, show, hid) + branch_log(ix, show, m, hid)).no_duplicates(),
        are_sorted(call_log(ix, show, hid) + branch_log(ix, show, m, hid)),
        forall|c: Cause| #[trigger]
            (call_log(ix, show, hid) + branch_log(ix, show, m, hid)).contains(c) <==> owner(c)
                == Some(hid) && is_cause(ix, show, m, c),
{
    let md = ix.md_children(hid);
    let nested = ix.nested_children(hid);
    let own = call_log(ix, show, hid);
    let out = Seq::new(nested.len(), |child: int| Cause::Branch { header: hid, child });
    let calls = if show {
        branch_call_log(ix, hid, 0)
    } else {
        seq![]
    };
    let into = if md.len() == 0 {
        seq![]
    } else if nested.len() == 0 {
        seq![Cause::Follow { header: hid }]
    } else {
        Seq::new(m.exits_of(nested).len(), |from: int| Cause::Join { header: hid, from })
    };
    let n = if md.len() == 0 {
        0
    } else {
        (md.len() - 1) as nat
    };
    let along = Seq::new(n, |step: int| Cause::Along { header: hid, step });
    lemma_call_log(ix, show, hid);
    lemma_branch_call_log(ix, hid, 0);
    assert forall|c: Cause| #[trigger] out.contains(c) <==> (c matches Cause::Branch {
        header,
        child,
    } && header == hid && 0 <= child < nested.len()) by {
        if let Cause::Branch { header, child } = c {
            if header == hid && 0 <= child < nested.len() {
                assert(out[child] == c);
            }
        }
    }
    assert forall|c: Cause| #[trigger] along.contains(c) <==> (c matches Cause::Along {
        header,
        step,
    } && header == hid && 0 <= step < n) by {
        if let Cause::Along { header, step } = c {
            if header == hid && 0 <= step < n {
                assert(along[step] == c);
            }
        }
    }
    if nested.len() == 0 {
        assert(m.exits_of(nested) =~= seq![]);
    }
    let joins = m.exits_of(nested).len();
    assert forall|c: Cause| #[trigger] into.contains(c) <==> md.len() > 0 && ((c matches Cause::Join {
        header,
        from,
    } && header == hid && 0 <= from < joins) || (c matches Cause::Follow { header } && header == hid
        && nested.len() == 0)) by {
        if md.len() > 0 {
            if let Cause::Join { header, from } = c {
                if header == hid && 0 <= from < joins {
                    assert(into[from] == c);
                }
            }
            if let Cause::Follow { header } = c {
                if header == hid && nested.len() == 0 {
                    assert(into[0] == c);
                }
            }
        }
    }
    lemma_joined(out, calls);
    lemma_joined(out + calls, into);
    lemma_joined(out + calls + into, along);
    lemma_joined(own, out + calls + into + along);
    lemma_sorted_together(out, calls);
    lemma_sorted_together(out + calls, into);
    lemma_sorted_together(out + calls + into, along);
    lemma_sorted_together(own, out + calls + into + along);
    let all = own + branch_log(ix, show, m, hid);
    assert forall|c: Cause| #[trigger] all.contains(c) <==> owner(c) == Some(hid) && is_cause(
        ix,
        show,
        m,
        c,
    ) by {
        assert(all.contains(c) <==> own.contains(c) || out.contains(c) || calls.contains(c)
            || into.contains(c) || along.contains(c));
        match c {
            Cause::Call { .. } => {},
            Cause::Branch { .. } => {},
            Cause::BranchCall { .. } => {},
            Cause::Join { .. } => {},
            Cause::Follow { .. } => {},
            Cause::Along { .. } => {},
            Cause::Line { .. } => {},
            Cause::Next { .. } => {},
            Cause::Item { .. } => {},
        }
    }
}

/// The edges between the items of a scope from the `k`th on: those of the item, those
/// that lead to it, and those from there on.
pub(crate) proof fn lemma_tells_item(
    ix: IndexView,
    show: bool,
    l: Layout,
    n: Layout,
    o: Layout,
    m: Layout,
    scope: ScopeId,
    k: int,
    prev: Seq<NodeId>,
)
    requires
        l.visited.contains(scope),
        invariants::extends(ix, l, n),
        invariants::sound(ix, show, n),
        flow::flows(ix, show, l, n),
        tells(ix, show, l, n),
        0 <= k < ix.scope_items(scope).len(),
        n.entry.contains_key(ix.scope_items(scope)[k]),
        o == n.link(model::edges_into(prev, n.entry[ix.scope_items(scope)[k]])),
        k == 0 ==> prev.len() == 0,
        k > 0 ==> n.exits.contains_key(ix.scope_items(scope)[k - 1]),
        k > 0 ==> prev == n.exits[ix.scope_items(scope)[k - 1]],
        n.all_entered(ix.scope_items(scope).take(k + 1)),
        invariants::extends(ix, n, m),
        invariants::keeps_entries(o, m),
        flow::keeps_exits(o, m),
        tells_items(ix, show, o, m, scope, k + 1),
    ensures
        tells_items(ix, show, l, m, scope, k),
{
    reveal(tells);
    reveal(tells_items);
    let items = ix.scope_items(scope);
    let x = choose|x: Seq<Cause>| logs_with(ix, show, l, n, x, None, 0);
    let after = k + 1;
    let y = choose|y: Seq<Cause>| logs_with(ix, show, o, m, y, Some(scope), after);
    let row = Seq::new(prev.len(), |from: int| Cause::Item { scope, item: k - 1, from });
    let edges = model::edges_into(prev, n.entry[items[k]]);
    let z = row + y;
    assert(n.visited.contains(scope));
    assert(m.visited.contains(scope));
    assert forall|c: Cause| #[trigger] row.contains(c) <==> k > 0 && (c matches Cause::Item {
        scope: s,
        item,
        from,
    } && s == scope && item == k - 1 && 0 <= from < prev.len()) by {
        if let Cause::Item { scope: s, item, from } = c {
            if s == scope && item == k - 1 && 0 <= from < prev.len() {
                assert(row[from] == c);
            }
        }
    }
    assert(o.entry.contains_key(items[k]));
    if k > 0 {
        assert(o.exits.contains_key(items[k - 1]));
    }
    assert(edges_of(ix, m, row) =~= edges) by {
        assert forall|i: int| 0 <= i < row.len() implies edge_of(ix, m, #[trigger] row[i])
            == edges[i] by {
            assert(k > 0);
        }
    }
    assert(edges_of(ix, m, z) =~= edges_of(ix, m, row) + edges_of(ix, m, y));
    assert(m.edges =~= n.edges + edges_of(ix, m, z));
    lemma_joined(row, y);
    assert forall|i: int, j: int| 0 <= i < j < z.len() implies !comes_first(
        ix,
        #[trigger] z[j],
        #[trigger] z[i],
    ) by {
        if i < row.len() && j >= row.len() {
            assert(z[i] == row[i] && z[j] == y[j - row.len()]);
            assert(row.contains(row[i]));
            assert(y.contains(y[j - row.len()]));
            if is_part(ix, z[j], z[i]) {
                let h = owner(z[j])->0;
                let q = choose|q: int| 0 <= q <= k && q < items.len() && #[trigger] items[q] == h;
                assert(items.take(k + 1)[q] == h);
                assert(n.entry.contains_key(h));
            }
        } else if i >= row.len() {
            assert(z[i] == y[i - row.len()] && z[j] == y[j - row.len()]);
        } else {
            assert(z[i] == row[i] && z[j] == row[j]);
        }
    }
    assert forall|c: Cause| #[trigger] z.contains(c) <==> is_new(ix, show, n, m, c) || is_pending(
        ix,
        show,
        m,
        c,
        Some(scope),
        k,
    ) by {
        assert(z.contains(c) <==> row.contains(c) || y.contains(c));
        assert(is_new(ix, show, n, m, c) == is_new(ix, show, o, m, c));
    }
    assert(logs_with(ix, show, n, m, z, Some(scope), k));
    assert forall|h: Hid| #[trigger] n.entry.contains_key(h) implies m.entry.contains_key(h)
        && m.entry[h] == n.entry[h] by {
        assert(o.entry.contains_key(h));
    }
    assert forall|h: Hid| #[trigger] n.exits.contains_key(h) implies m.exits.contains_key(h)
        && m.exits[h] == n.exits[h] by {
        assert(o.exits.contains_key(h));
    }
    lemma_logs_chain(ix, show, l, n, m, x, z, Some(scope), k);
}

/// There is nothing to tell of a scope beyond its last item.
pub(crate) proof fn lemma_tells_items_end(ix: IndexView, show: bool, l: Layout, scope: ScopeId)
    ensures
        tells_items(ix, show, l, l, scope, ix.scope_items(scope).len() as int),
{
    reveal(tells_items);
    let log = Seq::<Cause>::empty();
    assert(l.edges + edges_of(ix, l, log) =~= l.edges);
    assert(logs_with(ix, show, l, l, log, Some(scope), ix.scope_items(scope).len() as int));
}

/// All edges between the items of a scope.
pub(crate) proof fn lemma_tells_scope(
    ix: IndexView,
    show: bool,
    l: Layout,
    m: Layout,
    scope: ScopeId,
)
    requires
        !l.visited.contains(scope),
        m.visited.contains(scope),
        tells_items(ix, show, l.visit(scope), m, scope, 0),
    ensures
        tells(ix, show, l, m),
{
    reveal(tells);
    reveal(tells_items);
    let v = l.visit(scope);
    let log = choose|log: Seq<Cause>| logs_with(ix, show, v, m, log, Some(scope), 0);
    assert forall|c: Cause| #[trigger] log.contains(c) <==> is_new(ix, show, l, m, c) by {
        assert(log.contains(c) <==> is_new(ix, show, v, m, c) || is_pending(
            ix,
            show,
            m,
            c,
            Some(scope),
            0,
        ));
    }
    assert(logs_with(ix, show, l, m, log, None, 0));
}

/// The causes of all edges.
pub(crate) proof fn lemma_all_told(ix: IndexView, show: bool, m: Layout) -> (log: Seq<Cause>)
    requires
        tells(ix, show, Layout::empty(), m),
    ensures
        explains(ix, show, m, log),
{
    reveal(tells);
    let l = Layout::empty();
    let log = choose|log: Seq<Cause>| logs_with(ix, show, l, m, log, None, 0);
    assert(l.edges + edges_of(ix, m, log) =~= edges_of(ix, m, log));
    assert forall|c: Cause| #[trigger] log.contains(c) <==> is_cause(ix, show, m, c) by {
        assert(log.contains(c) <==> is_new(ix, show, l, m, c));
        assert(is_cause(ix, show, m, c) ==> (c is Item || owner(c) is Some));
    }
    log
}

/// The log of a container depends only on how its children are left.
pub(crate) proof fn lemma_next_log_kept(ix: IndexView, l: Layout, m: Layout, hid: Hid, k: int)
    requires
        0 <= k,
        forall|i: int|
            0 <= i < flow::children_in_order(ix, hid).len() ==> {
                let by = flow::left_by(ix, hid, #[trigger] flow::children_in_order(ix, hid)[i]);
                m.exits[by] == l.exits[by]
            },
    ensures
        next_log(ix, m, hid, k) == next_log(ix, l, hid, k),
    decreases flow::children_in_order(ix, hid).len() - k,
{
    let all = flow::children_in_order(ix, hid);
    if k < all.len() - 1 {
        lemma_next_log_kept(ix, l, m, hid, k + 1);
        let by = flow::left_by(ix, hid, all[k]);
        assert(m.exits[by] == l.exits[by]);
    }
}

pub(crate) proof fn lemma_next_log_same(ix: IndexView, l: Layout, m: Layout, hid: Hid, k: int)
    requires
        0 <= k,
        m.exits == l.exits,
    ensures
        next_log(ix, m, hid, k) == next_log(ix, l, hid, k),
{
    lemma_next_log_kept(ix, l, m, hid, k);
}

/// A header in line has the cause of the edge to its child.
pub(crate) proof fn lemma_line_causes(ix: IndexView, show: bool, m: Layout, hid: Hid)
    requires
        m.entry.contains_key(hid),
        flow::laid_as(ix, m, hid) == Shape::Flat,
    ensures
        (Seq::<Cause>::empty() + seq![Cause::Line { header: hid }]).no_duplicates(),
        are_sorted(Seq::<Cause>::empty() + seq![Cause::Line { header: hid }]),
        forall|c: Cause| #[trigger]
            (Seq::<Cause>::empty() + seq![Cause::Line { header: hid }]).contains(c) <==> owner(c)
                == Some(hid) && is_cause(ix, show, m, c),
{
    let log = seq![Cause::Line { header: hid }];
    assert(Seq::<Cause>::empty() + log =~= log);
    assert(log.contains(log[0]));
}

/// A container has the causes of the edges between its children.
pub(crate) proof fn lemma_container_causes(ix: IndexView, show: bool, m: Layout, hid: Hid)
    requires
        m.entry.contains_key(hid),
        flow::laid_as(ix, m, hid) == Shape::Container,
    ensures
        (Seq::<Cause>::empty() + next_log(ix, m, hid, 0)).no_duplicates(),
        are_sorted(Seq::<Cause>::empty() + next_log(ix, m, hid, 0)),
        forall|c: Cause| #[trigger]
            (Seq::<Cause>::empty() + next_log(ix, m, hid, 0)).contains(c) <==> owner(c) == Some(hid)
                && is_cause(ix, show, m, c),
{
    lemma_next_log(ix, m, hid, 0);
    assert(Seq::<Cause>::empty() + next_log(ix, m, hid, 0) =~= next_log(ix, m, hid, 0));
}

} // verus!
