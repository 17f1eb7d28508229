//! What the tables of an index hold, told by the places of the headers and edges that
//! they are made of.
use vstd::prelude::*;
use crate::index;
use crate::index::{HeaderView, Hid, IndexView, ScopeId};
use crate::laws;
use crate::order::Rel;
use crate::span;
use crate::span::SpanView;
use crate::tops;

verus! {

/// Whether the header at a place is the last one with a number.
pub open spec fn is_last_numbered(ix: IndexView, i: int, hid: Hid) -> bool {
    &&& 0 <= i < ix.headers.len()
    &&& ix.headers[i].hid == hid
    &&& forall|j: int| i < j < ix.headers.len() ==> (#[trigger] ix.headers[j]).hid != hid
}

/// Whether the header at a place is the last one with a name.
pub open spec fn is_last_named(ix: IndexView, i: int, id: Seq<char>) -> bool {
    &&& 0 <= i < ix.headers.len()
    &&& ix.headers[i].id == id
    &&& forall|j: int| i < j < ix.headers.len() ==> (#[trigger] ix.headers[j]).id != id
}

/// Whether a number belongs to a header of a scope.
pub open spec fn is_in_scope(ix: IndexView, hid: Hid, scope: ScopeId) -> bool {
    exists|i: int| #[trigger] is_last_numbered(ix, i, hid) && ix.headers[i].scope == scope
}

/// Whether the header at a place names the one at another place as its parent, which
/// is the last of that name, has the number `p` and stands in the same scope.
pub open spec fn names(ix: IndexView, i: int, j: int, p: Hid) -> bool {
    &&& ix.headers[i].parent_id matches Some(id) && is_last_named(ix, j, id)
    &&& ix.headers[j].hid == p
    &&& is_in_scope(ix, p, ix.headers[i].scope)
}

/// Whether the header at a place has `p` as its parent.
pub open spec fn has_parent(ix: IndexView, i: int, p: Hid) -> bool {
    exists|j: int| #[trigger] names(ix, i, j, p)
}

/// Whether some header with the number has a parent.
pub open spec fn is_a_child(ix: IndexView, hid: Hid) -> bool {
    exists|i: int, p: Hid|
        0 <= i < ix.headers.len() && (#[trigger] ix.headers[i]).hid == hid && #[trigger] has_parent(
            ix,
            i,
            p,
        )
}

/// Whether the nested edge at a place leads from `p` into another scope.
pub open spec fn leads_out(ix: IndexView, e: int, p: Hid) -> bool {
    &&& ix.nested_edges[e].0 == p
    &&& exists|s: ScopeId|
        #![trigger is_in_scope(ix, p, s)]
        is_in_scope(ix, p, s) && !is_in_scope(ix, ix.nested_edges[e].1, s)
}

/// Whether places are those of a list of length `n` that satisfy a predicate, in
/// order.
pub open spec fn are_places(pos: Seq<int>, n: nat, pred: spec_fn(int) -> bool) -> bool {
    &&& forall|a: int, b: int| 0 <= a < b < pos.len() ==> #[trigger] pos[a] < #[trigger] pos[b]
    &&& forall|i: int| #[trigger] pos.contains(i) <==> 0 <= i < n && pred(i)
}

/// What is filtered out of a list comes from places of the list, in order.
proof fn lemma_filter_places<T>(s: Seq<T>, pred: spec_fn(T) -> bool) -> (pos: Seq<int>)
    ensures
        are_places(pos, s.len(), |i: int| pred(s[i])),
        s.filter(pred).len() == pos.len(),
        forall|k: int| 0 <= k < pos.len() ==> s.filter(pred)[k] == s[#[trigger] pos[k]],
    decreases s.len(),
{
    reveal(Seq::filter);
    if s.len() == 0 {
        Seq::empty()
    } else {
        let rest = s.drop_last();
        let last = s.len() - 1;
        let before = lemma_filter_places(rest, pred);
        assert forall|k: int| 0 <= k < before.len() implies 0 <= #[trigger] before[k] < last by {
            assert(before.contains(before[k]));
        }
        let pos = if pred(s.last()) {
            before.push(last)
        } else {
            before
        };
        assert forall|i: int| #[trigger] pos.contains(i) <==> 0 <= i < s.len() && pred(s[i]) by {
            if pos.contains(i) {
                let k = choose|k: int| 0 <= k < pos.len() && pos[k] == i;
                if k < before.len() {
                    assert(before.contains(before[k]));
                }
            }
            if 0 <= i < s.len() && pred(s[i]) {
                if i < last {
                    assert(rest[i] == s[i]);
                    assert(before.contains(i));
                    let k = choose|k: int| 0 <= k < before.len() && before[k] == i;
                    assert(pos[k] == i);
                } else {
                    assert(pos[before.len() as int] == i);
                }
            }
        }
        pos
    }
}

/// A number finds the last header that has it, and nothing if no header does.
pub proof fn numbers_find_their_last_header(ix: IndexView, hid: Hid)
    ensures
        match ix.header(hid) {
            Some(h) => exists|i: int| #[trigger]
                is_last_numbered(ix, i, hid) && ix.headers[i] == h,
            None => forall|i: int|
                0 <= i < ix.headers.len() ==> (#[trigger] ix.headers[i]).hid != hid,
        },
{
    lemma_last_numbered(ix, hid, ix.headers.len() as int);
    assert(ix.headers.take(ix.headers.len() as int) =~= ix.headers);
}

proof fn lemma_last_numbered(ix: IndexView, hid: Hid, n: int)
    requires
        0 <= n <= ix.headers.len(),
        forall|j: int| n <= j < ix.headers.len() ==> (#[trigger] ix.headers[j]).hid != hid,
    ensures
        match index::last_with_hid(ix.headers.take(n), hid) {
            Some(h) => exists|i: int| #[trigger]
                is_last_numbered(ix, i, hid) && ix.headers[i] == h,
            None => forall|i: int|
                0 <= i < ix.headers.len() ==> (#[trigger] ix.headers[i]).hid != hid,
        },
    decreases n,
{
    let some = ix.headers.take(n);
    if n > 0 {
        assert(some.last() == ix.headers[n - 1]);
        assert(some.drop_last() =~= ix.headers.take(n - 1));
        if ix.headers[n - 1].hid == hid {
            assert(is_last_numbered(ix, n - 1, hid));
        } else {
            lemma_last_numbered(ix, hid, n - 1);
        }
    }
}

proof fn lemma_last_named(ix: IndexView, id: Seq<char>, n: int)
    requires
        0 <= n <= ix.headers.len(),
        forall|j: int| n <= j < ix.headers.len() ==> (#[trigger] ix.headers[j]).id != id,
    ensures
        match index::last_with_id(ix.headers.take(n), id) {
            Some(h) => exists|i: int| #[trigger] is_last_named(ix, i, id) && ix.headers[i] == h,
            None => forall|i: int|
                0 <= i < ix.headers.len() ==> (#[trigger] ix.headers[i]).id != id,
        },
    decreases n,
{
    let some = ix.headers.take(n);
    if n > 0 {
        assert(some.last() == ix.headers[n - 1]);
        assert(some.drop_last() =~= ix.headers.take(n - 1));
        if ix.headers[n - 1].id == id {
            assert(is_last_named(ix, n - 1, id));
        } else {
            lemma_last_named(ix, id, n - 1);
        }
    }
}

/// The scope of a number that has a header.
proof fn lemma_in_scope(ix: IndexView, hid: Hid, scope: ScopeId)
    requires
        ix.header(hid) is Some,
    ensures
        is_in_scope(ix, hid, scope) <==> ix.scope_of(hid) == scope,
{
    numbers_find_their_last_header(ix, hid);
    let i = choose|i: int| #[trigger]
        is_last_numbered(ix, i, hid) && ix.headers[i] == ix.header(hid)->0;
    if is_in_scope(ix, hid, scope) {
        let j = choose|j: int| #[trigger]
            is_last_numbered(ix, j, hid) && ix.headers[j].scope == scope;
        if i < j {
            assert(ix.headers[j].hid != hid);
        }
        if j < i {
            assert(ix.headers[i].hid != hid);
        }
    }
    if ix.scope_of(hid) == scope {
        assert(is_last_numbered(ix, i, hid) && ix.headers[i].scope == scope);
    }
}

/// The parent of the header at a place.
proof fn lemma_parent(ix: IndexView, i: int, p: Hid)
    requires
        0 <= i < ix.headers.len(),
    ensures
        has_parent(ix, i, p) <==> ix.md_parent(ix.headers[i]) == Some(p),
{
    let h = ix.headers[i];
    if let Some(id) = h.parent_id {
        lemma_last_named(ix, id, ix.headers.len() as int);
        assert(ix.headers.take(ix.headers.len() as int) =~= ix.headers);
        if let Some(parent) = index::last_with_id(ix.headers, id) {
            let k = choose|k: int| #[trigger] is_last_named(ix, k, id) && ix.headers[k] == parent;
            index::lemma_last_with_hid(ix.headers, parent.hid);
            assert(ix.headers[k].hid == parent.hid);
            lemma_in_scope(ix, parent.hid, h.scope);
            if has_parent(ix, i, p) {
                let j = choose|j: int| #[trigger] names(ix, i, j, p);
                if j < k {
                    assert(ix.headers[k].id != id);
                }
                if k < j {
                    assert(ix.headers[j].id != id);
                }
            }
            if ix.md_parent(h) == Some(p) {
                assert(names(ix, i, k, p));
            }
        } else {
            if has_parent(ix, i, p) {
                let j = choose|j: int| #[trigger] names(ix, i, j, p);
                assert(ix.headers[j].id == id);
            }
        }
    }
}

/// The children of a header within its scope are the headers that have it as their
/// parent: those that name it, where the last header of that name and its number
/// counts, and that stand in the same scope. They come in the order of the headers.
pub proof fn children_are_those_that_name_their_parent(ix: IndexView, p: Hid) -> (pos: Seq<int>)
    ensures
        are_places(pos, ix.headers.len(), |i: int| has_parent(ix, i, p)),
        ix.md_children(p).len() == pos.len(),
        forall|k: int|
            0 <= k < pos.len() ==> ix.md_children(p)[k] == ix.headers[#[trigger] pos[k]].hid,
{
    let pred = |h: HeaderView| ix.md_parent(h) == Some(p);
    let pos = lemma_filter_places(ix.headers, pred);
    assert forall|i: int| #[trigger] pos.contains(i) <==> 0 <= i < ix.headers.len() && has_parent(
        ix,
        i,
        p,
    ) by {
        if 0 <= i < ix.headers.len() {
            lemma_parent(ix, i, p);
        }
        let at = |i: int| pred(ix.headers[i]);
        assert(pos.contains(i) <==> 0 <= i < ix.headers.len() && at(i));
    }
    assert(are_places(pos, ix.headers.len(), |i: int| has_parent(ix, i, p)));
    pos
}

/// The nested children of a header are the ends of the nested edges that lead from it
/// into another scope, in the order of the edges.
pub proof fn nested_children_end_edges_into_other_scopes(ix: IndexView, p: Hid) -> (pos: Seq<int>)
    requires
        ix.edges_known(),
    ensures
        are_places(pos, ix.nested_edges.len(), |e: int| leads_out(ix, e, p)),
        ix.nested_children(p).len() == pos.len(),
        forall|k: int|
            0 <= k < pos.len() ==> ix.nested_children(p)[k] == ix.nested_edges[#[trigger] pos[k]].1,
{
    let crossing = |e: (Hid, Hid)| ix.enters_scope(e);
    let outer = lemma_filter_places(ix.nested_edges, crossing);
    let es = ix.scope_edges();
    let inner = lemma_filter_places(es, index::starts_at(p));
    let pos = Seq::new(inner.len(), |k: int| outer[inner[k]]);
    let at = |i: int| crossing(ix.nested_edges[i]);
    let on = |i: int| index::starts_at(p)(es[i]);
    assert forall|k: int| 0 <= k < inner.len() implies 0 <= #[trigger] inner[k] < outer.len() by {
        assert(inner.contains(inner[k]));
        assert(0 <= inner[k] < es.len() && on(inner[k]));
    }
    assert forall|a: int, b: int| 0 <= a < b < pos.len() implies #[trigger] pos[a]
        < #[trigger] pos[b] by {
        assert(inner[a] < inner[b]);
        assert(outer[inner[a]] < outer[inner[b]]);
    }
    assert forall|k: int| 0 <= k < pos.len() implies ix.nested_children(p)[k]
        == ix.nested_edges[#[trigger] pos[k]].1 by {
        assert(es.filter(index::starts_at(p))[k] == es[inner[k]]);
        assert(es[inner[k]] == ix.nested_edges[outer[inner[k]]]);
    }
    assert forall|e: int| #[trigger] pos.contains(e) <==> 0 <= e < ix.nested_edges.len()
        && leads_out(ix, e, p) by {
        if 0 <= e < ix.nested_edges.len() {
            lemma_leads_out(ix, e, p);
        }
        if pos.contains(e) {
            let k = choose|k: int| 0 <= k < pos.len() && pos[k] == e;
            assert(outer.contains(outer[inner[k]]));
            assert(0 <= e < ix.nested_edges.len() && at(e));
            assert(inner.contains(inner[k]));
            assert(on(inner[k]));
            assert(es[inner[k]] == ix.nested_edges[outer[inner[k]]]);
        }
        if 0 <= e < ix.nested_edges.len() && leads_out(ix, e, p) {
            assert(at(e));
            assert(outer.contains(e));
            let i = choose|i: int| 0 <= i < outer.len() && outer[i] == e;
            assert(es[i] == ix.nested_edges[e]);
            assert(on(i));
            assert(inner.contains(i));
            let k = choose|k: int| 0 <= k < inner.len() && inner[k] == i;
            assert(pos[k] == e);
        }
    }
    pos
}

proof fn lemma_leads_out(ix: IndexView, e: int, p: Hid)
    requires
        ix.edges_known(),
        0 <= e < ix.nested_edges.len(),
    ensures
        leads_out(ix, e, p) <==> ix.nested_edges[e].0 == p && ix.enters_scope(ix.nested_edges[e]),
{
    let edge = ix.nested_edges[e];
    let s = ix.scope_of(edge.0);
    lemma_in_scope(ix, edge.0, s);
    lemma_in_scope(ix, edge.1, s);
    if leads_out(ix, e, p) {
        let t = choose|t: ScopeId|
            #![trigger is_in_scope(ix, p, t)]
            is_in_scope(ix, p, t) && !is_in_scope(ix, edge.1, t);
        lemma_in_scope(ix, p, t);
        lemma_in_scope(ix, edge.1, t);
    }
}

/// Whether a number is of a header with a parent.
proof fn lemma_child(ix: IndexView, hid: Hid)
    ensures
        is_a_child(ix, hid) <==> ix.has_md_parent(hid),
{
    if is_a_child(ix, hid) {
        let (i, p) = choose|i: int, p: Hid|
            0 <= i < ix.headers.len() && (#[trigger] ix.headers[i]).hid == hid
                && #[trigger] has_parent(ix, i, p);
        lemma_parent(ix, i, p);
        assert(ix.headers[i].hid == hid);
    }
    if ix.has_md_parent(hid) {
        let i = choose|i: int|
            #![trigger ix.headers[i]]
            0 <= i < ix.headers.len() && ix.headers[i].hid == hid && ix.md_parent(
                ix.headers[i],
            ) is Some;
        let p = ix.md_parent(ix.headers[i])->0;
        lemma_parent(ix, i, p);
        assert(ix.headers[i].hid == hid && has_parent(ix, i, p));
    }
}

/// The headers of a scope come in the order of the headers.
pub proof fn headers_of_a_scope_keep_their_order(ix: IndexView, scope: ScopeId) -> (pos: Seq<int>)
    ensures
        are_places(pos, ix.headers.len(), |i: int| ix.headers[i].scope == scope),
        ix.headers_in_scope(scope).len() == pos.len(),
        forall|k: int|
            0 <= k < pos.len() ==> ix.headers_in_scope(scope)[k] == ix.headers[#[trigger] pos[k]],
{
    let pred = |h: HeaderView| h.scope == scope;
    let pos = lemma_filter_places(ix.headers, pred);
    assert forall|i: int| #[trigger] pos.contains(i) <==> 0 <= i < ix.headers.len()
        && ix.headers[i].scope == scope by {
        let at = |i: int| pred(ix.headers[i]);
        assert(pos.contains(i) <==> 0 <= i < ix.headers.len() && at(i));
    }
    assert(are_places(pos, ix.headers.len(), |i: int| ix.headers[i].scope == scope));
    pos
}

/// The items of a scope are those of its headers whose number is of no header with a
/// parent, in the order of the headers.
pub proof fn items_are_headers_without_a_parent(ix: IndexView, scope: ScopeId) -> (pos: Seq<int>)
    ensures
        are_places(
            pos,
            ix.headers.len(),
            |i: int| ix.headers[i].scope == scope && !is_a_child(ix, ix.headers[i].hid),
        ),
        ix.scope_items(scope).len() == pos.len(),
        forall|k: int|
            0 <= k < pos.len() ==> ix.scope_items(scope)[k] == ix.headers[#[trigger] pos[k]].hid,
{
    let pred = |h: HeaderView| h.scope == scope;
    let free = |h: HeaderView| !ix.has_md_parent(h.hid);
    let found = ix.headers_in_scope(scope);
    let outer = lemma_filter_places(ix.headers, pred);
    let inner = lemma_filter_places(found, free);
    let pos = Seq::new(inner.len(), |k: int| outer[inner[k]]);
    let at = |i: int| pred(ix.headers[i]);
    let on = |i: int| free(found[i]);
    assert forall|k: int| 0 <= k < inner.len() implies 0 <= #[trigger] inner[k] < outer.len() by {
        assert(inner.contains(inner[k]));
        assert(0 <= inner[k] < found.len() && on(inner[k]));
    }
    assert forall|a: int, b: int| 0 <= a < b < pos.len() implies #[trigger] pos[a]
        < #[trigger] pos[b] by {
        assert(inner[a] < inner[b]);
        assert(outer[inner[a]] < outer[inner[b]]);
    }
    assert forall|k: int| 0 <= k < pos.len() implies ix.scope_items(scope)[k]
        == ix.headers[#[trigger] pos[k]].hid by {
        assert(found.filter(free)[k] == found[inner[k]]);
        assert(found[inner[k]] == ix.headers[outer[inner[k]]]);
    }
    assert forall|i: int| #[trigger] pos.contains(i) <==> 0 <= i < ix.headers.len()
        && ix.headers[i].scope == scope && !is_a_child(ix, ix.headers[i].hid) by {
        if 0 <= i < ix.headers.len() {
            lemma_child(ix, ix.headers[i].hid);
        }
        if pos.contains(i) {
            let k = choose|k: int| 0 <= k < pos.len() && pos[k] == i;
            assert(outer.contains(outer[inner[k]]));
            assert(0 <= i < ix.headers.len() && at(i));
            assert(inner.contains(inner[k]));
            assert(on(inner[k]));
            assert(found[inner[k]] == ix.headers[outer[inner[k]]]);
        }
        if 0 <= i < ix.headers.len() && ix.headers[i].scope == scope && !is_a_child(
            ix,
            ix.headers[i].hid,
        ) {
            assert(at(i));
            assert(outer.contains(i));
            let j = choose|j: int| 0 <= j < outer.len() && outer[j] == i;
            assert(found[j] == ix.headers[i]);
            assert(on(j));
            assert(inner.contains(j));
            let k = choose|k: int| 0 <= k < inner.len() && inner[k] == j;
            assert(pos[k] == i);
        }
    }
    pos
}

/// Whether the header at a place is the first one of its scope.
pub open spec fn is_first_of_scope(ix: IndexView, i: int, scope: ScopeId) -> bool {
    &&& 0 <= i < ix.headers.len()
    &&& ix.headers[i].scope == scope
    &&& forall|j: int| 0 <= j < i ==> (#[trigger] ix.headers[j]).scope != scope
}

/// Whether a nested edge leads from another scope to a number.
pub open spec fn is_entered(ix: IndexView, hid: Hid) -> bool {
    exists|e: int, p: Hid|
        0 <= e < ix.nested_edges.len() && (#[trigger] ix.nested_edges[e]).1 == hid
            && #[trigger] leads_out(ix, e, p)
}

/// The first header of a scope.
proof fn lemma_first(ix: IndexView, i: int, scope: ScopeId)
    requires
        is_first_of_scope(ix, i, scope),
    ensures
        ix.headers_in_scope(scope).len() > 0,
        ix.headers_in_scope(scope)[0] == ix.headers[i],
{
    let pos = headers_of_a_scope_keep_their_order(ix, scope);
    let at = |i: int| ix.headers[i].scope == scope;
    assert(0 <= i < ix.headers.len() && at(i));
    assert(pos.contains(i));
    let k = choose|k: int| 0 <= k < pos.len() && pos[k] == i;
    assert(pos.contains(pos[0]));
    assert(0 <= pos[0] < ix.headers.len() && at(pos[0]));
    if k > 0 {
        assert(pos[0] < pos[k]);
    }
}

/// The top-level scopes are those whose first header no nested edge enters from
/// another scope.
pub proof fn top_level_scopes_are_not_entered(ix: IndexView, scope: ScopeId)
    requires
        ix.edges_known(),
    ensures
        tops::top_scopes(ix).contains(scope) <==> exists|i: int| #[trigger]
            is_first_of_scope(ix, i, scope) && !is_entered(ix, ix.headers[i].hid),
{
    tops::top_scopes_are_sorted(ix);
    if ix.headers_in_scope(scope).len() > 0 {
        let pos = headers_of_a_scope_keep_their_order(ix, scope);
        let at = |i: int| ix.headers[i].scope == scope;
        let i = pos[0];
        assert(pos.contains(i));
        assert(0 <= i < ix.headers.len() && at(i));
        assert(is_first_of_scope(ix, i, scope)) by {
            assert forall|j: int| 0 <= j < i implies (#[trigger] ix.headers[j]).scope != scope by {
                if ix.headers[j].scope == scope {
                    assert(at(j));
                    assert(pos.contains(j));
                    let k = choose|k: int| 0 <= k < pos.len() && pos[k] == j;
                    if k > 0 {
                        assert(pos[0] < pos[k]);
                    }
                }
            }
        }
        assert(ix.headers_in_scope(scope)[0] == ix.headers[i]);
        lemma_entered(ix, ix.headers[i].hid);
    }
    if exists|i: int| #[trigger]
        is_first_of_scope(ix, i, scope) && !is_entered(ix, ix.headers[i].hid) {
        let i = choose|i: int| #[trigger]
            is_first_of_scope(ix, i, scope) && !is_entered(ix, ix.headers[i].hid);
        lemma_first(ix, i, scope);
        lemma_entered(ix, ix.headers[i].hid);
    }
}

proof fn lemma_entered(ix: IndexView, hid: Hid)
    requires
        ix.edges_known(),
    ensures
        is_entered(ix, hid) <==> ix.is_nested_target(hid),
{
    laws::targets_are_children(ix, hid);
    if is_entered(ix, hid) {
        let (e, p) = choose|e: int, p: Hid|
            0 <= e < ix.nested_edges.len() && (#[trigger] ix.nested_edges[e]).1 == hid
                && #[trigger] leads_out(ix, e, p);
        lemma_leads_out(ix, e, p);
        assert(ix.nested_edges[e] == (p, hid));
        assert(ix.nested_edges.contains((p, hid)));
        laws::nested_children_cross_scopes(ix, p, hid);
    }
    if ix.is_nested_target(hid) {
        let p = choose|p: Hid| #[trigger] ix.nested_children(p).contains(hid);
        laws::nested_children_cross_scopes(ix, p, hid);
        let e = choose|e: int| 0 <= e < ix.nested_edges.len() && ix.nested_edges[e] == (p, hid);
        lemma_leads_out(ix, e, p);
        assert(ix.nested_edges[e].1 == hid && leads_out(ix, e, p));
    }
}

/// Whether the header of a number has a span.
pub open spec fn has_span(ix: IndexView, hid: Hid, at: SpanView) -> bool {
    exists|i: int| #[trigger] is_last_numbered(ix, i, hid) && ix.headers[i].span == at
}

/// Of two top-level scopes the one whose first header has the earlier range comes
/// first; where the ranges are the same, the one whose first header comes first does.
pub proof fn top_level_scopes_come_by_range(
    ix: IndexView,
    a: int,
    b: int,
    i: int,
    j: int,
    x: SpanView,
    y: SpanView,
)
    requires
        0 <= a < b < tops::top_scopes(ix).len(),
        is_first_of_scope(ix, i, tops::top_scopes(ix)[a]),
        is_first_of_scope(ix, j, tops::top_scopes(ix)[b]),
        has_span(ix, ix.headers[i].hid, x),
        has_span(ix, ix.headers[j].hid, y),
    ensures
        span::range_rel(x, y) == Rel::Before || (span::range_rel(x, y) == Rel::Same && i < j),
{
    let s = tops::top_scopes(ix)[a];
    let t = tops::top_scopes(ix)[b];
    tops::top_scopes_are_sorted(ix);
    lemma_first(ix, i, s);
    lemma_first(ix, j, t);
    lemma_span(ix, ix.headers[i].hid, x);
    lemma_span(ix, ix.headers[j].hid, y);
    assert(tops::root_span(ix, s) == x);
    assert(tops::root_span(ix, t) == y);
    if span::range_rel(x, y) == Rel::Same {
        assert(tops::stands_before(tops::unsorted_tops(ix), s, t));
        let known = index::scopes_in_order(ix.headers);
        let pred = |s: ScopeId| tops::is_top_level(ix, s);
        let pos = lemma_filter_places(known, pred);
        let (c, d) = choose|c: int, d: int|
            0 <= c < d < tops::unsorted_tops(ix).len() && #[trigger] tops::unsorted_tops(ix)[c] == s
                && #[trigger] tops::unsorted_tops(ix)[d] == t;
        assert(pos[c] < pos[d]);
        assert(known[pos[c]] == s && known[pos[d]] == t);
        assert(pos.contains(pos[c]) && pos.contains(pos[d]));
        let at = |i: int| pred(known[i]);
        assert(0 <= pos[c] < known.len() && 0 <= pos[d] < known.len()) by {
            assert(pos.contains(pos[c]) ==> 0 <= pos[c] < known.len() && at(pos[c]));
            assert(pos.contains(pos[d]) ==> 0 <= pos[d] < known.len() && at(pos[d]));
        }
        lemma_first_order(ix.headers, pos[c], pos[d], i, j);
    }
}

/// Scopes come in the order of their first headers.
proof fn lemma_first_order(headers: Seq<HeaderView>, c: int, d: int, i: int, j: int)
    requires
        0 <= c < d < index::scopes_in_order(headers).len(),
        0 <= i < headers.len(),
        headers[i].scope == index::scopes_in_order(headers)[c],
        forall|k: int| 0 <= k < i ==> (#[trigger] headers[k]).scope != headers[i].scope,
        0 <= j < headers.len(),
        headers[j].scope == index::scopes_in_order(headers)[d],
        forall|k: int| 0 <= k < j ==> (#[trigger] headers[k]).scope != headers[j].scope,
    ensures
        i < j,
    decreases headers.len(),
{
    let rest = headers.drop_last();
    let before = index::scopes_in_order(rest);
    let known = index::scopes_in_order(headers);
    tops::lemma_scopes_in_order(rest);
    tops::lemma_scopes_in_order(headers);
    assert(known[c] == before[c]);
    assert(before.contains(known[c]));
    let m = choose|m: int| 0 <= m < rest.len() && (#[trigger] rest[m]).scope == known[c];
    if i == rest.len() {
        assert(headers[m].scope != headers[i].scope);
    }
    assert forall|k: int| 0 <= k < rest.len() implies #[trigger] rest[k] == headers[k] by {}
    if d < before.len() {
        assert(before.contains(before[d]));
        let n = choose|n: int| 0 <= n < rest.len() && (#[trigger] rest[n]).scope == known[d];
        if j == rest.len() {
            assert(headers[n].scope != headers[j].scope);
        }
        lemma_first_order(rest, c, d, i, j);
    } else {
        assert(!before.contains(headers.last().scope));
        if j < rest.len() {
            assert(rest[j].scope == known[d]);
            assert(before.contains(known[d]));
        }
    }
}

proof fn lemma_span(ix: IndexView, hid: Hid, at: SpanView)
    requires
        has_span(ix, hid, at),
    ensures
        ix.header(hid) is Some,
        ix.header(hid)->0.span == at,
{
    numbers_find_their_last_header(ix, hid);
    let i = choose|i: int| #[trigger] is_last_numbered(ix, i, hid) && ix.headers[i].span == at;
    assert(ix.headers[i].hid == hid);
    let j = choose|j: int| #[trigger]
        is_last_numbered(ix, j, hid) && ix.headers[j] == ix.header(hid)->0;
    if i < j {
        assert(ix.headers[j].hid != hid);
    }
    if j < i {
        assert(ix.headers[i].hid != hid);
    }
}

/// The functions called under a header are those that the index has for its number,
/// in their order.
pub proof fn calls_are_those_of_the_index(ix: IndexView, hid: Hid)
    ensures
        ix.header_calls.contains_key(hid) ==> ix.calls(hid) == ix.header_calls[hid],
        !ix.header_calls.contains_key(hid) ==> ix.calls(hid).len() == 0,
{
}

} // verus!
