//! The top-level scopes of an index, in the order in which they are laid out.
use std::collections::HashSet;
use vstd::prelude::*;
use crate::index;
use crate::index::{HeaderIndex, HeaderView, Hid, IndexView, RenderableHeader, ScopeId};
use crate::order::Rel;
use crate::prelude::{Prelude, build_scope_roots};
use crate::span;
use crate::span::{Span, SpanView, compare_ranges};

verus! {

broadcast use vstd::std_specs::hash::group_hash_axioms;

/// The range of the header that a scope starts with.
pub open spec fn root_span(ix: IndexView, scope: ScopeId) -> SpanView {
    ix.header(ix.scope_root(scope))->0.span
}

/// Whether no header leads into a scope by its first header.
pub open spec fn is_top_level(ix: IndexView, scope: ScopeId) -> bool {
    !ix.is_nested_target(ix.scope_root(scope))
}

/// Places a scope in a sorted list, behind all that do not come after it.
pub open spec fn placed(ix: IndexView, sorted: Seq<ScopeId>, scope: ScopeId) -> Seq<ScopeId>
    decreases sorted.len(),
{
    if sorted.len() > 0 && span::range_rel(
        root_span(ix, sorted.last()),
        root_span(ix, scope),
    ) == Rel::After {
        placed(ix, sorted.drop_last(), scope).push(sorted.last())
    } else {
        sorted.push(scope)
    }
}

/// Sorts scopes by the ranges of their first headers. Scopes whose ranges are
/// the same keep their order.
pub open spec fn sorted_by_range(ix: IndexView, scopes: Seq<ScopeId>) -> Seq<ScopeId>
    decreases scopes.len(),
{
    if scopes.len() == 0 {
        seq![]
    } else {
        placed(ix, sorted_by_range(ix, scopes.drop_last()), scopes.last())
    }
}

/// The top-level scopes in order of first appearance.
pub open spec fn unsorted_tops(ix: IndexView) -> Seq<ScopeId> {
    index::scopes_in_order(ix.headers).filter(|s: ScopeId| is_top_level(ix, s))
}

/// The top-level scopes, sorted.
pub open spec fn top_scopes(ix: IndexView) -> Seq<ScopeId> {
    sorted_by_range(ix, unsorted_tops(ix))
}

/// Whether one scope stands before another in a list.
pub open spec fn stands_before(scopes: Seq<ScopeId>, s: ScopeId, t: ScopeId) -> bool {
    exists|a: int, b: int|
        0 <= a < b < scopes.len() && #[trigger] scopes[a] == s && #[trigger] scopes[b] == t
}

/// Whether a list holds the scopes of another one, each once, sorted by the
/// ranges of their first headers, and leaves scopes with the same range in their
/// order.
pub open spec fn is_stable_sort(
    ix: IndexView,
    sorted: Seq<ScopeId>,
    scopes: Seq<ScopeId>,
) -> bool {
    &&& sorted.no_duplicates()
    &&& forall|s: ScopeId| #[trigger] sorted.contains(s) <==> scopes.contains(s)
    &&& forall|i: int, j: int|
        0 <= i < j < sorted.len() ==> {
            let r = span::range_rel(
                root_span(ix, #[trigger] sorted[i]),
                root_span(ix, #[trigger] sorted[j]),
            );
            &&& r != Rel::After
            &&& r == Rel::Same ==> stands_before(scopes, sorted[i], sorted[j])
        }
}

/// Where a scope is placed.
proof fn lemma_place_found(ix: IndexView, sorted: Seq<ScopeId>, scope: ScopeId) -> (k: int)
    ensures
        0 <= k <= sorted.len(),
        placed(ix, sorted, scope) == sorted.insert(k, scope),
        forall|j: int|
            k <= j < sorted.len() ==> span::range_rel(
                root_span(ix, #[trigger] sorted[j]),
                root_span(ix, scope),
            ) == Rel::After,
        k > 0 ==> span::range_rel(root_span(ix, sorted[k - 1]), root_span(ix, scope)) != Rel::After,
    decreases sorted.len(),
{
    if sorted.len() > 0 && span::range_rel(root_span(ix, sorted.last()), root_span(ix, scope))
        == Rel::After {
        let rest = sorted.drop_last();
        let k = lemma_place_found(ix, rest, scope);
        assert(rest.insert(k, scope).push(sorted.last()) =~= sorted.insert(k, scope));
        assert forall|j: int| k <= j < sorted.len() implies span::range_rel(
            root_span(ix, #[trigger] sorted[j]),
            root_span(ix, scope),
        ) == Rel::After by {
            if j < rest.len() {
                assert(sorted[j] == rest[j]);
            }
        }
        k
    } else {
        assert(sorted.insert(sorted.len() as int, scope) =~= sorted.push(scope));
        sorted.len() as int
    }
}

proof fn lemma_insert_members(s: Seq<ScopeId>, k: int, scope: ScopeId)
    requires
        0 <= k <= s.len(),
        s.no_duplicates(),
        !s.contains(scope),
    ensures
        s.insert(k, scope).no_duplicates(),
        forall|x: ScopeId| #[trigger]
            s.insert(k, scope).contains(x) <==> x == scope || s.contains(x),
{
    let t = s.insert(k, scope);
    assert forall|x: ScopeId| #[trigger] t.contains(x) <==> x == scope || s.contains(x) by {
        assert(t[k] == scope);
        if t.contains(x) && x != scope {
            let i = choose|i: int| 0 <= i < t.len() && t[i] == x;
            assert(s[if i < k { i } else { i - 1 }] == x);
        }
        if s.contains(x) {
            let i = choose|i: int| 0 <= i < s.len() && s[i] == x;
            assert(t[if i < k { i } else { i + 1 }] == x);
        }
    }
    assert forall|i: int, j: int| 0 <= i < j < t.len() implies t[i] != t[j] by {
        if i != k {
            assert(t[i] == s[if i < k { i } else { i - 1 }]);
        }
        if j != k {
            assert(t[j] == s[if j < k { j } else { j - 1 }]);
        }
    }
}

proof fn lemma_stands_before_push(scopes: Seq<ScopeId>, scope: ScopeId)
    ensures
        forall|s: ScopeId, t: ScopeId| #[trigger]
            stands_before(scopes, s, t) ==> stands_before(scopes.push(scope), s, t),
        forall|s: ScopeId| #[trigger]
            scopes.contains(s) ==> stands_before(scopes.push(scope), s, scope),
{
    let all = scopes.push(scope);
    assert forall|s: ScopeId, t: ScopeId| #[trigger]
        stands_before(scopes, s, t) implies stands_before(all, s, t) by {
        let (a, b) = choose|a: int, b: int|
            0 <= a < b < scopes.len() && #[trigger] scopes[a] == s && #[trigger] scopes[b] == t;
        assert(all[a] == s && all[b] == t);
    }
    assert forall|s: ScopeId| #[trigger] scopes.contains(s) implies stands_before(
        all,
        s,
        scope,
    ) by {
        let a = choose|a: int| 0 <= a < scopes.len() && scopes[a] == s;
        assert(all[a] == s && all[scopes.len() as int] == scope);
    }
}

/// Sorting scopes neither loses nor adds any, puts them in the order of their
/// ranges, and leaves those with the same range in their order.
pub proof fn sorting_is_stable(ix: IndexView, scopes: Seq<ScopeId>)
    requires
        scopes.no_duplicates(),
    ensures
        is_stable_sort(ix, sorted_by_range(ix, scopes), scopes),
    decreases scopes.len(),
{
    if scopes.len() > 0 {
        let before = scopes.drop_last();
        let scope = scopes.last();
        let s = sorted_by_range(ix, before);
        sorting_is_stable(ix, before);
        let k = lemma_place_found(ix, s, scope);
        let t = s.insert(k, scope);
        assert(scopes =~= before.push(scope));
        assert(!before.contains(scope));
        assert(!s.contains(scope));
        lemma_insert_members(s, k, scope);
        lemma_stands_before_push(before, scope);
        assert forall|x: ScopeId| #[trigger] t.contains(x) <==> scopes.contains(x) by {
            assert(scopes.contains(x) <==> x == scope || before.contains(x)) by {
                vstd::seq_lib::lemma_seq_contains_after_push(before, scope, x);
            }
            assert(s.contains(x) <==> before.contains(x));
        }
        assert forall|i: int, j: int| 0 <= i < j < t.len() implies {
            let r = span::range_rel(
                root_span(ix, #[trigger] t[i]),
                root_span(ix, #[trigger] t[j]),
            );
            &&& r != Rel::After
            &&& r == Rel::Same ==> stands_before(scopes, t[i], t[j])
        } by {
            if j == k {
                assert(t[i] == s[i]);
                if i < k - 1 {
                    span::lemma_range_order(
                        root_span(ix, s[i]),
                        root_span(ix, s[k - 1]),
                        root_span(ix, scope),
                    );
                }
                assert(s.contains(s[i]));
                assert(before.contains(s[i]));
            } else if i == k {
                assert(t[j] == s[j - 1]);
                span::lemma_range_order(
                    root_span(ix, s[j - 1]),
                    root_span(ix, scope),
                    root_span(ix, scope),
                );
            } else {
                let a = if i < k { i } else { i - 1 };
                let b = if j < k { j } else { j - 1 };
                assert(t[i] == s[a] && t[j] == s[b]);
            }
        }
        assert(sorted_by_range(ix, scopes) == t);
    }
}

pub(crate) proof fn lemma_scopes_in_order(headers: Seq<HeaderView>)
    ensures
        index::scopes_in_order(headers).no_duplicates(),
        forall|s: ScopeId| #[trigger]
            index::scopes_in_order(headers).contains(s) <==> exists|i: int|
                0 <= i < headers.len() && (#[trigger] headers[i]).scope == s,
    decreases headers.len(),
{
    if headers.len() > 0 {
        let rest = headers.drop_last();
        lemma_scopes_in_order(rest);
        let before = index::scopes_in_order(rest);
        let all = index::scopes_in_order(headers);
        assert(headers[headers.len() - 1] == headers.last());
        assert forall|s: ScopeId| #[trigger] all.contains(s) <==> exists|i: int|
            0 <= i < headers.len() && (#[trigger] headers[i]).scope == s by {
            if all.contains(s) && s != headers.last().scope {
                let k = choose|k: int| 0 <= k < all.len() && all[k] == s;
                assert(before[k] == s);
                assert(before.contains(s));
                let i = choose|i: int| 0 <= i < rest.len() && (#[trigger] rest[i]).scope == s;
                assert(headers[i].scope == s);
            }
            if exists|i: int| 0 <= i < headers.len() && (#[trigger] headers[i]).scope == s {
                let i = choose|i: int| 0 <= i < headers.len() && (#[trigger] headers[i]).scope == s;
                if i < rest.len() {
                    assert(rest[i].scope == s);
                    assert(before.contains(s));
                    let k = choose|k: int| 0 <= k < before.len() && before[k] == s;
                    assert(all[k] == s);
                } else if !before.contains(s) {
                    assert(all[before.len() as int] == s);
                } else {
                    assert(all.contains(s));
                }
            }
        }
    }
}

/// The top-level scopes are those scopes of the index that no other header leads
/// into. Each comes once. They are sorted by the ranges of their first headers,
/// and those with the same range keep the order in which they first appear.
pub proof fn top_scopes_are_sorted(ix: IndexView)
    ensures
        is_stable_sort(ix, top_scopes(ix), unsorted_tops(ix)),
        forall|s: ScopeId| #[trigger]
            top_scopes(ix).contains(s) <==> ix.headers_in_scope(s).len() > 0 && is_top_level(ix, s),
{
    let known = index::scopes_in_order(ix.headers);
    let pred = |s: ScopeId| is_top_level(ix, s);
    lemma_scopes_in_order(ix.headers);
    lemma_filter_distinct(known, pred);
    sorting_is_stable(ix, unsorted_tops(ix));
    assert forall|s: ScopeId| #[trigger] top_scopes(ix).contains(s) <==> ix.headers_in_scope(s).len()
        > 0 && is_top_level(ix, s) by {
        index::lemma_filter_member(known, pred, s);
        let inside = |h: HeaderView| h.scope == s;
        if ix.headers_in_scope(s).len() > 0 {
            let h = ix.headers_in_scope(s)[0];
            assert(ix.headers_in_scope(s).contains(h));
            index::lemma_filter_member(ix.headers, inside, h);
            let i = choose|i: int| 0 <= i < ix.headers.len() && ix.headers[i] == h;
            assert(ix.headers[i].scope == s);
        }
        if known.contains(s) {
            let i = choose|i: int| 0 <= i < ix.headers.len() && (#[trigger] ix.headers[i]).scope == s;
            lemma_scope_has_root(ix, i);
        }
    }
}

proof fn lemma_filter_distinct<T>(s: Seq<T>, pred: spec_fn(T) -> bool)
    requires
        s.no_duplicates(),
    ensures
        s.filter(pred).no_duplicates(),
    decreases s.len(),
{
    reveal(Seq::filter);
    if s.len() > 0 {
        let rest = s.drop_last();
        lemma_filter_distinct(rest, pred);
        if pred(s.last()) && rest.filter(pred).contains(s.last()) {
            index::lemma_filter_member(rest, pred, s.last());
            let k = choose|k: int| 0 <= k < rest.len() && rest[k] == s.last();
            assert(s[k] == s[s.len() - 1]);
        }
        if pred(s.last()) {
            let kept = rest.filter(pred);
            assert forall|i: int, j: int|
                0 <= i < kept.push(s.last()).len() && 0 <= j < kept.push(s.last()).len() && i
                    != j implies kept.push(s.last())[i] != kept.push(s.last())[j] by {
                if i < kept.len() {
                    assert(kept.contains(kept[i]));
                }
                if j < kept.len() {
                    assert(kept.contains(kept[j]));
                }
            }
        }
    }
}

/// A scope with the range that it is sorted by.
type Top<'index> = (ScopeId, &'index Span);

/// The scopes of a list.
spec fn scopes(tops: Seq<Top<'_>>) -> Seq<ScopeId> {
    tops.map_values(|t: Top<'_>| t.0)
}

/// Whether each scope comes with the range of its first header.
spec fn ranged(ix: IndexView, tops: Seq<Top<'_>>) -> bool {
    forall|i: int| 0 <= i < tops.len() ==> (#[trigger] tops[i]).1@ == root_span(ix, tops[i].0)
}

proof fn lemma_placed(ix: IndexView, sorted: Seq<ScopeId>, scope: ScopeId, k: int)
    requires
        0 <= k <= sorted.len(),
        forall|j: int|
            k <= j < sorted.len() ==> span::range_rel(
                root_span(ix, #[trigger] sorted[j]),
                root_span(ix, scope),
            ) == Rel::After,
        k > 0 ==> span::range_rel(root_span(ix, sorted[k - 1]), root_span(ix, scope)) != Rel::After,
    ensures
        placed(ix, sorted, scope) == sorted.insert(k, scope),
    decreases sorted.len(),
{
    if k == sorted.len() {
        assert(sorted.insert(k, scope) =~= sorted.push(scope));
    } else {
        assert(sorted[sorted.len() - 1] == sorted.last());
        let rest = sorted.drop_last();
        lemma_placed(ix, rest, scope, k);
        assert(rest.insert(k, scope).push(sorted.last()) =~= sorted.insert(k, scope));
    }
}

proof fn lemma_scopes_step(headers: Seq<HeaderView>, i: int)
    requires
        0 <= i < headers.len(),
    ensures
        index::scopes_in_order(headers.take(i + 1)) == if index::scopes_in_order(
            headers.take(i),
        ).contains(headers[i].scope) {
            index::scopes_in_order(headers.take(i))
        } else {
            index::scopes_in_order(headers.take(i)).push(headers[i].scope)
        },
{
    assert(headers.take(i + 1).drop_last() =~= headers.take(i));
    assert(headers.take(i + 1).last() == headers[i]);
}

/// A header of an index: its scope has a first header, which has a number.
proof fn lemma_scope_has_root(ix: IndexView, i: int)
    requires
        0 <= i < ix.headers.len(),
    ensures
        ix.headers_in_scope(ix.headers[i].scope).len() > 0,
        ix.header(ix.scope_root(ix.headers[i].scope)) is Some,
{
    let scope = ix.headers[i].scope;
    let pred = |h: HeaderView| h.scope == scope;
    let found = ix.headers.filter(pred);
    index::lemma_filter_member(ix.headers, pred, ix.headers[i]);
    assert(found.contains(ix.headers[i]));
    assert(found.len() > 0);
    assert(found.contains(found[0]));
    index::lemma_filter_member(ix.headers, pred, found[0]);
    let k = choose|k: int| 0 <= k < ix.headers.len() && ix.headers[k] == found[0];
    assert(ix.headers[k].hid == ix.scope_root(scope));
    index::lemma_last_with_hid(ix.headers, ix.scope_root(scope));
}

fn collect_tops<'index>(index: &'index HeaderIndex, pre: &Prelude<'index>) -> (tops: Vec<
    Top<'index>,
>)
    requires
        pre.models(index@),
    ensures
        scopes(tops@) == unsorted_tops(index@),
        ranged(index@, tops@),
{
    let ghost ix = index@;
    let ghost pred = |s: ScopeId| is_top_level(ix, s);
    let scope_root = build_scope_roots(index);
    let mut tops: Vec<Top<'index>> = Vec::new();
    let mut seen_scopes: HashSet<ScopeId> = HashSet::new();
    let mut i: usize = 0;
    proof {
        assert(ix.headers.take(0) =~= seq![]);
        assert(scopes(tops@) =~= Seq::<ScopeId>::empty().filter(pred)) by {
            reveal(Seq::filter);
        }
    }
    while i < index.headers.len()
        invariant
            i <= index.headers.len(),
            ix == index@,
            pre.models(ix),
            pred == (|s: ScopeId| is_top_level(ix, s)),
            forall|s: ScopeId| #[trigger]
                scope_root@.contains_key(s) <==> ix.headers_in_scope(s).len() > 0,
            forall|s: ScopeId| #[trigger]
                scope_root@.contains_key(s) ==> scope_root@[s] == ix.scope_root(s),
            forall|s: ScopeId| #[trigger]
                seen_scopes@.contains(s) <==> index::scopes_in_order(
                    ix.headers.take(i as int),
                ).contains(s),
            scopes(tops@) == index::scopes_in_order(ix.headers.take(i as int)).filter(pred),
            ranged(ix, tops@),
        decreases index.headers.len() - i,
    {
        let h = &index.headers[i];
        let ghost known = index::scopes_in_order(ix.headers.take(i as int));
        let ghost before = tops@;
        let ghost seen = seen_scopes@;
        proof {
            assert(ix.headers[i as int] == h@);
            lemma_scopes_step(ix.headers, i as int);
            lemma_scope_has_root(ix, i as int);
        }
        if seen_scopes.insert(h.scope) {
            assert(scope_root@.contains_key(h.scope));
            let root_hid: Hid = *scope_root.get(&h.scope).unwrap();
            if !pre.nested_targets.contains(&root_hid) {
                assert(pre.by_hid@.contains_key(root_hid));
                let root: &'index RenderableHeader = *pre.by_hid.get(&root_hid).unwrap();
                tops.push((h.scope, &root.span));
                assert(scopes(tops@) =~= scopes(before).push(h.scope));
            }
            proof {
                known.lemma_filter_push(h.scope, pred);
                assert forall|s: ScopeId| #[trigger] seen_scopes@.contains(s) <==> known.push(
                    h.scope,
                ).contains(s) by {
                    assert(known.push(h.scope)[known.len() as int] == h.scope);
                    assert(seen.contains(s) <==> known.contains(s));
                    if known.contains(s) {
                        let k = choose|k: int| 0 <= k < known.len() && known[k] == s;
                        assert(known.push(h.scope)[k] == s);
                    }
                }
            }
        }
        i = i + 1;
    }
    assert(ix.headers.take(i as int) =~= ix.headers);
    tops
}

/// The top-level scopes of an index, sorted by the ranges of their first
/// headers: by the text of the path, then by start and end.
pub fn sorted_top_scopes<'index>(
    index: &'index HeaderIndex,
    pre: &Prelude<'index>,
) -> (out: Vec<ScopeId>)
    requires
        pre.models(index@),
    ensures
        out@ == top_scopes(index@),
{
    let ghost ix = index@;
    let tops = collect_tops(index, pre);
    let ghost all = scopes(tops@);
    let mut sorted: Vec<Top<'index>> = Vec::new();
    let mut i: usize = 0;
    assert(scopes(sorted@) =~= sorted_by_range(ix, all.take(0)));
    while i < tops.len()
        invariant
            i <= tops.len(),
            all == scopes(tops@),
            ranged(ix, tops@),
            ranged(ix, sorted@),
            scopes(sorted@) == sorted_by_range(ix, all.take(i as int)),
        decreases tops.len() - i,
    {
        let top = tops[i];
        let ghost before = sorted@;
        let mut k: usize = sorted.len();
        let mut found: bool = false;
        while k > 0 && !found
            invariant
                k <= sorted@.len(),
                sorted@ == before,
                ranged(ix, sorted@),
                top.1@ == root_span(ix, top.0),
                forall|j: int|
                    k <= j < before.len() ==> span::range_rel(
                        root_span(ix, (#[trigger] before[j]).0),
                        root_span(ix, top.0),
                    ) == Rel::After,
                found ==> k > 0 && span::range_rel(
                    root_span(ix, before[k - 1].0),
                    root_span(ix, top.0),
                ) != Rel::After,
            decreases k + (if found { 0int } else { 1int }),
        {
            if compare_ranges(sorted[k - 1].1, top.1) == Rel::After {
                k = k - 1;
            } else {
                found = true;
            }
        }
        sorted.insert(k, top);
        proof {
            let s = scopes(before);
            assert forall|j: int| k <= j < s.len() implies span::range_rel(
                root_span(ix, #[trigger] s[j]),
                root_span(ix, top.0),
            ) == Rel::After by {
                assert(s[j] == before[j].0);
            }
            if k > 0 {
                assert(s[k - 1] == before[k - 1].0);
            }
            lemma_placed(ix, s, top.0, k as int);
            assert(scopes(sorted@) =~= s.insert(k as int, top.0));
            assert(all.take(i + 1).drop_last() =~= all.take(i as int));
            assert(all.take(i + 1).last() == top.0);
        }
        i = i + 1;
    }
    assert(all.take(i as int) =~= all);
    let mut out: Vec<ScopeId> = Vec::new();
    let mut i: usize = 0;
    while i < sorted.len()
        invariant
            i <= sorted.len(),
            out@ =~= scopes(sorted@).take(i as int),
        decreases sorted.len() - i,
    {
        out.push(sorted[i].0);
        i = i + 1;
    }
    assert(out@ =~= scopes(sorted@));
    out
}

} // verus!
