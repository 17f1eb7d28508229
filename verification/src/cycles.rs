//! Headers that nest without cycles.
//!
//! No header is laid out as part of itself if no header is its own ancestor
//! within a scope and no scope leads back into itself.
use vstd::prelude::*;
use crate::depth;
use crate::index;
use crate::index::{HeaderView, Hid, IndexView, ScopeId};
use crate::laws;
use crate::nesting;
use crate::nesting::Ranking;

verus! {

/// Whether a step of a path goes along `rel`.
pub open spec fn steps<T>(rel: spec_fn(T, T) -> bool, path: Seq<T>, i: int) -> bool {
    rel(path[i], path[i + 1])
}

/// Whether a path goes along `rel`.
pub open spec fn is_path<T>(rel: spec_fn(T, T) -> bool, path: Seq<T>) -> bool {
    path.len() > 0 && forall|i: int| 0 <= i < path.len() - 1 ==> #[trigger] steps(rel, path, i)
}

/// Whether no path of one step or more leads back to where it starts.
pub open spec fn has_no_cycle<T>(rel: spec_fn(T, T) -> bool) -> bool {
    forall|path: Seq<T>| #[trigger] is_path(rel, path) && path.len() > 1 ==> path[0] != path.last()
}

/// Whether `rel` joins members of `all` only.
pub open spec fn stays_within<T>(rel: spec_fn(T, T) -> bool, all: Set<T>) -> bool {
    forall|x: T, y: T| #[trigger] rel(x, y) ==> all.contains(x) && all.contains(y)
}

proof fn lemma_path_is_short<T>(rel: spec_fn(T, T) -> bool, all: Set<T>, path: Seq<T>)
    requires
        has_no_cycle(rel),
        stays_within(rel, all),
        all.finite(),
        is_path(rel, path),
    ensures
        path.len() <= all.len() + 1,
{
    if path.len() > 1 {
        assert(path.no_duplicates()) by {
            assert forall|i: int, j: int| 0 <= i < j < path.len() implies path[i] != path[j] by {
                let part = path.subrange(i, j + 1);
                assert forall|k: int| 0 <= k < part.len() - 1 implies #[trigger] steps(
                    rel,
                    part,
                    k,
                ) by {
                    assert(steps(rel, path, i + k));
                }
                assert(is_path(rel, part));
                assert(part[0] == path[i] && part.last() == path[j]);
            }
        }
        assert(path.to_set().subset_of(all)) by {
            assert forall|x: T| #[trigger] path.to_set().contains(x) implies all.contains(x) by {
                let k = choose|k: int| 0 <= k < path.len() && path[k] == x;
                if k < path.len() - 1 {
                    assert(steps(rel, path, k));
                } else {
                    assert(steps(rel, path, k - 1));
                }
            }
        }
        path.unique_seq_to_set();
        vstd::set_lib::lemma_len_subset(path.to_set(), all);
    }
}

/// Whether the longest path from `x` has `n` members.
spec fn reaches_far<T>(rel: spec_fn(T, T) -> bool, x: T, n: nat) -> bool {
    &&& exists|path: Seq<T>| #[trigger] is_path(rel, path) && path[0] == x && path.len() == n
    &&& forall|path: Seq<T>| #[trigger] is_path(rel, path) && path[0] == x ==> path.len() <= n
}

spec fn longest<T>(rel: spec_fn(T, T) -> bool, x: T) -> nat {
    choose|n: nat| reaches_far(rel, x, n)
}

proof fn lemma_longest_below<T>(rel: spec_fn(T, T) -> bool, x: T, n: nat)
    requires
        forall|path: Seq<T>| #[trigger] is_path(rel, path) && path[0] == x ==> path.len() <= n,
    ensures
        exists|m: nat| m <= n && #[trigger] reaches_far(rel, x, m),
    decreases n,
{
    if reaches_far(rel, x, n) {
    } else if n == 0 {
        assert(is_path(rel, seq![x]));
    } else {
        lemma_longest_below(rel, x, (n - 1) as nat);
    }
}

/// A finite relation without cycles ranks what it joins.
proof fn lemma_ranks<T>(rel: spec_fn(T, T) -> bool, all: Set<T>)
    requires
        has_no_cycle(rel),
        stays_within(rel, all),
        all.finite(),
    ensures
        forall|x: T| #[trigger] longest(rel, x) <= all.len() + 1,
        forall|x: T, y: T| #[trigger] rel(x, y) ==> longest(rel, y) < longest(rel, x),
{
    assert forall|x: T|
        #![trigger longest(rel, x)]
        longest(rel, x) <= all.len() + 1 && reaches_far(rel, x, longest(rel, x)) by {
        assert forall|path: Seq<T>| #[trigger] is_path(rel, path) && path[0] == x implies path.len()
            <= all.len() + 1 by {
            lemma_path_is_short(rel, all, path);
        }
        lemma_longest_below(rel, x, all.len() + 1);
        let n = longest(rel, x);
        let path = choose|path: Seq<T>| #[trigger]
            is_path(rel, path) && path[0] == x && path.len() == n;
        assert(is_path(rel, path));
    }
    assert forall|x: T, y: T| #[trigger] rel(x, y) implies longest(rel, y) < longest(rel, x) by {
        assert(reaches_far(rel, y, longest(rel, y)));
        assert(reaches_far(rel, x, longest(rel, x)));
        let path = choose|path: Seq<T>| #[trigger]
            is_path(rel, path) && path[0] == y && path.len() == longest(rel, y);
        let more = seq![x] + path;
        assert forall|i: int| 0 <= i < more.len() - 1 implies #[trigger] steps(rel, more, i) by {
            if i > 0 {
                assert(steps(rel, path, i - 1));
            }
        }
        assert(is_path(rel, more));
    }
}

/// Tells whether a header stands directly below another one within its scope.
pub open spec fn parenthood(ix: IndexView) -> spec_fn(Hid, Hid) -> bool {
    |p: Hid, c: Hid| ix.md_children(p).contains(c)
}

/// Whether a nested edge leads from one scope into another one.
pub open spec fn leads_into(ix: IndexView, s: ScopeId, t: ScopeId) -> bool {
    exists|e: int|
        #![trigger ix.scope_edges()[e]]
        0 <= e < ix.scope_edges().len() && ix.scope_of(ix.scope_edges()[e].0) == s && ix.scope_of(
            ix.scope_edges()[e].1,
        ) == t
}

/// Tells whether a nested edge leads from one scope into another one.
pub open spec fn entrance(ix: IndexView) -> spec_fn(ScopeId, ScopeId) -> bool {
    |s: ScopeId, t: ScopeId| leads_into(ix, s, t)
}

proof fn lemma_parents_known(ix: IndexView)
    ensures
        stays_within(parenthood(ix), depth::hids(ix)),
{
    let rel = parenthood(ix);
    assert forall|p: Hid, c: Hid| #[trigger] rel(p, c) implies depth::hids(ix).contains(p)
        && depth::hids(ix).contains(c) by {
        index::lemma_md_child_known(ix, p, c);
        depth::lemma_known_header(ix, c);
        let pred = |g: HeaderView| ix.md_parent(g) == Some(p);
        let kept = ix.headers.filter(pred);
        let i = choose|i: int| 0 <= i < ix.md_children(p).len() && ix.md_children(p)[i] == c;
        assert(kept.contains(kept[i]));
        index::lemma_filter_member(ix.headers, pred, kept[i]);
        let id = kept[i].parent_id->0;
        index::lemma_last_with_id(ix.headers, id);
        let parent = index::last_with_id(ix.headers, id)->0;
        let k = choose|k: int| 0 <= k < ix.headers.len() && ix.headers[k] == parent;
        assert(ix.headers.map_values(|h: HeaderView| h.hid)[k] == p);
    }
}

/// The ends of an edge into a scope, and the child that it makes.
pub(crate) proof fn lemma_edge(ix: IndexView, e: int)
    requires
        ix.edges_known(),
        0 <= e < ix.scope_edges().len(),
    ensures
        ix.header(ix.scope_edges()[e].0) is Some,
        ix.header(ix.scope_edges()[e].1) is Some,
{
    let pred = |g: (Hid, Hid)| ix.enters_scope(g);
    let edge = ix.scope_edges()[e];
    assert(ix.scope_edges().contains(edge));
    index::lemma_filter_member(ix.nested_edges, pred, edge);
    let k = choose|k: int| 0 <= k < ix.nested_edges.len() && ix.nested_edges[k] == edge;
    assert(ix.nested_edges[k] == edge);
}

/// A nested child makes its parent's scope lead into its own.
pub(crate) proof fn lemma_nested_leads(ix: IndexView, p: Hid, c: Hid)
    requires
        ix.nested_children(p).contains(c),
    ensures
        leads_into(ix, ix.scope_of(p), ix.scope_of(c)),
{
    let es = ix.scope_edges();
    let kept = es.filter(index::starts_at(p));
    let i = choose|i: int| 0 <= i < ix.nested_children(p).len() && ix.nested_children(p)[i] == c;
    assert(kept.contains(kept[i]));
    index::lemma_filter_member(es, index::starts_at(p), kept[i]);
    let e = choose|e: int| 0 <= e < es.len() && es[e] == kept[i];
    assert(es[e].0 == p && es[e].1 == c);
}

/// Where headers have different numbers, no header is laid out as part of itself
/// if no header is its own ancestor within a scope and no scope leads back into
/// itself.
pub proof fn without_cycles_nothing_is_part_of_itself(ix: IndexView)
    requires
        ix.edges_known(),
        laws::numbers_differ(ix),
        has_no_cycle(parenthood(ix)),
        has_no_cycle(entrance(ix)),
    ensures
        nesting::acyclic_throughout(ix),
        nesting::acyclic(ix),
{
    let (up, into) = (parenthood(ix), entrance(ix));
    let (hids, scopes) = (depth::hids(ix), depth::scopes(ix));
    depth::lemma_finite(ix);
    lemma_parents_known(ix);
    assert(stays_within(into, scopes)) by {
        assert forall|s: ScopeId, t: ScopeId| #[trigger] into(s, t) implies scopes.contains(s)
            && scopes.contains(t) by {
            let e = choose|e: int|
                #![trigger ix.scope_edges()[e]]
                0 <= e < ix.scope_edges().len() && ix.scope_of(ix.scope_edges()[e].0) == s
                    && ix.scope_of(ix.scope_edges()[e].1) == t;
            lemma_edge(ix, e);
            depth::lemma_known_header(ix, ix.scope_edges()[e].0);
            depth::lemma_known_header(ix, ix.scope_edges()[e].1);
        }
    }
    lemma_ranks(up, hids);
    lemma_ranks(into, scopes);
    let k = hids.len() + 2;
    let ranking = Ranking {
        rank: |h: Hid| longest(into, ix.scope_of(h)) * k + longest(up, h),
        limit: (scopes.len() + 2) * k,
    };
    assert forall|h: Hid| #[trigger] ranking.of(h) < ranking.limit by {
        let (a, b, n) = (longest(into, ix.scope_of(h)), longest(up, h), scopes.len() + 1);
        assert(a * k + b < (n + 1) * k) by (nonlinear_arith)
            requires
                a <= n,
                b < k,
        ;
    }
    assert forall|h: Hid, c: Hid| #[trigger]
        nesting::below(ix, h, c) && ranking.of(h) < ranking.limit implies ranking.of(c)
        < ranking.of(h) by {
        if ix.md_children(h).contains(c) {
            assert(up(h, c));
            laws::md_children_share_the_scope(ix, h, c);
        } else {
            if ix.nested_children(h).contains(c) {
                lemma_nested_leads(ix, h, c);
            } else {
                let n = choose|n: Hid| #[trigger]
                    ix.nested_children(h).contains(n) && ix.scope_items(ix.scope_of(n)).contains(c);
                lemma_nested_leads(ix, h, n);
                laws::items_stand_in_their_scope(ix, ix.scope_of(n), c);
            }
            assert(into(ix.scope_of(h), ix.scope_of(c)));
            let (a, b) = (longest(into, ix.scope_of(c)), longest(into, ix.scope_of(h)));
            let (x, y) = (longest(up, c), longest(up, h));
            assert(a * k + x < b * k + y) by (nonlinear_arith)
                requires
                    a < b,
                    x < k,
                    y >= 0,
            ;
        }
    }
    assert(ranking.ranks(ix));
}

} // verus!
