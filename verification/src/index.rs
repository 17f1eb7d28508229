//! The index of source headers that diagrams are derived from.
use std::collections::HashMap;
use vstd::prelude::*;
use crate::span::{Span, SpanView};

verus! {

/// Numeric identifier of a header.
pub type Hid = u32;

/// Numeric identifier of a code scope.
pub type ScopeId = u32;

/// What a header introduces: a branch, or anything else.
#[derive(Debug, Clone, Copy, PartialEq, Eq, Structural)]
pub enum HeaderLabelKind {
    If,
    Other,
}

/// A header found in the source.
#[derive(Debug)]
pub struct RenderableHeader {
    pub hid: Hid,
    /// Textual identifier, by which other headers name this one as their parent.
    pub id: String,
    pub title: String,
    pub parent_id: Option<String>,
    pub scope: ScopeId,
    pub label_kind: HeaderLabelKind,
    pub span: Span,
}

pub struct HeaderView {
    pub hid: Hid,
    pub id: Seq<char>,
    pub title: Seq<char>,
    pub parent_id: Option<Seq<char>>,
    pub scope: ScopeId,
    pub label_kind: HeaderLabelKind,
    pub span: SpanView,
}

impl RenderableHeader {
    pub open spec fn view(&self) -> HeaderView {
        HeaderView {
            hid: self.hid,
            id: self.id@,
            title: self.title@,
            parent_id: match self.parent_id {
                Some(id) => Some(id@),
                None => None,
            },
            scope: self.scope,
            label_kind: self.label_kind,
            span: self.span@,
        }
    }
}

/// All headers of a source, in order of appearance, with what links them.
#[derive(Debug)]
pub struct HeaderIndex {
    pub headers: Vec<RenderableHeader>,
    /// Pairs of a header and a header nested below it.
    pub nested_edges: Vec<(Hid, Hid)>,
    /// The functions called under each header.
    pub header_calls: HashMap<Hid, Vec<String>>,
}

pub struct IndexView {
    pub headers: Seq<HeaderView>,
    pub nested_edges: Seq<(Hid, Hid)>,
    pub header_calls: Map<Hid, Seq<Seq<char>>>,
}

/// The last of `headers` with the given numeric identifier.
pub open spec fn last_with_hid(headers: Seq<HeaderView>, hid: Hid) -> Option<HeaderView>
    decreases headers.len(),
{
    if headers.len() == 0 {
        None
    } else if headers.last().hid == hid {
        Some(headers.last())
    } else {
        last_with_hid(headers.drop_last(), hid)
    }
}

/// The last of `headers` with the given textual identifier.
pub open spec fn last_with_id(headers: Seq<HeaderView>, id: Seq<char>) -> Option<HeaderView>
    decreases headers.len(),
{
    if headers.len() == 0 {
        None
    } else if headers.last().id == id {
        Some(headers.last())
    } else {
        last_with_id(headers.drop_last(), id)
    }
}

/// The scopes of `headers`, each once, in order of first appearance.
pub open spec fn scopes_in_order(headers: Seq<HeaderView>) -> Seq<ScopeId>
    decreases headers.len(),
{
    if headers.len() == 0 {
        seq![]
    } else {
        let before = scopes_in_order(headers.drop_last());
        if before.contains(headers.last().scope) {
            before
        } else {
            before.push(headers.last().scope)
        }
    }
}

impl IndexView {
    /// The header with a given number. Where a number occurs twice, the last
    /// header counts.
    pub open spec fn header(self, hid: Hid) -> Option<HeaderView> {
        last_with_hid(self.headers, hid)
    }

    /// The scope in which a header stands.
    pub open spec fn scope_of(self, hid: Hid) -> ScopeId {
        self.header(hid)->0.scope
    }

    /// The header that `h` names as its parent, if there is one and it stands in
    /// the same scope.
    pub open spec fn md_parent(self, h: HeaderView) -> Option<Hid> {
        match h.parent_id {
            None => None,
            Some(id) => match last_with_id(self.headers, id) {
                None => None,
                Some(p) => if self.scope_of(p.hid) == h.scope {
                    Some(p.hid)
                } else {
                    None
                },
            },
        }
    }

    /// The headers below `p` within the same scope, in order of appearance.
    pub open spec fn md_children(self, p: Hid) -> Seq<Hid> {
        self.md_children_among(self.headers, p)
    }

    /// Those of `headers` that stand below `p` within the same scope.
    pub open spec fn md_children_among(self, headers: Seq<HeaderView>, p: Hid) -> Seq<Hid> {
        headers.filter(|h: HeaderView| self.md_parent(h) == Some(p)).map_values(
            |h: HeaderView| h.hid,
        )
    }

    /// Whether a header with this number stands below another one of its scope.
    pub open spec fn has_md_parent(self, hid: Hid) -> bool {
        exists|i: int|
            #![trigger self.headers[i]]
            0 <= i < self.headers.len() && self.headers[i].hid == hid && self.md_parent(
                self.headers[i],
            ) is Some
    }

    /// Whether both ends of every nested edge are headers of the index.
    pub open spec fn edges_known(self) -> bool {
        forall|i: int|
            #![trigger self.nested_edges[i]]
            0 <= i < self.nested_edges.len() ==> self.header(self.nested_edges[i].0) is Some
                && self.header(self.nested_edges[i].1) is Some
    }

    /// Whether an edge leads from one scope into another.
    pub open spec fn enters_scope(self, e: (Hid, Hid)) -> bool {
        self.scope_of(e.0) != self.scope_of(e.1)
    }

    /// The nested edges that lead from one scope into another.
    pub open spec fn scope_edges(self) -> Seq<(Hid, Hid)> {
        self.nested_edges.filter(|e: (Hid, Hid)| self.enters_scope(e))
    }

    /// The headers that open a scope below `p`, in the order of the edges.
    pub open spec fn nested_children(self, p: Hid) -> Seq<Hid> {
        children_among(self.scope_edges(), p)
    }

    /// Whether a header opens a scope below some other header.
    pub open spec fn is_nested_target(self, hid: Hid) -> bool {
        exists|i: int|
            #![trigger self.scope_edges()[i]]
            0 <= i < self.scope_edges().len() && self.scope_edges()[i].1 == hid
    }

    /// The headers of a scope, in order of appearance.
    pub open spec fn headers_in_scope(self, scope: ScopeId) -> Seq<HeaderView> {
        in_scope(self.headers, scope)
    }

    /// The headers of a scope that stand below no other header of it.
    pub open spec fn scope_items(self, scope: ScopeId) -> Seq<Hid> {
        self.headers_in_scope(scope).filter(
            |h: HeaderView| !self.has_md_parent(h.hid),
        ).map_values(|h: HeaderView| h.hid)
    }

    /// The first header of a scope.
    pub open spec fn scope_root(self, scope: ScopeId) -> Hid {
        self.headers_in_scope(scope)[0].hid
    }

    /// The functions called under a header.
    pub open spec fn calls(self, hid: Hid) -> Seq<Seq<char>> {
        if self.header_calls.contains_key(hid) {
            self.header_calls[hid]
        } else {
            seq![]
        }
    }
}

/// Those of `headers` that stand in a scope.
pub open spec fn in_scope(headers: Seq<HeaderView>, scope: ScopeId) -> Seq<HeaderView> {
    headers.filter(|h: HeaderView| h.scope == scope)
}

/// The targets of those of `edges` that start at `p`.
pub open spec fn children_among(edges: Seq<(Hid, Hid)>, p: Hid) -> Seq<Hid> {
    edges.filter(starts_at(p)).map_values(edge_target())
}

/// Tells whether an edge starts at `p`.
pub open spec fn starts_at(p: Hid) -> spec_fn((Hid, Hid)) -> bool {
    |e: (Hid, Hid)| e.0 == p
}

/// The header that an edge leads to.
pub open spec fn edge_target() -> spec_fn((Hid, Hid)) -> Hid {
    |e: (Hid, Hid)| e.1
}

/// The contents of the strings of a list.
pub open spec fn texts(v: Seq<String>) -> Seq<Seq<char>> {
    v.map_values(|s: String| s@)
}

impl HeaderIndex {
    pub open spec fn view(&self) -> IndexView {
        IndexView {
            headers: self.headers@.map_values(|h: RenderableHeader| h@),
            nested_edges: self.nested_edges@,
            header_calls: self.header_calls@.map_values(|v: Vec<String>| texts(v@)),
        }
    }

    /// The headers of a scope, in order of appearance.
    pub fn headers_in_scope<'a>(&'a self, scope: ScopeId) -> (found: Vec<&'a RenderableHeader>)
        ensures
            found@.map_values(|h: &RenderableHeader| h@) == self@.headers_in_scope(scope),
    {
        let mut found: Vec<&'a RenderableHeader> = Vec::new();
        let ghost all = self@.headers;
        let ghost pred = |h: HeaderView| h.scope == scope;
        let ghost vw = |h: &RenderableHeader| h@;
        let mut i: usize = 0;
        proof {
            assert(found@.map_values(vw) =~= all.take(0).filter(pred)) by {
                reveal(Seq::filter);
            }
        }
        while i < self.headers.len()
            invariant
                i <= self.headers.len(),
                all == self@.headers,
                pred == (|h: HeaderView| h.scope == scope),
                vw == (|h: &RenderableHeader| h@),
                found@.map_values(vw) == all.take(i as int).filter(pred),
            decreases self.headers.len() - i,
        {
            let h = &self.headers[i];
            let ghost before = found@;
            if h.scope == scope {
                found.push(h);
            }
            proof {
                lemma_filter_step(all, pred, i as int);
                assert(before.push(h).map_values(vw) =~= before.map_values(vw).push(h@));
            }
            i = i + 1;
        }
        assert(all.take(i as int) =~= all);
        found
    }
}

/// Filtering one more element.
pub proof fn lemma_filter_step<T>(s: Seq<T>, pred: spec_fn(T) -> bool, i: int)
    requires
        0 <= i < s.len(),
    ensures
        s.take(i + 1).filter(pred) == if pred(s[i]) {
            s.take(i).filter(pred).push(s[i])
        } else {
            s.take(i).filter(pred)
        },
{
    reveal(Seq::filter);
    assert(s.take(i + 1).drop_last() =~= s.take(i));
    assert(s.take(i + 1).last() == s[i]);
}

/// What filtering keeps: the elements that satisfy the predicate.
pub proof fn lemma_filter_member<T>(s: Seq<T>, pred: spec_fn(T) -> bool, x: T)
    ensures
        s.filter(pred).contains(x) <==> s.contains(x) && pred(x),
{
    if s.filter(pred).contains(x) {
        let k = choose|k: int| 0 <= k < s.filter(pred).len() && s.filter(pred)[k] == x;
        s.lemma_filter_pred(pred, k);
        s.lemma_filter_contains_rev(pred, x);
    }
    if s.contains(x) && pred(x) {
        let k = choose|k: int| 0 <= k < s.len() && s[k] == x;
        s.lemma_filter_contains(pred, k);
    }
}

/// A header found by its number carries that number and is one of the list.
pub proof fn lemma_last_with_hid(headers: Seq<HeaderView>, hid: Hid)
    ensures
        last_with_hid(headers, hid) matches Some(h) ==> h.hid == hid && headers.contains(h),
        last_with_hid(headers, hid) is Some <==> exists|i: int|
            0 <= i < headers.len() && (#[trigger] headers[i]).hid == hid,
    decreases headers.len(),
{
    if headers.len() > 0 {
        let rest = headers.drop_last();
        lemma_last_with_hid(rest, hid);
        assert(headers.last() == headers[headers.len() - 1]);
        assert forall|i: int| 0 <= i < rest.len() implies #[trigger] rest[i] == headers[i] by {}
        if headers.last().hid != hid {
            if exists|i: int| 0 <= i < headers.len() && (#[trigger] headers[i]).hid == hid {
                let i = choose|i: int| 0 <= i < headers.len() && (#[trigger] headers[i]).hid == hid;
                assert(rest[i].hid == hid);
            }
            if last_with_hid(rest, hid) is Some {
                let i = choose|i: int| 0 <= i < rest.len() && rest[i] == last_with_hid(rest, hid)->0;
                assert(headers[i] == rest[i]);
            }
        }
    }
}

/// A child within the same scope is a header of the index.
pub proof fn lemma_md_child_known(ix: IndexView, p: Hid, c: Hid)
    requires
        ix.md_children(p).contains(c),
    ensures
        ix.header(c) is Some,
        ix.has_md_parent(c),
{
    let pred = |h: HeaderView| ix.md_parent(h) == Some(p);
    let kept = ix.headers.filter(pred);
    let i = choose|i: int| 0 <= i < ix.md_children(p).len() && ix.md_children(p)[i] == c;
    assert(kept[i].hid == c);
    assert(kept.contains(kept[i]));
    lemma_filter_member(ix.headers, pred, kept[i]);
    let k = choose|k: int| 0 <= k < ix.headers.len() && ix.headers[k] == kept[i];
    assert(ix.headers[k].hid == c);
    lemma_last_with_hid(ix.headers, c);
}

/// A child that opens a scope is the end of an edge into that scope.
pub proof fn lemma_nested_child(ix: IndexView, p: Hid, c: Hid)
    requires
        ix.nested_children(p).contains(c),
    ensures
        ix.nested_edges.contains((p, c)),
        ix.scope_of(p) != ix.scope_of(c),
        ix.is_nested_target(c),
        ix.edges_known() ==> ix.header(c) is Some && ix.header(p) is Some,
{
    let es = ix.scope_edges();
    let kept = es.filter(starts_at(p));
    let i = choose|i: int| 0 <= i < ix.nested_children(p).len() && ix.nested_children(p)[i] == c;
    assert(kept[i].1 == c);
    assert(kept.contains(kept[i]));
    lemma_filter_member(es, starts_at(p), kept[i]);
    assert(kept[i] == (p, c));
    lemma_filter_member(ix.nested_edges, |e: (Hid, Hid)| ix.enters_scope(e), kept[i]);
    let k = choose|k: int| 0 <= k < es.len() && es[k] == kept[i];
    assert(es[k].1 == c);
    let m = choose|m: int| 0 <= m < ix.nested_edges.len() && ix.nested_edges[m] == kept[i];
    assert(ix.nested_edges[m] == (p, c));
}

/// An item of a scope is a header of the index that stands in that scope.
pub proof fn lemma_scope_item(ix: IndexView, scope: ScopeId, c: Hid)
    requires
        ix.scope_items(scope).contains(c),
    ensures
        ix.header(c) is Some,
        !ix.has_md_parent(c),
        exists|i: int|
            0 <= i < ix.headers.len() && (#[trigger] ix.headers[i]).hid == c
                && ix.headers[i].scope == scope,
{
    let inside = |h: HeaderView| h.scope == scope;
    let free = |h: HeaderView| !ix.has_md_parent(h.hid);
    let kept = ix.headers_in_scope(scope).filter(free);
    let i = choose|i: int| 0 <= i < ix.scope_items(scope).len() && ix.scope_items(scope)[i] == c;
    assert(kept[i].hid == c);
    assert(kept.contains(kept[i]));
    lemma_filter_member(ix.headers_in_scope(scope), free, kept[i]);
    lemma_filter_member(ix.headers, inside, kept[i]);
    let k = choose|k: int| 0 <= k < ix.headers.len() && ix.headers[k] == kept[i];
    assert(ix.headers[k].hid == c);
    lemma_last_with_hid(ix.headers, c);
}

/// A header found by its textual identifier is one of the list.
pub proof fn lemma_last_with_id(headers: Seq<HeaderView>, id: Seq<char>)
    ensures
        last_with_id(headers, id) matches Some(h) ==> h.id == id && headers.contains(h),
    decreases headers.len(),
{
    if headers.len() > 0 {
        let rest = headers.drop_last();
        lemma_last_with_id(rest, id);
        assert(headers.last() == headers[headers.len() - 1]);
        if headers.last().id != id && last_with_id(rest, id) is Some {
            let i = choose|i: int| 0 <= i < rest.len() && rest[i] == last_with_id(rest, id)->0;
            assert(headers[i] == rest[i]);
        }
    }
}

} // verus!
