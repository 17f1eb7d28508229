//! Lookup tables over a header index, computed once before a graph is built.
use std::collections::{HashMap, HashSet};
use vstd::hash_map::StringHashMap;
use vstd::prelude::*;
use crate::index;
use crate::index::{HeaderIndex, HeaderView, Hid, IndexView, RenderableHeader, ScopeId};

verus! {

broadcast use vstd::std_specs::hash::group_hash_axioms;

/// Precomputed tables used by the graph builder.
pub struct Prelude<'index> {
    /// The headers by number.
    pub by_hid: HashMap<Hid, &'index RenderableHeader>,
    /// Headers that have headers below them in the same scope, with those.
    pub md_children: HashMap<Hid, Vec<Hid>>,
    /// Headers that stand below another header of the same scope.
    pub has_md_parent: HashSet<Hid>,
    /// Headers that open scopes below them, with the headers those start with.
    pub nested_children: HashMap<Hid, Vec<Hid>>,
    /// All headers that are nested children.
    pub nested_targets: HashSet<Hid>,
}

/// Whether `by_hid` finds the headers of `headers` by number.
pub open spec fn finds_headers(
    by_hid: Map<Hid, &RenderableHeader>,
    headers: Seq<HeaderView>,
) -> bool {
    &&& forall|hid: Hid| #[trigger]
        by_hid.contains_key(hid) <==> index::last_with_hid(headers, hid) is Some
    &&& forall|hid: Hid| #[trigger]
        by_hid.contains_key(hid) ==> by_hid[hid]@ == index::last_with_hid(headers, hid)->0
}

/// Whether `table` lists, for each header, what `children` says, and has no
/// entry for a header without children.
pub open spec fn lists_children(
    table: Map<Hid, Vec<Hid>>,
    children: spec_fn(Hid) -> Seq<Hid>,
) -> bool {
    &&& forall|p: Hid| #[trigger] table.contains_key(p) <==> children(p).len() > 0
    &&& forall|p: Hid| #[trigger] table.contains_key(p) ==> table[p]@ == children(p)
}

impl<'index> Prelude<'index> {
    /// Whether the tables are those of the index `ix`.
    pub open spec fn models(&self, ix: IndexView) -> bool {
        &&& ix.edges_known()
        &&& finds_headers(self.by_hid@, ix.headers)
        &&& lists_children(self.md_children@, |p: Hid| ix.md_children(p))
        &&& forall|hid: Hid| #[trigger]
            self.has_md_parent@.contains(hid) <==> ix.has_md_parent(hid)
        &&& lists_children(self.nested_children@, |p: Hid| ix.nested_children(p))
        &&& forall|hid: Hid| #[trigger]
            self.nested_targets@.contains(hid) <==> ix.is_nested_target(hid)
    }

    /// Computes the tables of an index.
    pub fn from_index(index: &'index HeaderIndex) -> (pre: Self)
        requires
            index@.edges_known(),
        ensures
            pre.models(index@),
    {
        let ghost ix = index@;
        let mut by_hid: HashMap<Hid, &'index RenderableHeader> = HashMap::new();
        let mut idstr_to_hid: StringHashMap<Hid> = StringHashMap::new();
        let mut i: usize = 0;
        while i < index.headers.len()
            invariant
                i <= index.headers.len(),
                ix == index@,
                finds_headers(by_hid@, ix.headers.take(i as int)),
                forall|id: Seq<char>| #[trigger]
                    idstr_to_hid@.contains_key(id) <==> index::last_with_id(
                        ix.headers.take(i as int),
                        id,
                    ) is Some,
                forall|id: Seq<char>| #[trigger]
                    idstr_to_hid@.contains_key(id) ==> idstr_to_hid@[id] == index::last_with_id(
                        ix.headers.take(i as int),
                        id,
                    )->0.hid,
            decreases index.headers.len() - i,
        {
            let h = &index.headers[i];
            by_hid.insert(h.hid, h);
            idstr_to_hid.insert(h.id.clone(), h.hid);
            proof {
                let now = ix.headers.take(i + 1);
                assert(now.drop_last() =~= ix.headers.take(i as int));
                assert(now.last() == h@);
            }
            i = i + 1;
        }
        assert(ix.headers.take(i as int) =~= ix.headers);

        let mut md_children: HashMap<Hid, Vec<Hid>> = HashMap::new();
        let mut has_md_parent: HashSet<Hid> = HashSet::new();
        let mut i: usize = 0;
        proof {
            assert forall|p: Hid| ix.md_children_among(ix.headers.take(0), p).len() == 0 by {
                lemma_md_none(ix, p);
            }
        }
        while i < index.headers.len()
            invariant
                i <= index.headers.len(),
                ix == index@,
                finds_headers(by_hid@, ix.headers),
                forall|id: Seq<char>| #[trigger]
                    idstr_to_hid@.contains_key(id) <==> index::last_with_id(ix.headers, id) is Some,
                forall|id: Seq<char>| #[trigger]
                    idstr_to_hid@.contains_key(id) ==> idstr_to_hid@[id] == index::last_with_id(
                        ix.headers,
                        id,
                    )->0.hid,
                lists_children(
                    md_children@,
                    |p: Hid| ix.md_children_among(ix.headers.take(i as int), p),
                ),
                forall|hid: Hid| #[trigger]
                    has_md_parent@.contains(hid) <==> exists|j: int|
                        #![trigger ix.headers[j]]
                        0 <= j < i && ix.headers[j].hid == hid && ix.md_parent(
                            ix.headers[j],
                        ) is Some,
            decreases index.headers.len() - i,
        {
            let h = &index.headers[i];
            let ghost table = md_children@;
            let ghost parents = has_md_parent@;
            assert(ix.headers[i as int] == h@);
            let parent: Option<Hid> = match &h.parent_id {
                Some(pid) => match idstr_to_hid.get(pid.as_str()) {
                    Some(ph) => {
                        let ph: Hid = *ph;
                        proof {
                            index::lemma_last_with_id(ix.headers, pid@);
                            index::lemma_last_with_hid(ix.headers, ph);
                            let p = index::last_with_id(ix.headers, pid@)->0;
                            let k = choose|k: int| 0 <= k < ix.headers.len() && ix.headers[k] == p;
                            assert(ix.headers[k].hid == ph);
                            assert(by_hid@.contains_key(ph));
                        }
                        let parent = *by_hid.get(&ph).unwrap();
                        if parent.scope == h.scope {
                            Some(ph)
                        } else {
                            None
                        }
                    },
                    None => None,
                },
                None => None,
            };
            assert(parent == ix.md_parent(h@));
            if let Some(ph) = parent {
                md_children.entry(ph).or_insert(Vec::new()).push(h.hid);
                has_md_parent.insert(h.hid);
            }
            proof {
                let now = |p: Hid| ix.md_children_among(ix.headers.take(i + 1), p);
                assert forall|p: Hid| #[trigger] md_children@.contains_key(p) <==> now(p).len()
                    > 0 by {
                    lemma_md_step(ix, i as int, p);
                    assert(table.contains_key(p) <==> ix.md_children_among(
                        ix.headers.take(i as int),
                        p,
                    ).len() > 0);
                }
                assert forall|p: Hid| #[trigger] md_children@.contains_key(p) implies
                    md_children@[p]@ == now(p) by {
                    lemma_md_step(ix, i as int, p);
                    assert(table.contains_key(p) <==> ix.md_children_among(
                        ix.headers.take(i as int),
                        p,
                    ).len() > 0);
                    assert(md_children@[p]@ =~= now(p));
                }
                assert forall|hid: Hid| #[trigger]
                    has_md_parent@.contains(hid) <==> exists|j: int|
                        #![trigger ix.headers[j]]
                        0 <= j < i + 1 && ix.headers[j].hid == hid && ix.md_parent(
                            ix.headers[j],
                        ) is Some by {
                    if has_md_parent@.contains(hid) {
                        if parents.contains(hid) {
                            let j = choose|j: int|
                                #![trigger ix.headers[j]]
                                0 <= j < i && ix.headers[j].hid == hid && ix.md_parent(
                                    ix.headers[j],
                                ) is Some;
                            assert(ix.headers[j].hid == hid);
                        } else {
                            assert(ix.headers[i as int].hid == hid);
                        }
                    }
                }
            }
            i = i + 1;
        }
        assert(ix.headers.take(i as int) =~= ix.headers);

        let mut nested_children: HashMap<Hid, Vec<Hid>> = HashMap::new();
        let mut nested_targets: HashSet<Hid> = HashSet::new();
        assert forall|i: int| 0 <= i < ix.nested_edges.len() implies by_hid@.contains_key(
            (#[trigger] ix.nested_edges[i]).0,
        ) && by_hid@.contains_key(ix.nested_edges[i].1) by {
            assert(ix.header(ix.nested_edges[i].0) is Some);
        }
        let edges = nested_scope_edges(index, &by_hid);
        let ghost es = ix.scope_edges();
        let mut i: usize = 0;
        proof {
            assert forall|p: Hid| index::children_among(es.take(0), p).len() == 0 by {
                lemma_children_none(es, p);
            }
        }
        while i < edges.len()
            invariant
                i <= edges.len(),
                es == ix.scope_edges(),
                edges@ == es,
                lists_children(
                    nested_children@,
                    |p: Hid| index::children_among(es.take(i as int), p),
                ),
                forall|hid: Hid| #[trigger]
                    nested_targets@.contains(hid) <==> exists|j: int|
                        #![trigger es[j]]
                        0 <= j < i && es[j].1 == hid,
            decreases edges.len() - i,
        {
            let (p, c) = edges[i];
            let ghost table = nested_children@;
            let ghost targets = nested_targets@;
            nested_children.entry(p).or_insert(Vec::new()).push(c);
            nested_targets.insert(c);
            proof {
                let now = |q: Hid| index::children_among(es.take(i + 1), q);
                assert forall|q: Hid| #[trigger] nested_children@.contains_key(q) <==> now(q).len()
                    > 0 by {
                    lemma_children_step(es, i as int, q);
                    assert(table.contains_key(q) <==> index::children_among(
                        es.take(i as int),
                        q,
                    ).len() > 0);
                }
                assert forall|q: Hid| #[trigger] nested_children@.contains_key(q) implies
                    nested_children@[q]@ == now(q) by {
                    lemma_children_step(es, i as int, q);
                    assert(table.contains_key(q) <==> index::children_among(
                        es.take(i as int),
                        q,
                    ).len() > 0);
                    assert(nested_children@[q]@ =~= now(q));
                }
                assert forall|hid: Hid| #[trigger]
                    nested_targets@.contains(hid) <==> exists|j: int|
                        #![trigger es[j]]
                        0 <= j < i + 1 && es[j].1 == hid by {
                    if nested_targets@.contains(hid) {
                        if targets.contains(hid) {
                            let j = choose|j: int|
                                #![trigger es[j]]
                                0 <= j < i && es[j].1 == hid;
                            assert(es[j].1 == hid);
                        } else {
                            assert(es[i as int].1 == hid);
                        }
                    }
                }
            }
            i = i + 1;
        }
        assert(es.take(i as int) =~= es);

        Prelude { by_hid, md_children, has_md_parent, nested_children, nested_targets }
    }

    /// The headers of a scope that stand below no other header of it.
    pub fn scope_items(&self, index: &'index HeaderIndex, scope: ScopeId) -> (items: Vec<Hid>)
        requires
            self.models(index@),
        ensures
            items@ == index@.scope_items(scope),
    {
        let ghost ix = index@;
        let found = index.headers_in_scope(scope);
        let ghost all = ix.headers_in_scope(scope);
        let ghost free = |h: HeaderView| !ix.has_md_parent(h.hid);
        let ghost hid_of = |h: HeaderView| h.hid;
        let mut items: Vec<Hid> = Vec::new();
        let mut i: usize = 0;
        proof {
            assert(items@ =~= all.take(0).filter(free).map_values(hid_of)) by {
                reveal(Seq::filter);
            }
        }
        while i < found.len()
            invariant
                i <= found.len(),
                self.models(ix),
                ix == index@,
                all == ix.headers_in_scope(scope),
                found@.map_values(|h: &RenderableHeader| h@) == all,
                free == (|h: HeaderView| !ix.has_md_parent(h.hid)),
                hid_of == (|h: HeaderView| h.hid),
                items@ == all.take(i as int).filter(free).map_values(hid_of),
            decreases found.len() - i,
        {
            let h = found[i];
            let ghost before = all.take(i as int).filter(free);
            proof {
                assert(found@.map_values(|h: &RenderableHeader| h@)[i as int] == h@);
                index::lemma_filter_step(all, free, i as int);
                assert(before.push(h@).map_values(hid_of) =~= before.map_values(hid_of).push(
                    h.hid,
                ));
            }
            if !self.has_md_parent.contains(&h.hid) {
                items.push(h.hid);
            }
            i = i + 1;
        }
        assert(found@.map_values(|h: &RenderableHeader| h@).len() == found.len());
        assert(all.take(i as int) =~= all);
        items
    }
}

proof fn lemma_md_none(ix: IndexView, p: Hid)
    ensures
        ix.md_children_among(ix.headers.take(0), p).len() == 0,
{
    reveal(Seq::filter);
}

proof fn lemma_md_step(ix: IndexView, i: int, p: Hid)
    requires
        0 <= i < ix.headers.len(),
    ensures
        ix.md_children_among(ix.headers.take(i + 1), p) == if ix.md_parent(ix.headers[i]) == Some(
            p,
        ) {
            ix.md_children_among(ix.headers.take(i), p).push(ix.headers[i].hid)
        } else {
            ix.md_children_among(ix.headers.take(i), p)
        },
{
    let pred = |h: HeaderView| ix.md_parent(h) == Some(p);
    let f = |h: HeaderView| h.hid;
    index::lemma_filter_step(ix.headers, pred, i);
    let s = ix.headers.take(i).filter(pred);
    assert(s.push(ix.headers[i]).map_values(f) =~= s.map_values(f).push(ix.headers[i].hid));
}

proof fn lemma_children_none(es: Seq<(Hid, Hid)>, p: Hid)
    ensures
        index::children_among(es.take(0), p).len() == 0,
{
    reveal(Seq::filter);
}

proof fn lemma_children_step(es: Seq<(Hid, Hid)>, i: int, p: Hid)
    requires
        0 <= i < es.len(),
    ensures
        index::children_among(es.take(i + 1), p) == if es[i].0 == p {
            index::children_among(es.take(i), p).push(es[i].1)
        } else {
            index::children_among(es.take(i), p)
        },
{
    let pred = index::starts_at(p);
    let f = index::edge_target();
    index::lemma_filter_step(es, pred, i);
    let s = es.take(i).filter(pred);
    assert(s.push(es[i]).map_values(f) =~= s.map_values(f).push(es[i].1));
}

/// The first header of each scope.
pub fn build_scope_roots(index: &HeaderIndex) -> (roots: HashMap<ScopeId, Hid>)
    ensures
        forall|s: ScopeId| #[trigger]
            roots@.contains_key(s) <==> index@.headers_in_scope(s).len() > 0,
        forall|s: ScopeId| #[trigger]
            roots@.contains_key(s) ==> roots@[s] == index@.scope_root(s),
{
    let ghost all = index@.headers;
    let mut roots: HashMap<ScopeId, Hid> = HashMap::new();
    let mut i: usize = 0;
    proof {
        assert forall|s: ScopeId| index::in_scope(all.take(0), s).len() == 0 by {
            reveal(Seq::filter);
        }
    }
    while i < index.headers.len()
        invariant
            i <= index.headers.len(),
            all == index@.headers,
            forall|s: ScopeId| #[trigger]
                roots@.contains_key(s) <==> index::in_scope(all.take(i as int), s).len() > 0,
            forall|s: ScopeId| #[trigger]
                roots@.contains_key(s) ==> roots@[s] == index::in_scope(all.take(i as int), s)[0].hid,
        decreases index.headers.len() - i,
    {
        let h = &index.headers[i];
        let ghost before = roots@;
        roots.entry(h.scope).or_insert(h.hid);
        proof {
            assert(all[i as int] == h@);
            assert forall|s: ScopeId| #[trigger]
                roots@.contains_key(s) <==> index::in_scope(all.take(i + 1), s).len() > 0 by {
                index::lemma_filter_step(all, |h: HeaderView| h.scope == s, i as int);
                assert(before.contains_key(s) <==> index::in_scope(all.take(i as int), s).len() > 0);
            }
            assert forall|s: ScopeId| #[trigger] roots@.contains_key(s) implies roots@[s]
                == index::in_scope(all.take(i + 1), s)[0].hid by {
                index::lemma_filter_step(all, |h: HeaderView| h.scope == s, i as int);
                assert(before.contains_key(s) <==> index::in_scope(all.take(i as int), s).len() > 0);
            }
        }
        i = i + 1;
    }
    assert(all.take(i as int) =~= all);
    roots
}

/// Whether an edge leads from one scope into another, by the scopes of a table.
pub open spec fn crosses_scopes(by_hid: Map<Hid, &RenderableHeader>) -> spec_fn((Hid, Hid)) -> bool {
    |e: (Hid, Hid)| by_hid[e.0]@.scope != by_hid[e.1]@.scope
}

proof fn lemma_filter_same<T>(s: Seq<T>, p: spec_fn(T) -> bool, q: spec_fn(T) -> bool)
    requires
        forall|i: int| 0 <= i < s.len() ==> p(#[trigger] s[i]) == q(s[i]),
    ensures
        s.filter(p) == s.filter(q),
    decreases s.len(),
{
    reveal(Seq::filter);
    if s.len() > 0 {
        let rest = s.drop_last();
        assert forall|i: int| 0 <= i < rest.len() implies p(#[trigger] rest[i]) == q(rest[i]) by {
            assert(rest[i] == s[i]);
        }
        lemma_filter_same(rest, p, q);
        assert(s[s.len() - 1] == s.last());
    }
}

/// By the table of an index, the edges that enter a scope are those of the index.
pub proof fn lemma_scope_edges(ix: IndexView, by_hid: Map<Hid, &RenderableHeader>)
    requires
        ix.edges_known(),
        finds_headers(by_hid, ix.headers),
    ensures
        ix.nested_edges.filter(crosses_scopes(by_hid)) == ix.scope_edges(),
{
    let p = crosses_scopes(by_hid);
    let q = |e: (Hid, Hid)| ix.enters_scope(e);
    assert forall|i: int| 0 <= i < ix.nested_edges.len() implies p(#[trigger] ix.nested_edges[i])
        == q(ix.nested_edges[i]) by {
        assert(by_hid.contains_key(ix.nested_edges[i].0));
        assert(by_hid.contains_key(ix.nested_edges[i].1));
    }
    lemma_filter_same(ix.nested_edges, p, q);
}

/// The nested edges that enter a scope, by the scopes of the headers in a table:
/// in their order, each as often as it occurs.
pub fn nested_scope_edges(
    index: &HeaderIndex,
    by_hid: &HashMap<Hid, &RenderableHeader>,
) -> (edges: Vec<(Hid, Hid)>)
    requires
        forall|i: int|
            0 <= i < index@.nested_edges.len() ==> by_hid@.contains_key(
                (#[trigger] index@.nested_edges[i]).0,
            ) && by_hid@.contains_key(index@.nested_edges[i].1),
    ensures
        edges@ == index@.nested_edges.filter(crosses_scopes(by_hid@)),
        edges@ == index@.nested_edges.filter(
            |e: (Hid, Hid)| by_hid@[e.0]@.scope != by_hid@[e.1]@.scope,
        ),
        index@.edges_known() && finds_headers(by_hid@, index@.headers) ==> edges@
            == index@.scope_edges(),
{
    let ghost all = index@.nested_edges;
    let ghost pred = crosses_scopes(by_hid@);
    let mut edges: Vec<(Hid, Hid)> = Vec::new();
    let mut i: usize = 0;
    proof {
        assert(edges@ =~= all.take(0).filter(pred)) by {
            reveal(Seq::filter);
        }
    }
    while i < index.nested_edges.len()
        invariant
            i <= index.nested_edges.len(),
            all == index@.nested_edges,
            forall|i: int|
                0 <= i < all.len() ==> by_hid@.contains_key((#[trigger] all[i]).0)
                    && by_hid@.contains_key(all[i].1),
            pred == crosses_scopes(by_hid@),
            edges@ == all.take(i as int).filter(pred),
        decreases index.nested_edges.len() - i,
    {
        let (p, c) = index.nested_edges[i];
        proof {
            assert(all[i as int] == (p, c));
            index::lemma_filter_step(all, pred, i as int);
        }
        if by_hid.get(&p).unwrap().scope != by_hid.get(&c).unwrap().scope {
            edges.push((p, c));
        }
        i = i + 1;
    }
    assert(all.take(i as int) =~= all);
    proof {
        let q = |e: (Hid, Hid)| by_hid@[e.0]@.scope != by_hid@[e.1]@.scope;
        lemma_filter_same(all, pred, q);
        if index@.edges_known() && finds_headers(by_hid@, index@.headers) {
            lemma_scope_edges(index@, by_hid@);
        }
    }
    edges
}

/// Whether both ends of every nested edge are headers of the index.
pub fn knows_edges(index: &HeaderIndex) -> (known: bool)
    ensures
        known == index@.edges_known(),
{
    let ghost ix = index@;
    let mut hids: HashSet<Hid> = HashSet::new();
    let mut i: usize = 0;
    while i < index.headers.len()
        invariant
            i <= index.headers.len(),
            ix == index@,
            forall|h: Hid| #[trigger]
                hids@.contains(h) <==> index::last_with_hid(ix.headers.take(i as int), h) is Some,
        decreases index.headers.len() - i,
    {
        hids.insert(index.headers[i].hid);
        proof {
            let now = ix.headers.take(i + 1);
            assert(now.drop_last() =~= ix.headers.take(i as int));
            assert(now.last() == index.headers[i as int]@);
        }
        i = i + 1;
    }
    assert(ix.headers.take(i as int) =~= ix.headers);
    let mut i: usize = 0;
    while i < index.nested_edges.len()
        invariant
            i <= index.nested_edges.len(),
            ix == index@,
            forall|h: Hid| #[trigger] hids@.contains(h) <==> ix.header(h) is Some,
            forall|j: int|
                #![trigger ix.nested_edges[j]]
                0 <= j < i ==> ix.header(ix.nested_edges[j].0) is Some && ix.header(
                    ix.nested_edges[j].1,
                ) is Some,
        decreases index.nested_edges.len() - i,
    {
        let (p, c) = index.nested_edges[i];
        assert(ix.nested_edges[i as int] == (p, c));
        if !hids.contains(&p) || !hids.contains(&c) {
            return false;
        }
        i = i + 1;
    }
    true
}

} // verus!
