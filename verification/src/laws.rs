//! What holds of the graph of every index that can be laid out.
use vstd::prelude::*;
use crate::graph::{Edge, KindView, NodeView};
use crate::ids::{ClusterId, NodeId};
use crate::index;
use crate::index::{HeaderView, Hid, IndexView, ScopeId};
use crate::invariants;
use crate::model;
use crate::model::Layout;
use crate::nesting;
use crate::nesting::Ranking;
use crate::placement;
use crate::progress;
use crate::tables;
use crate::tops;

verus! {

proof fn lemma_advanced(ix: IndexView, show: bool)
    requires
        ix.edges_known(),
        model::has_layout(ix, show),
    ensures
        invariants::advances(ix, show, Layout::empty(), model::layout_of(ix, show)),
        forall|i: int|
            0 <= i < tops::top_scopes(ix).len() ==> model::layout_of(ix, show).visited.contains(
                #[trigger] tops::top_scopes(ix)[i],
            ),
{
    let f = choose|f: nat| model::layout(ix, show, f) is Some;
    invariants::lemma_layout(ix, show, f);
}

/// Nodes and clusters are numbered from zero in the order in which they are
/// listed, edges join nodes of the graph, nodes stand in clusters of the graph,
/// and a cluster stands in an earlier one.
pub proof fn graph_is_sound(ix: IndexView, show: bool)
    requires
        ix.edges_known(),
        model::has_layout(ix, show),
    ensures
        invariants::ids_are_places(model::layout_of(ix, show)),
        invariants::edges_join_nodes(model::layout_of(ix, show)),
        invariants::clusters_nest(model::layout_of(ix, show)),
{
    lemma_advanced(ix, show);
}

/// Every header that is laid out is entered at a node that stands for a header,
/// and left from such nodes, at least one of them.
pub proof fn headers_are_entered_and_left_at_headers(ix: IndexView, show: bool)
    requires
        ix.edges_known(),
        model::has_layout(ix, show),
    ensures
        invariants::ends_are_nodes(ix, model::layout_of(ix, show)),
        forall|h: Hid| #[trigger]
            model::layout_of(ix, show).entry.contains_key(h) ==> {
                let id = model::layout_of(ix, show).entry[h];
                &&& id@ < model::layout_of(ix, show).nodes.len()
                &&& !(model::layout_of(ix, show).nodes[id@ as int].kind is Call)
            },
        forall|h: Hid, i: int|
            model::layout_of(ix, show).exits.contains_key(h) && 0 <= i < model::layout_of(
                ix,
                show,
            ).exits[h].len() ==> {
                let id = #[trigger] model::layout_of(ix, show).exits[h][i];
                &&& id@ < model::layout_of(ix, show).nodes.len()
                &&& !(model::layout_of(ix, show).nodes[id@ as int].kind is Call)
            },
{
    lemma_advanced(ix, show);
    let l = model::layout_of(ix, show);
    assert forall|h: Hid| #[trigger] l.entry.contains_key(h) implies l.entry[h]@ < l.nodes.len()
        && !(l.nodes[l.entry[h]@ as int].kind is Call) by {
        assert(invariants::is_header_node(l, l.entry[h]));
    }
    assert forall|h: Hid, i: int| l.exits.contains_key(h) && 0 <= i < l.exits[h].len() implies {
        let id = #[trigger] l.exits[h][i];
        id@ < l.nodes.len() && !(l.nodes[id@ as int].kind is Call)
    } by {
        assert(invariants::is_header_node(l, l.exits[h][i]));
    }
}

/// The span map holds the spans of the nodes that stand for headers, in the
/// order of the nodes.
pub proof fn spans_are_those_of_nodes(ix: IndexView, show: bool)
    requires
        ix.edges_known(),
        model::has_layout(ix, show),
    ensures
        model::layout_of(ix, show).spans == invariants::node_spans(
            model::layout_of(ix, show).nodes,
        ),
{
    lemma_advanced(ix, show);
}

/// A node that stands for a header has its title and its span; it is a decision
/// if and only if the header is a branch with children. A node that stands for a
/// call has the callee as its label, and the header calls that function.
pub proof fn nodes_describe_what_they_stand_for(ix: IndexView, show: bool)
    requires
        ix.edges_known(),
        model::has_layout(ix, show),
    ensures
        invariants::nodes_describe(ix, show, model::layout_of(ix, show)),
{
    lemma_advanced(ix, show);
}

/// Unless calls are shown, no node stands for a call.
pub proof fn hidden_calls_have_no_nodes(ix: IndexView, i: int)
    requires
        ix.edges_known(),
        model::has_layout(ix, false),
        0 <= i < model::layout_of(ix, false).nodes.len(),
    ensures
        !(model::layout_of(ix, false).nodes[i].kind is Call),
{
    lemma_advanced(ix, false);
    let l = model::layout_of(ix, false);
    assert(invariants::describes(ix, false, l.nodes[i]));
}

/// Every decision stands in a cluster that is named like its header and holds no
/// earlier node: no two decisions share a cluster.
pub proof fn decisions_have_clusters_of_their_own(ix: IndexView, show: bool)
    requires
        ix.edges_known(),
        model::has_layout(ix, show),
    ensures
        invariants::decisions_open_clusters(
            ix,
            model::layout_of(ix, show).nodes,
            model::layout_of(ix, show).clusters,
        ),
        forall|i: int, j: int|
            0 <= i < j < model::layout_of(ix, show).nodes.len() && (
            #[trigger] model::layout_of(ix, show).nodes[j]).kind is Decision ==> (
            #[trigger] model::layout_of(ix, show).nodes[i]).cluster != model::layout_of(
                ix,
                show,
            ).nodes[j].cluster,
{
    lemma_advanced(ix, show);
    let l = model::layout_of(ix, show);
    assert forall|i: int, j: int|
        0 <= i < j < l.nodes.len() && (#[trigger] l.nodes[j]).kind is Decision implies (
    #[trigger] l.nodes[i]).cluster != l.nodes[j].cluster by {
        if let KindView::Decision(hid, _) = l.nodes[j].kind {
            assert(invariants::opens_cluster(ix, l.nodes, l.clusters, j, hid));
        }
    }
}

/// Top-level scopes are never flattened: a node in no cluster that stands for a
/// header stands for one without children.
pub proof fn top_level_headers_are_not_flattened(ix: IndexView, show: bool, i: int)
    requires
        ix.edges_known(),
        model::has_layout(ix, show),
        0 <= i < model::layout_of(ix, show).nodes.len(),
        model::layout_of(ix, show).nodes[i].cluster is None,
        invariants::header_of_kind(model::layout_of(ix, show).nodes[i].kind) is Some,
    ensures
        ({
            let hid = invariants::header_of_kind(model::layout_of(ix, show).nodes[i].kind)->0;
            ix.md_children(hid).len() == 0 && ix.nested_children(hid).len() == 0
        }),
{
    lemma_advanced(ix, show);
    let l = model::layout_of(ix, show);
    assert(invariants::describes(ix, show, l.nodes[i]));
    if let KindView::Decision(hid, _) = l.nodes[i].kind {
        assert(invariants::opens_cluster(ix, l.nodes, l.clusters, i, hid));
    }
}

/// What is added to a layout for a header stands in the cluster that the header
/// is laid out in, or below it. In no cluster only items of top-level scopes are
/// laid out.
pub proof fn headers_keep_to_their_cluster(
    ix: IndexView,
    show: bool,
    l: Layout,
    hid: Hid,
    parent: Option<ClusterId>,
    fuel: nat,
)
    requires
        ix.edges_known(),
        invariants::sound(ix, show, l),
        invariants::is_cluster(l, parent),
        invariants::homed(ix, parent, hid),
        model::place_header(ix, show, l, hid, parent, fuel) is Some,
    ensures
        invariants::enclosed(
            l,
            model::place_header(ix, show, l, hid, parent, fuel)->0.layout,
            parent,
        ),
{
    invariants::lemma_place_header(ix, show, l, hid, parent, fuel);
}

/// No two nodes stand for the same header, nor for the same call of a header.
/// Headers without children and branches that are laid out have nodes, and so
/// have those laid out in line.
pub proof fn what_stands_in_the_graph_stands_once(ix: IndexView, show: bool)
    requires
        ix.edges_known(),
        model::has_layout(ix, show),
    ensures
        invariants::headers_have_one_node(ix, model::layout_of(ix, show)),
        invariants::calls_have_one_node(model::layout_of(ix, show)),
        forall|i: int, j: int|
            0 <= i < j < model::layout_of(ix, show).nodes.len() ==> !same_subject(
                #[trigger] model::layout_of(ix, show).nodes[i].kind,
                #[trigger] model::layout_of(ix, show).nodes[j].kind,
            ),
{
    lemma_advanced(ix, show);
    let l = model::layout_of(ix, show);
    assert forall|i: int, j: int| 0 <= i < j < l.nodes.len() implies !same_subject(
        #[trigger] l.nodes[i].kind,
        #[trigger] l.nodes[j].kind,
    ) by {
        if same_subject(l.nodes[i].kind, l.nodes[j].kind) {
            match l.nodes[i].kind {
                KindView::Call { header, callee } => {
                    assert(l.calls[(header, callee)]@ == i);
                    assert(l.calls[(header, callee)]@ == j);
                },
                _ => {},
            }
        }
    }
}

/// Whether two nodes stand for the same header, or for the same call.
pub open spec fn same_subject(a: KindView, b: KindView) -> bool {
    match (a, b) {
        (
            KindView::Call { header, callee },
            KindView::Call { header: other, callee: called },
        ) => header == other && callee == called,
        _ => invariants::header_of_kind(a) is Some && invariants::header_of_kind(a)
            == invariants::header_of_kind(b),
    }
}

/// All top-level scopes are laid out. With a scope all its items are, and with a
/// header all its children and the scopes that these open. The calls of headers
/// without children and of branches lead to them if calls are shown. A branch
/// leads to those of its nested children that keep their nodes, whose calls lead
/// to them too; a header in line leads to its only child if that keeps its node.
pub proof fn layout_is_complete(ix: IndexView, show: bool)
    requires
        ix.edges_known(),
        model::has_layout(ix, show),
    ensures
        forall|s: ScopeId| #[trigger]
            tops::top_scopes(ix).contains(s) ==> model::layout_of(ix, show).visited.contains(s),
        forall|s: ScopeId| #[trigger]
            model::layout_of(ix, show).visited.contains(s) ==> model::layout_of(
                ix,
                show,
            ).all_entered(ix.scope_items(s)),
        forall|h: Hid| #[trigger]
            model::layout_of(ix, show).entry.contains_key(h) ==> invariants::complete(
                ix,
                show,
                model::layout_of(ix, show),
                h,
            ),
{
    lemma_advanced(ix, show);
    let l = model::layout_of(ix, show);
    assert forall|s: ScopeId| #[trigger] tops::top_scopes(ix).contains(s) implies l.visited.contains(
        s,
    ) by {
        let i = choose|i: int| 0 <= i < tops::top_scopes(ix).len() && tops::top_scopes(ix)[i] == s;
        assert(l.visited.contains(tops::top_scopes(ix)[i]));
    }
}

/// Whether no two headers have the same number.
pub open spec fn numbers_differ(ix: IndexView) -> bool {
    forall|i: int, j: int|
        0 <= i < j < ix.headers.len() ==> (#[trigger] ix.headers[i]).hid != (
        #[trigger] ix.headers[j]).hid
}

proof fn lemma_header_at(ix: IndexView, i: int)
    requires
        numbers_differ(ix),
        0 <= i < ix.headers.len(),
    ensures
        ix.header(ix.headers[i].hid) == Some(ix.headers[i]),
{
    let hid = ix.headers[i].hid;
    index::lemma_last_with_hid(ix.headers, hid);
    assert(ix.headers[i].hid == hid);
    let h = ix.header(hid)->0;
    let k = choose|k: int| 0 <= k < ix.headers.len() && ix.headers[k] == h;
    assert(ix.headers[k].hid == hid);
}

proof fn lemma_laid_out(
    ix: IndexView,
    show: bool,
    rank: Ranking,
    i: int,
)
    requires
        nesting::well_formed(ix, show),
        rank.ranks(ix),
        numbers_differ(ix),
        forall|k: int|
            0 <= k < ix.headers.len() ==> rank.of((#[trigger] ix.headers[k]).hid) < rank.limit,
        0 <= i < ix.headers.len(),
    ensures
        model::layout_of(ix, show).entry.contains_key(ix.headers[i].hid),
    decreases rank.limit - rank.of(ix.headers[i].hid),
{
    let l = model::layout_of(ix, show);
    let h = ix.headers[i];
    progress::well_formed_has_layout(ix, show);
    layout_is_complete(ix, show);
    lemma_header_at(ix, i);
    if ix.has_md_parent(h.hid) {
        let k = choose|k: int|
            #![trigger ix.headers[k]]
            0 <= k < ix.headers.len() && ix.headers[k].hid == h.hid && ix.md_parent(
                ix.headers[k],
            ) is Some;
        let p = ix.md_parent(ix.headers[k])->0;
        lemma_parent_child(ix, k);
        assert(ix.md_children(p).contains(h.hid));
        let j = choose|j: int|
            0 <= j < ix.md_children(p).len() && ix.md_children(p)[j] == h.hid;
        assert(nesting::below(ix, p, h.hid));
        index::lemma_last_with_id(ix.headers, ix.headers[k].parent_id->0);
        let parent = index::last_with_id(ix.headers, ix.headers[k].parent_id->0)->0;
        let at = choose|at: int| 0 <= at < ix.headers.len() && ix.headers[at] == parent;
        assert(ix.headers[at].hid == p);
        lemma_laid_out(ix, show, rank, at);
        assert(invariants::complete(ix, show, l, p));
        assert(l.entry.contains_key(ix.md_children(p)[j]));
    } else {
        lemma_item(ix, i);
        let items = ix.scope_items(h.scope);
        assert(items.contains(h.hid));
        assert(l.visited.contains(h.scope)) by {
            tops::top_scopes_are_sorted(ix);
            lemma_root(ix, i);
            let root = ix.scope_root(h.scope);
            if !tops::is_top_level(ix, h.scope) {
                let e = choose|e: int|
                    #![trigger ix.scope_edges()[e]]
                    0 <= e < ix.scope_edges().len() && ix.scope_edges()[e].1 == root;
                let p = ix.scope_edges()[e].0;
                lemma_edge_child(ix, e);
                let nested = ix.nested_children(p);
                assert(nested.contains(root));
                assert(nesting::below(ix, p, h.hid));
                index::lemma_nested_child(ix, p, root);
                index::lemma_last_with_hid(ix.headers, p);
                let at = choose|at: int|
                    0 <= at < ix.headers.len() && (#[trigger] ix.headers[at]).hid == p;
                lemma_laid_out(ix, show, rank, at);
                assert(invariants::complete(ix, show, l, p));
                let j = choose|j: int| 0 <= j < nested.len() && nested[j] == root;
                assert(l.visited.contains(ix.scope_of(nested[j])));
            } else {
                assert(tops::top_scopes(ix).contains(h.scope));
            }
        }
        let j = choose|j: int| 0 <= j < items.len() && items[j] == h.hid;
        assert(l.entry.contains_key(items[j]));
    }
}

/// A header that stands below no other one of its scope is an item of the scope.
proof fn lemma_item(ix: IndexView, i: int)
    requires
        0 <= i < ix.headers.len(),
        !ix.has_md_parent(ix.headers[i].hid),
    ensures
        ix.scope_items(ix.headers[i].scope).contains(ix.headers[i].hid),
{
    let h = ix.headers[i];
    let inside = |g: HeaderView| g.scope == h.scope;
    let free = |g: HeaderView| !ix.has_md_parent(g.hid);
    let found = ix.headers_in_scope(h.scope);
    index::lemma_filter_member(ix.headers, inside, h);
    assert(found.contains(h));
    index::lemma_filter_member(found, free, h);
    let kept = found.filter(free);
    let j = choose|j: int| 0 <= j < kept.len() && kept[j] == h;
    assert(ix.scope_items(h.scope)[j] == h.hid);
}

/// The first header of a scope stands in that scope.
proof fn lemma_root(ix: IndexView, i: int)
    requires
        numbers_differ(ix),
        0 <= i < ix.headers.len(),
    ensures
        ix.headers_in_scope(ix.headers[i].scope).len() > 0,
        ix.scope_of(ix.scope_root(ix.headers[i].scope)) == ix.headers[i].scope,
{
    let h = ix.headers[i];
    let inside = |g: HeaderView| g.scope == h.scope;
    let found = ix.headers_in_scope(h.scope);
    index::lemma_filter_member(ix.headers, inside, h);
    assert(found.contains(h));
    assert(found.contains(found[0]));
    index::lemma_filter_member(ix.headers, inside, found[0]);
    let k = choose|k: int| 0 <= k < ix.headers.len() && ix.headers[k] == found[0];
    lemma_header_at(ix, k);
}

/// An edge into a scope makes its target a child of its source.
proof fn lemma_edge_child(ix: IndexView, e: int)
    requires
        0 <= e < ix.scope_edges().len(),
    ensures
        ix.nested_children(ix.scope_edges()[e].0).contains(ix.scope_edges()[e].1),
{
    let es = ix.scope_edges();
    let p = es[e].0;
    index::lemma_filter_member(es, index::starts_at(p), es[e]);
    assert(es.contains(es[e]));
    let kept = es.filter(index::starts_at(p));
    let j = choose|j: int| 0 <= j < kept.len() && kept[j] == es[e];
    assert(ix.nested_children(p)[j] == es[e].1);
}

/// The nested children of a header are the ends of those of its nested edges
/// that lead into another scope.
pub proof fn nested_children_cross_scopes(ix: IndexView, p: Hid, c: Hid)
    ensures
        ix.nested_children(p).contains(c) <==> ix.nested_edges.contains((p, c)) && ix.scope_of(p)
            != ix.scope_of(c),
{
    if ix.nested_children(p).contains(c) {
        index::lemma_nested_child(ix, p, c);
    }
    if ix.nested_edges.contains((p, c)) && ix.scope_of(p) != ix.scope_of(c) {
        let pred = |e: (Hid, Hid)| ix.enters_scope(e);
        index::lemma_filter_member(ix.nested_edges, pred, (p, c));
        let e = choose|e: int| 0 <= e < ix.scope_edges().len() && ix.scope_edges()[e] == (p, c);
        lemma_edge_child(ix, e);
    }
}

/// The nested targets are the nested children of all headers, and the headers
/// that have a parent within their scope are the children of all headers within
/// their scopes.
pub proof fn targets_are_children(ix: IndexView, c: Hid)
    ensures
        ix.is_nested_target(c) <==> exists|p: Hid| #[trigger] ix.nested_children(p).contains(c),
        ix.has_md_parent(c) <==> exists|p: Hid| #[trigger] ix.md_children(p).contains(c),
{
    if ix.is_nested_target(c) {
        let e = choose|e: int|
            #![trigger ix.scope_edges()[e]]
            0 <= e < ix.scope_edges().len() && ix.scope_edges()[e].1 == c;
        lemma_edge_child(ix, e);
    }
    if exists|p: Hid| #[trigger] ix.nested_children(p).contains(c) {
        let p = choose|p: Hid| #[trigger] ix.nested_children(p).contains(c);
        index::lemma_nested_child(ix, p, c);
    }
    if ix.has_md_parent(c) {
        let k = choose|k: int|
            #![trigger ix.headers[k]]
            0 <= k < ix.headers.len() && ix.headers[k].hid == c && ix.md_parent(
                ix.headers[k],
            ) is Some;
        lemma_parent_child(ix, k);
    }
    if exists|p: Hid| #[trigger] ix.md_children(p).contains(c) {
        let p = choose|p: Hid| #[trigger] ix.md_children(p).contains(c);
        index::lemma_md_child_known(ix, p, c);
    }
}

/// A header stands among the children of the parent that it names.
proof fn lemma_parent_child(ix: IndexView, k: int)
    requires
        0 <= k < ix.headers.len(),
        ix.md_parent(ix.headers[k]) is Some,
    ensures
        ix.md_children(ix.md_parent(ix.headers[k])->0).contains(ix.headers[k].hid),
{
    let p = ix.md_parent(ix.headers[k])->0;
    let pred = |g: HeaderView| ix.md_parent(g) == Some(p);
    let kept = ix.headers.filter(pred);
    index::lemma_filter_member(ix.headers, pred, ix.headers[k]);
    assert(kept.contains(ix.headers[k]));
    let j = choose|j: int| 0 <= j < kept.len() && kept[j] == ix.headers[k];
    assert(ix.md_children(p)[j] == ix.headers[k].hid);
}

/// A header and its children within a scope stand in the same scope.
pub proof fn md_children_share_the_scope(ix: IndexView, p: Hid, c: Hid)
    requires
        numbers_differ(ix),
        ix.md_children(p).contains(c),
    ensures
        ix.scope_of(p) == ix.scope_of(c),
{
    let pred = |g: HeaderView| ix.md_parent(g) == Some(p);
    let kept = ix.headers.filter(pred);
    let i = choose|i: int| 0 <= i < ix.md_children(p).len() && ix.md_children(p)[i] == c;
    assert(kept.contains(kept[i]));
    index::lemma_filter_member(ix.headers, pred, kept[i]);
    let k = choose|k: int| 0 <= k < ix.headers.len() && ix.headers[k] == kept[i];
    lemma_header_at(ix, k);
}

/// The items of a scope stand in it.
pub proof fn items_stand_in_their_scope(ix: IndexView, s: ScopeId, c: Hid)
    requires
        numbers_differ(ix),
        ix.scope_items(s).contains(c),
    ensures
        ix.scope_of(c) == s,
{
    let inside = |g: HeaderView| g.scope == s;
    let free = |g: HeaderView| !ix.has_md_parent(g.hid);
    let found = ix.headers_in_scope(s);
    let kept = found.filter(free);
    let i = choose|i: int| 0 <= i < ix.scope_items(s).len() && ix.scope_items(s)[i] == c;
    assert(kept.contains(kept[i]));
    index::lemma_filter_member(found, free, kept[i]);
    index::lemma_filter_member(ix.headers, inside, kept[i]);
    let k = choose|k: int| 0 <= k < ix.headers.len() && ix.headers[k] == kept[i];
    lemma_header_at(ix, k);
}

/// Where no header is laid out as part of itself, every header of a well-formed
/// index is laid out. A node stands for it if it has no children or is a branch,
/// and if it fits in line and is no item of a top-level scope; none does if it
/// has too much below it to fit in line.
pub proof fn every_header_is_laid_out(ix: IndexView, show: bool, i: int)
    requires
        nesting::well_formed(ix, show),
        nesting::acyclic_throughout(ix),
        numbers_differ(ix),
        0 <= i < ix.headers.len(),
    ensures
        model::layout_of(ix, show).entry.contains_key(ix.headers[i].hid),
        invariants::keeps_its_node(ix, ix.headers[i].hid) ==> invariants::has_node(
            model::layout_of(ix, show).nodes,
            ix.headers[i].hid,
        ),
        !invariants::always_a_node(ix, ix.headers[i].hid) && !model::fits_in_line(
            ix,
            ix.headers[i].hid,
        ) ==> !invariants::has_node(model::layout_of(ix, show).nodes, ix.headers[i].hid),
{
    let rank = choose|rank: Ranking|
        {
            &&& #[trigger] rank.ranks(ix)
            &&& forall|k: int|
                0 <= k < ix.headers.len() ==> rank.of((#[trigger] ix.headers[k]).hid) < rank.limit
        };
    lemma_laid_out(ix, show, rank, i);
    progress::well_formed_has_layout(ix, show);
    lemma_advanced(ix, show);
    let l = model::layout_of(ix, show);
    let hid = ix.headers[i].hid;
    if invariants::keeps_its_node(ix, hid) {
        let k = l.entry[hid]@ as int;
        assert(invariants::header_of_kind(l.nodes[k].kind) == Some(hid));
    }
    if !invariants::always_a_node(ix, hid) && !model::fits_in_line(ix, hid) {
        assert forall|k: int| 0 <= k < l.nodes.len() implies invariants::header_of_kind(
            (#[trigger] l.nodes[k]).kind,
        ) != Some(hid) by {
            assert(invariants::describes(ix, show, l.nodes[k]));
        }
    }
}

/// A node has its place as its number. If it stands for a header it has the title and
/// the span of that header, and it is a decision if and only if the header is an `if`
/// with children. If it stands for a call it has the name of the function, which is
/// called under its header.
pub proof fn nodes_say_what_they_stand_for(ix: IndexView, show: bool, i: int)
    requires
        ix.edges_known(),
        model::has_layout(ix, show),
        0 <= i < model::layout_of(ix, show).nodes.len(),
    ensures
        ({
            let node = model::layout_of(ix, show).nodes[i];
            &&& node.id@ == i
            &&& match node.kind {
                KindView::Header(h, span) => {
                    &&& ix.header(h) matches Some(v) && node.label == v.title && span == Some(v.span)
                    &&& !placement::decides(ix, h)
                },
                KindView::Decision(h, span) => {
                    &&& ix.header(h) matches Some(v) && node.label == v.title && span == Some(v.span)
                    &&& placement::decides(ix, h)
                },
                KindView::Call { header, callee } => {
                    &&& show
                    &&& node.label == callee
                    &&& ix.header(header) is Some
                    &&& ix.calls(header).contains(callee)
                },
            }
        }),
{
    lemma_advanced(ix, show);
    let l = model::layout_of(ix, show);
    assert(invariants::describes(ix, show, l.nodes[i]));
}

proof fn lemma_span_places(nodes: Seq<NodeView>) -> (pos: Seq<int>)
    ensures
        tables::are_places(
            pos,
            nodes.len(),
            |i: int| invariants::span_of_kind(nodes[i].kind) is Some,
        ),
        invariants::node_spans(nodes).len() == pos.len(),
        forall|k: int|
            0 <= k < pos.len() ==> invariants::node_spans(nodes)[k] == (
                nodes[#[trigger] pos[k]].id,
                invariants::span_of_kind(nodes[pos[k]].kind)->0,
            ),
    decreases nodes.len(),
{
    if nodes.len() == 0 {
        Seq::empty()
    } else {
        let rest = nodes.drop_last();
        let last = nodes.len() - 1;
        let before = lemma_span_places(rest);
        let at = |i: int| invariants::span_of_kind(rest[i].kind) is Some;
        assert forall|k: int| 0 <= k < before.len() implies 0 <= #[trigger] before[k] < last by {
            assert(before.contains(before[k]));
            assert(0 <= before[k] < rest.len() && at(before[k]));
        }
        let pos = if invariants::span_of_kind(nodes.last().kind) is Some {
            before.push(last)
        } else {
            before
        };
        assert forall|i: int| #[trigger] pos.contains(i) <==> 0 <= i < nodes.len()
            && invariants::span_of_kind(nodes[i].kind) is Some by {
            if pos.contains(i) {
                let k = choose|k: int| 0 <= k < pos.len() && pos[k] == i;
                if k < before.len() {
                    assert(before.contains(before[k]));
                    assert(0 <= i < rest.len() && at(i));
                }
            }
            if 0 <= i < nodes.len() && invariants::span_of_kind(nodes[i].kind) is Some {
                if i < last {
                    assert(rest[i] == nodes[i]);
                    assert(at(i));
                    assert(before.contains(i));
                    let k = choose|k: int| 0 <= k < before.len() && before[k] == i;
                    assert(pos[k] == i);
                } else {
                    assert(pos[before.len() as int] == i);
                }
            }
        }
        pos
    }
}

/// The span map has an entry for every node that stands for a header, and for no other
/// one, in the order of the nodes: the node and the span of that header.
pub proof fn spans_are_listed_in_the_order_of_nodes(ix: IndexView, show: bool) -> (pos: Seq<int>)
    requires
        ix.edges_known(),
        model::has_layout(ix, show),
    ensures
        tables::are_places(
            pos,
            model::layout_of(ix, show).nodes.len(),
            |i: int| !(model::layout_of(ix, show).nodes[i].kind is Call),
        ),
        model::layout_of(ix, show).spans.len() == pos.len(),
        forall|k: int|
            0 <= k < pos.len() ==> {
                let node = model::layout_of(ix, show).nodes[#[trigger] pos[k]];
                let entry = model::layout_of(ix, show).spans[k];
                &&& entry.0 == node.id
                &&& match node.kind {
                    KindView::Header(h, _) => ix.header(h) matches Some(v) && entry.1 == v.span,
                    KindView::Decision(h, _) => ix.header(h) matches Some(v) && entry.1 == v.span,
                    KindView::Call { .. } => false,
                }
            },
{
    lemma_advanced(ix, show);
    let l = model::layout_of(ix, show);
    let pos = lemma_span_places(l.nodes);
    let has = |i: int| invariants::span_of_kind(l.nodes[i].kind) is Some;
    assert forall|i: int| 0 <= i < l.nodes.len() implies (invariants::span_of_kind(
        (#[trigger] l.nodes[i]).kind,
    ) is Some <==> !(l.nodes[i].kind is Call)) by {
        assert(invariants::describes(ix, show, l.nodes[i]));
    }
    assert forall|i: int| #[trigger] pos.contains(i) <==> 0 <= i < l.nodes.len() && !(
    l.nodes[i].kind is Call) by {
        assert(pos.contains(i) <==> 0 <= i < l.nodes.len() && has(i));
    }
    assert forall|k: int| 0 <= k < pos.len() implies {
        let node = l.nodes[#[trigger] pos[k]];
        let entry = l.spans[k];
        &&& entry.0 == node.id
        &&& match node.kind {
            KindView::Header(h, _) => ix.header(h) matches Some(v) && entry.1 == v.span,
            KindView::Decision(h, _) => ix.header(h) matches Some(v) && entry.1 == v.span,
            KindView::Call { .. } => false,
        }
    } by {
        assert(pos.contains(pos[k]));
        assert(invariants::describes(ix, show, l.nodes[pos[k]]));
    }
    assert(tables::are_places(pos, l.nodes.len(), |i: int| !(l.nodes[i].kind is Call)));
    pos
}

/// Where no header is laid out as part of itself, a header of a well-formed index has a
/// node if it has no children or decides; and if it has a lone child, unless it is an
/// item of a top-level scope. It has none if it has more than a lone child and does not
/// decide.
pub proof fn headers_have_nodes_as_their_children_ask(ix: IndexView, show: bool, i: int)
    requires
        nesting::well_formed(ix, show),
        nesting::acyclic_throughout(ix),
        numbers_differ(ix),
        0 <= i < ix.headers.len(),
    ensures
        ({
            let h = ix.headers[i].hid;
            let nodes = model::layout_of(ix, show).nodes;
            let has_node = exists|k: int|
                0 <= k < nodes.len() && placement::stands_for(#[trigger] nodes[k], h);
            &&& !placement::has_children(ix, h) || placement::decides(ix, h) ==> has_node
            &&& placement::has_lone_child(ix, h) && !(exists|s: ScopeId| #[trigger]
                tops::top_scopes(ix).contains(s) && ix.scope_items(s).contains(h)) ==> has_node
            &&& placement::has_children(ix, h) && !placement::decides(ix, h)
                && !placement::has_lone_child(ix, h) ==> !has_node
        }),
{
    every_header_is_laid_out(ix, show, i);
    progress::well_formed_has_layout(ix, show);
    lemma_advanced(ix, show);
    lemma_header_at(ix, i);
    let l = model::layout_of(ix, show);
    let h = ix.headers[i].hid;
    if invariants::keeps_its_node(ix, h) {
        let k = choose|k: int|
            0 <= k < l.nodes.len() && invariants::header_of_kind((#[trigger] l.nodes[k]).kind)
                == Some(h);
        assert(placement::stands_for(l.nodes[k], h));
    }
    if !invariants::always_a_node(ix, h) && !model::fits_in_line(ix, h) {
        assert forall|k: int| 0 <= k < l.nodes.len() implies !placement::stands_for(
            #[trigger] l.nodes[k],
            h,
        ) by {
            assert(invariants::header_of_kind(l.nodes[k].kind) != Some(h));
        }
    }
}

/// In the sequence of the items of a scope every item but the first one is led to from
/// a node that stands for a header, of those that have no children or decide. This
/// holds also where headers are laid out as part of themselves.
pub proof fn items_are_led_to(ix: IndexView, show: bool, s: ScopeId, i: int)
    requires
        ix.edges_known(),
        model::has_layout(ix, show),
        model::layout_of(ix, show).visited.contains(s),
        0 < i < ix.scope_items(s).len(),
        !placement::has_children(ix, ix.scope_items(s)[i]) || placement::decides(
            ix,
            ix.scope_items(s)[i],
        ),
    ensures
        ({
            let l = model::layout_of(ix, show);
            let hid = ix.scope_items(s)[i];
            &&& l.entry.contains_key(hid)
            &&& exists|from: NodeId|
                #![trigger l.edges.contains(Edge { from, to: l.entry[hid] })]
                {
                    &&& l.edges.contains(Edge { from, to: l.entry[hid] })
                    &&& from@ < l.nodes.len()
                    &&& !(l.nodes[from@ as int].kind is Call)
                }
        }),
{
    lemma_advanced(ix, show);
    let l = model::layout_of(ix, show);
    let hid = ix.scope_items(s)[i];
    assert(!Layout::empty().visited.contains(s));
    assert(l.entry.contains_key(hid));
    assert(invariants::keeps_its_node(ix, hid));
    assert(invariants::is_led_to(l, hid));
    let from = choose|from: NodeId| #[trigger]
        invariants::leads_from_header(l, from, l.entry[hid]);
    assert(l.edges.contains(Edge { from, to: l.entry[hid] }));
}

/// A graph has the nodes, edges and clusters that are laid out, in the same order.
pub proof fn graphs_hold_what_is_laid_out(l: Layout)
    ensures
        l.graph().nodes == l.nodes,
        l.graph().edges == l.edges,
        l.graph().clusters == l.clusters,
{
}

} // verus!
