//! Merging lists of headers by source position.
use std::collections::HashMap;
use vstd::prelude::*;
use crate::index;
use crate::index::{HeaderView, Hid, IndexView, RenderableHeader};
use crate::order::Rel;
use crate::prelude;
use crate::span;
use crate::span::{SourcePath, SpanView, compare_positions};

verus! {

broadcast use vstd::std_specs::hash::group_hash_axioms;

/// Where the headers of a table stand.
pub open spec fn span_table(by_hid: Map<Hid, &RenderableHeader>) -> Map<Hid, SpanView> {
    by_hid.map_values(|h: &RenderableHeader| h@.span)
}

/// Where the headers of an index stand.
pub open spec fn spans_of(ix: IndexView) -> Map<Hid, SpanView> {
    Map::new(|hid: Hid| ix.header(hid) is Some, |hid: Hid| ix.header(hid)->0.span)
}

/// Whether the position of `a` is not after that of `b`.
pub open spec fn not_after(spans: Map<Hid, SpanView>, a: Hid, b: Hid) -> bool {
    span::position_rel(spans[a], spans[b]) != Rel::After
}

/// Two lists merged by position: of the two heads the earlier one comes first,
/// and the left one where they stand at the same place.
pub open spec fn merged(spans: Map<Hid, SpanView>, lhs: Seq<Hid>, rhs: Seq<Hid>) -> Seq<Hid>
    decreases lhs.len() + rhs.len(),
{
    if lhs.len() == 0 {
        rhs
    } else if rhs.len() == 0 {
        lhs
    } else if not_after(spans, lhs[0], rhs[0]) {
        seq![lhs[0]] + merged(spans, lhs.drop_first(), rhs)
    } else {
        seq![rhs[0]] + merged(spans, lhs, rhs.drop_first())
    }
}

/// Whether every header that the merge of two lists compares has a position.
pub open spec fn mergeable(spans: Map<Hid, SpanView>, lhs: Seq<Hid>, rhs: Seq<Hid>) -> bool
    decreases lhs.len() + rhs.len(),
{
    lhs.len() > 0 && rhs.len() > 0 ==> {
        &&& spans.contains_key(lhs[0])
        &&& spans.contains_key(rhs[0])
        &&& if not_after(spans, lhs[0], rhs[0]) {
            mergeable(spans, lhs.drop_first(), rhs)
        } else {
            mergeable(spans, lhs, rhs.drop_first())
        }
    }
}

/// The position of a header, as it is compared: its file and where it starts.
pub fn pos_tuple<'index>(
    by_hid: &HashMap<Hid, &'index RenderableHeader>,
    hid: Hid,
) -> (pos: (&'index SourcePath, usize))
    requires
        by_hid@.contains_key(hid),
    ensures
        pos.0@ == by_hid@[hid]@.span.file,
        pos.1 == by_hid@[hid]@.span.start,
{
    let h: &'index RenderableHeader = *by_hid.get(&hid).unwrap();
    (&h.span.file, h.span.start)
}

/// Merges two lists by source position. Each list keeps its own order.
pub fn merge_by_pos<'index>(
    by_hid: &HashMap<Hid, &'index RenderableHeader>,
    lhs: &[Hid],
    rhs: &[Hid],
) -> (out: Vec<Hid>)
    requires
        mergeable(span_table(by_hid@), lhs@, rhs@),
    ensures
        out@ == merged(span_table(by_hid@), lhs@, rhs@),
{
    let ghost spans = span_table(by_hid@);
    let mut out: Vec<Hid> = Vec::new();
    let mut i: usize = 0;
    let mut j: usize = 0;
    assert(lhs@.skip(0) =~= lhs@);
    assert(rhs@.skip(0) =~= rhs@);
    assert(out@ + merged(spans, lhs@, rhs@) =~= merged(spans, lhs@, rhs@));
    while i < lhs.len() || j < rhs.len()
        invariant
            i <= lhs@.len(),
            j <= rhs@.len(),
            spans == span_table(by_hid@),
            mergeable(spans, lhs@.skip(i as int), rhs@.skip(j as int)),
            merged(spans, lhs@, rhs@) == out@ + merged(
                spans,
                lhs@.skip(i as int),
                rhs@.skip(j as int),
            ),
        decreases lhs@.len() - i + rhs@.len() - j,
    {
        let ghost a = lhs@.skip(i as int);
        let ghost b = rhs@.skip(j as int);
        let ghost sofar = out@;
        let take_left = if i == lhs.len() {
            false
        } else if j == rhs.len() {
            true
        } else {
            assert(spans.contains_key(a[0]) && spans.contains_key(b[0]));
            compare_positions(pos_tuple(by_hid, lhs[i]), pos_tuple(by_hid, rhs[j])) != Rel::After
        };
        proof {
            if i < lhs.len() {
                assert(a.drop_first() =~= lhs@.skip(i + 1));
                assert(a =~= seq![a[0]] + a.drop_first());
            }
            if j < rhs.len() {
                assert(b.drop_first() =~= rhs@.skip(j + 1));
                assert(b =~= seq![b[0]] + b.drop_first());
            }
            if take_left {
                let rest = merged(spans, a.drop_first(), b);
                if j == rhs.len() {
                    assert(rest =~= a.drop_first());
                }
                assert(merged(spans, a, b) =~= seq![a[0]] + rest);
                assert(sofar + (seq![a[0]] + rest) =~= sofar.push(a[0]) + rest);
            } else {
                let rest = merged(spans, a, b.drop_first());
                assert(merged(spans, a, b) =~= seq![b[0]] + rest);
                assert(sofar + (seq![b[0]] + rest) =~= sofar.push(b[0]) + rest);
            }
        }
        if take_left {
            out.push(lhs[i]);
            i = i + 1;
        } else {
            out.push(rhs[j]);
            j = j + 1;
        }
    }
    assert(out@ =~= merged(spans, lhs@, rhs@));
    out
}

/// Lists whose headers all have positions can be merged.
pub proof fn lemma_mergeable(spans: Map<Hid, SpanView>, lhs: Seq<Hid>, rhs: Seq<Hid>)
    requires
        forall|i: int| 0 <= i < lhs.len() ==> spans.contains_key(#[trigger] lhs[i]),
        forall|i: int| 0 <= i < rhs.len() ==> spans.contains_key(#[trigger] rhs[i]),
    ensures
        mergeable(spans, lhs, rhs),
    decreases lhs.len() + rhs.len(),
{
    if lhs.len() > 0 && rhs.len() > 0 {
        if not_after(spans, lhs[0], rhs[0]) {
            lemma_mergeable(spans, lhs.drop_first(), rhs);
        } else {
            lemma_mergeable(spans, lhs, rhs.drop_first());
        }
    }
}

/// A table of an index knows where its headers stand.
pub proof fn lemma_span_table(by_hid: Map<Hid, &RenderableHeader>, ix: IndexView)
    requires
        prelude::finds_headers(by_hid, ix.headers),
    ensures
        span_table(by_hid) == spans_of(ix),
{
    assert(span_table(by_hid) =~= spans_of(ix));
}

/// Whether `pos` picks places of a list of length `len`, in order.
pub open spec fn increasing_places(pos: Seq<int>, len: nat) -> bool {
    &&& forall|i: int| 0 <= i < pos.len() ==> 0 <= #[trigger] pos[i] < len
    &&& forall|i: int, j: int| 0 <= i < j < pos.len() ==> #[trigger] pos[i] < #[trigger] pos[j]
}

/// Whether `part` stands in `whole` at the places `pos`.
pub open spec fn stands_at(part: Seq<Hid>, whole: Seq<Hid>, pos: Seq<int>) -> bool {
    &&& pos.len() == part.len()
    &&& increasing_places(pos, whole.len())
    &&& forall|i: int| 0 <= i < pos.len() ==> whole[#[trigger] pos[i]] == part[i]
}

/// Whether `whole` is made of the lists `a` and `b` put together, each in its
/// own order: they stand at places that do not overlap and fill it.
pub open spec fn interleaves(whole: Seq<Hid>, a: Seq<Hid>, b: Seq<Hid>) -> bool {
    exists|pa: Seq<int>, pb: Seq<int>|
        {
            &&& #[trigger] stands_at(a, whole, pa)
            &&& #[trigger] stands_at(b, whole, pb)
            &&& whole.len() == a.len() + b.len()
            &&& forall|i: int, j: int|
                0 <= i < pa.len() && 0 <= j < pb.len() ==> #[trigger] pa[i] != #[trigger] pb[j]
        }
}

spec fn shifted(pos: Seq<int>) -> Seq<int> {
    pos.map_values(|p: int| p + 1)
}

proof fn lemma_stands_shifted(part: Seq<Hid>, whole: Seq<Hid>, pos: Seq<int>, x: Hid)
    requires
        stands_at(part, whole, pos),
    ensures
        stands_at(part, seq![x] + whole, shifted(pos)),
        stands_at(seq![x] + part, seq![x] + whole, seq![0int] + shifted(pos)),
{
    let s = shifted(pos);
    let w = seq![x] + whole;
    assert forall|i: int| 0 <= i < s.len() implies 0 <= #[trigger] s[i] < w.len() && w[s[i]]
        == part[i] by {
        assert(s[i] == pos[i] + 1);
        assert(w[pos[i] + 1] == whole[pos[i]]);
    }
    assert forall|i: int, j: int| 0 <= i < j < s.len() implies #[trigger] s[i] < #[trigger] s[j] by {
        assert(pos[i] < pos[j]);
    }
    let t = seq![0int] + s;
    let q = seq![x] + part;
    assert forall|i: int| 0 <= i < t.len() implies 0 <= #[trigger] t[i] < w.len() && w[t[i]]
        == q[i] by {
        if i > 0 {
            assert(t[i] == s[i - 1]);
            assert(q[i] == part[i - 1]);
        }
    }
    assert forall|i: int, j: int| 0 <= i < j < t.len() implies #[trigger] t[i] < #[trigger] t[j] by {
        assert(t[j] == s[j - 1]);
        assert(s[j - 1] == pos[j - 1] + 1);
        if i > 0 {
            assert(t[i] == s[i - 1]);
        }
    }
}

/// Merging neither loses nor adds headers, and keeps the order of both lists.
pub proof fn merge_preserves_lists(spans: Map<Hid, SpanView>, lhs: Seq<Hid>, rhs: Seq<Hid>)
    ensures
        interleaves(merged(spans, lhs, rhs), lhs, rhs),
    decreases lhs.len() + rhs.len(),
{
    let whole = merged(spans, lhs, rhs);
    if lhs.len() == 0 || rhs.len() == 0 {
        let pa = Seq::new(lhs.len(), |i: int| i);
        let pb = Seq::new(rhs.len(), |i: int| i);
        assert(stands_at(lhs, whole, pa));
        assert(stands_at(rhs, whole, pb));
    } else if not_after(spans, lhs[0], rhs[0]) {
        let rest = lhs.drop_first();
        merge_preserves_lists(spans, rest, rhs);
        let w = merged(spans, rest, rhs);
        let (pa, pb) = choose|pa: Seq<int>, pb: Seq<int>|
            {
                &&& #[trigger] stands_at(rest, w, pa)
                &&& #[trigger] stands_at(rhs, w, pb)
                &&& w.len() == rest.len() + rhs.len()
                &&& forall|i: int, j: int|
                    0 <= i < pa.len() && 0 <= j < pb.len() ==> #[trigger] pa[i] != #[trigger] pb[j]
            };
        lemma_stands_shifted(rest, w, pa, lhs[0]);
        lemma_stands_shifted(rhs, w, pb, lhs[0]);
        let qa = seq![0int] + shifted(pa);
        let qb = shifted(pb);
        assert(seq![lhs[0]] + rest =~= lhs);
        assert forall|i: int, j: int|
            0 <= i < qa.len() && 0 <= j < qb.len() implies #[trigger] qa[i] != #[trigger] qb[j] by {
            assert(qb[j] == pb[j] + 1);
            if i > 0 {
                assert(qa[i] == pa[i - 1] + 1);
            }
        }
        assert(stands_at(lhs, whole, qa));
        assert(stands_at(rhs, whole, qb));
    } else {
        let rest = rhs.drop_first();
        merge_preserves_lists(spans, lhs, rest);
        let w = merged(spans, lhs, rest);
        let (pa, pb) = choose|pa: Seq<int>, pb: Seq<int>|
            {
                &&& #[trigger] stands_at(lhs, w, pa)
                &&& #[trigger] stands_at(rest, w, pb)
                &&& w.len() == lhs.len() + rest.len()
                &&& forall|i: int, j: int|
                    0 <= i < pa.len() && 0 <= j < pb.len() ==> #[trigger] pa[i] != #[trigger] pb[j]
            };
        lemma_stands_shifted(lhs, w, pa, rhs[0]);
        lemma_stands_shifted(rest, w, pb, rhs[0]);
        let qa = shifted(pa);
        let qb = seq![0int] + shifted(pb);
        assert(seq![rhs[0]] + rest =~= rhs);
        assert forall|i: int, j: int|
            0 <= i < qa.len() && 0 <= j < qb.len() implies #[trigger] qa[i] != #[trigger] qb[j] by {
            assert(qa[i] == pa[i] + 1);
            if j > 0 {
                assert(qb[j] == pb[j - 1] + 1);
            }
        }
        assert(stands_at(lhs, whole, qa));
        assert(stands_at(rhs, whole, qb));
    }
}

/// Whether the headers of a list stand in order of position.
pub open spec fn in_position_order(spans: Map<Hid, SpanView>, s: Seq<Hid>) -> bool {
    forall|i: int, j: int| 0 <= i < j < s.len() ==> not_after(spans, #[trigger] s[i], #[trigger] s[j])
}

/// Merging two lists that are ordered by position gives a list that is.
pub proof fn merge_of_ordered_is_ordered(
    spans: Map<Hid, SpanView>,
    lhs: Seq<Hid>,
    rhs: Seq<Hid>,
)
    requires
        in_position_order(spans, lhs),
        in_position_order(spans, rhs),
    ensures
        in_position_order(spans, merged(spans, lhs, rhs)),
    decreases lhs.len() + rhs.len(),
{
    if lhs.len() > 0 && rhs.len() > 0 {
        let left = not_after(spans, lhs[0], rhs[0]);
        let (x, a, b) = if left {
            (lhs[0], lhs.drop_first(), rhs)
        } else {
            (rhs[0], lhs, rhs.drop_first())
        };
        merge_of_ordered_is_ordered(spans, a, b);
        let w = merged(spans, a, b);
        let whole = merged(spans, lhs, rhs);
        assert(whole =~= seq![x] + w);
        assert forall|i: int, j: int| 0 <= i < j < whole.len() implies not_after(
            spans,
            #[trigger] whole[i],
            #[trigger] whole[j],
        ) by {
            assert(whole[j] == w[j - 1]);
            if i > 0 {
                assert(whole[i] == w[i - 1]);
            } else {
                lemma_merged_member(spans, a, b, j - 1);
                let y = w[j - 1];
                span::lemma_position_order(spans[lhs[0]], spans[rhs[0]], spans[y]);
                span::lemma_position_order(spans[rhs[0]], spans[lhs[0]], spans[y]);
                if a.contains(y) {
                    let k = choose|k: int| 0 <= k < a.len() && a[k] == y;
                    if left {
                        assert(lhs[k + 1] == y);
                        assert(not_after(spans, lhs[0], lhs[k + 1]));
                    } else if k > 0 {
                        assert(not_after(spans, lhs[0], lhs[k]));
                    }
                } else {
                    let k = choose|k: int| 0 <= k < b.len() && b[k] == y;
                    if !left {
                        assert(rhs[k + 1] == y);
                        assert(not_after(spans, rhs[0], rhs[k + 1]));
                    } else if k > 0 {
                        assert(not_after(spans, rhs[0], rhs[k]));
                    }
                }
            }
        }
    }
}

/// Whether `whole` consists of `a` and `b`, each in its order, with a header of
/// `a` before a header of `b` if and only if it does not stand after it: of two at
/// the same place, the one of `a` comes first.
pub open spec fn interleaves_by_position(
    spans: Map<Hid, SpanView>,
    whole: Seq<Hid>,
    a: Seq<Hid>,
    b: Seq<Hid>,
) -> bool {
    exists|pa: Seq<int>, pb: Seq<int>|
        {
            &&& #[trigger] stands_at(a, whole, pa)
            &&& #[trigger] stands_at(b, whole, pb)
            &&& whole.len() == a.len() + b.len()
            &&& by_position(spans, a, b, pa, pb)
        }
}

/// Whether, of headers placed at `pa` and `pb`, one of `a` comes before one of `b`
/// if it does not stand after it, and behind it otherwise.
pub open spec fn by_position(
    spans: Map<Hid, SpanView>,
    a: Seq<Hid>,
    b: Seq<Hid>,
    pa: Seq<int>,
    pb: Seq<int>,
) -> bool {
    forall|i: int, j: int|
        0 <= i < a.len() && 0 <= j < b.len() ==> if not_after(
            spans,
            #[trigger] a[i],
            #[trigger] b[j],
        ) {
            pa[i] < pb[j]
        } else {
            pb[j] < pa[i]
        }
}

/// In the merge of two lists that are ordered by position, headers of the left
/// list come before those of the right one that do not stand before them: at the
/// same place the left list comes first.
pub proof fn merge_prefers_the_left_list(
    spans: Map<Hid, SpanView>,
    lhs: Seq<Hid>,
    rhs: Seq<Hid>,
)
    requires
        in_position_order(spans, lhs),
        in_position_order(spans, rhs),
    ensures
        interleaves_by_position(spans, merged(spans, lhs, rhs), lhs, rhs),
    decreases lhs.len() + rhs.len(),
{
    let whole = merged(spans, lhs, rhs);
    if lhs.len() == 0 || rhs.len() == 0 {
        let pa = Seq::new(lhs.len(), |i: int| i);
        let pb = Seq::new(rhs.len(), |i: int| i);
        assert(stands_at(lhs, whole, pa));
        assert(stands_at(rhs, whole, pb));
        assert(by_position(spans, lhs, rhs, pa, pb));
    } else if not_after(spans, lhs[0], rhs[0]) {
        let rest = lhs.drop_first();
        merge_prefers_the_left_list(spans, rest, rhs);
        let w = merged(spans, rest, rhs);
        let (pa, pb) = choose|pa: Seq<int>, pb: Seq<int>|
            {
                &&& #[trigger] stands_at(rest, w, pa)
                &&& #[trigger] stands_at(rhs, w, pb)
                &&& w.len() == rest.len() + rhs.len()
                &&& by_position(spans, rest, rhs, pa, pb)
            };
        lemma_stands_shifted(rest, w, pa, lhs[0]);
        lemma_stands_shifted(rhs, w, pb, lhs[0]);
        let qa = seq![0int] + shifted(pa);
        let qb = shifted(pb);
        assert(seq![lhs[0]] + rest =~= lhs);
        assert forall|i: int, j: int| 0 <= i < lhs.len() && 0 <= j < rhs.len() implies if not_after(
            spans,
            #[trigger] lhs[i],
            #[trigger] rhs[j],
        ) {
            qa[i] < qb[j]
        } else {
            qb[j] < qa[i]
        } by {
            assert(qb[j] == pb[j] + 1);
            if i > 0 {
                assert(qa[i] == pa[i - 1] + 1);
                assert(lhs[i] == rest[i - 1]);
            } else {
                assert(0 <= pb[j]);
                span::lemma_position_order(spans[lhs[0]], spans[rhs[0]], spans[rhs[j]]);
                if j > 0 {
                    assert(not_after(spans, rhs[0], rhs[j]));
                }
            }
        }
        assert(stands_at(lhs, whole, qa));
        assert(stands_at(rhs, whole, qb));
        assert(by_position(spans, lhs, rhs, qa, qb));
    } else {
        let rest = rhs.drop_first();
        merge_prefers_the_left_list(spans, lhs, rest);
        let w = merged(spans, lhs, rest);
        let (pa, pb) = choose|pa: Seq<int>, pb: Seq<int>|
            {
                &&& #[trigger] stands_at(lhs, w, pa)
                &&& #[trigger] stands_at(rest, w, pb)
                &&& w.len() == lhs.len() + rest.len()
                &&& by_position(spans, lhs, rest, pa, pb)
            };
        lemma_stands_shifted(lhs, w, pa, rhs[0]);
        lemma_stands_shifted(rest, w, pb, rhs[0]);
        let qa = shifted(pa);
        let qb = seq![0int] + shifted(pb);
        assert(seq![rhs[0]] + rest =~= rhs);
        assert forall|i: int, j: int| 0 <= i < lhs.len() && 0 <= j < rhs.len() implies if not_after(
            spans,
            #[trigger] lhs[i],
            #[trigger] rhs[j],
        ) {
            qa[i] < qb[j]
        } else {
            qb[j] < qa[i]
        } by {
            assert(qa[i] == pa[i] + 1);
            if j > 0 {
                assert(qb[j] == pb[j - 1] + 1);
                assert(rhs[j] == rest[j - 1]);
            } else {
                assert(0 <= pa[i]);
                span::lemma_position_order(spans[lhs[0]], spans[lhs[i]], spans[rhs[0]]);
                if i > 0 {
                    assert(not_after(spans, lhs[0], lhs[i]));
                }
            }
        }
        assert(stands_at(lhs, whole, qa));
        assert(stands_at(rhs, whole, qb));
        assert(by_position(spans, lhs, rhs, qa, qb));
    }
}

/// Whatever the order of the two lists, merging takes the head of the left list while
/// it does not stand after the head of the right one, and the head of the right list
/// otherwise: a header of one list comes before the first header of the other list
/// that comes after it.
pub proof fn merge_takes_the_earlier_head(
    spans: Map<Hid, SpanView>,
    lhs: Seq<Hid>,
    rhs: Seq<Hid>,
) -> (places: (Seq<int>, Seq<int>))
    ensures
        stands_at(lhs, merged(spans, lhs, rhs), places.0),
        stands_at(rhs, merged(spans, lhs, rhs), places.1),
        merged(spans, lhs, rhs).len() == lhs.len() + rhs.len(),
        forall|i: int, j: int|
            0 <= i < lhs.len() && 0 <= j < rhs.len() ==> #[trigger] places.0[i]
                != #[trigger] places.1[j],
        forall|i: int|
            0 <= i < lhs.len() ==> {
                let j = #[trigger] places.0[i] - i;
                &&& 0 <= j <= rhs.len()
                &&& j < rhs.len() ==> span::position_rel(spans[lhs[i]], spans[rhs[j]]) != Rel::After
            },
        forall|j: int|
            0 <= j < rhs.len() ==> {
                let i = #[trigger] places.1[j] - j;
                &&& 0 <= i <= lhs.len()
                &&& i < lhs.len() ==> span::position_rel(spans[lhs[i]], spans[rhs[j]]) == Rel::After
            },
    decreases lhs.len() + rhs.len(),
{
    let whole = merged(spans, lhs, rhs);
    if lhs.len() == 0 || rhs.len() == 0 {
        let pa = Seq::new(lhs.len(), |i: int| i);
        let pb = Seq::new(rhs.len(), |i: int| i);
        assert(stands_at(lhs, whole, pa));
        assert(stands_at(rhs, whole, pb));
        (pa, pb)
    } else if not_after(spans, lhs[0], rhs[0]) {
        let rest = lhs.drop_first();
        let (pa, pb) = merge_takes_the_earlier_head(spans, rest, rhs);
        let w = merged(spans, rest, rhs);
        lemma_stands_shifted(rest, w, pa, lhs[0]);
        lemma_stands_shifted(rhs, w, pb, lhs[0]);
        let qa = seq![0int] + shifted(pa);
        let qb = shifted(pb);
        assert(seq![lhs[0]] + rest =~= lhs);
        assert forall|j: int| 0 <= j < rhs.len() implies #[trigger] qb[j] == pb[j] + 1 by {}
        assert forall|i: int| 0 < i < lhs.len() implies #[trigger] qa[i] == pa[i - 1] + 1 by {}
        assert forall|i: int| 0 <= i < lhs.len() implies {
            let j = #[trigger] qa[i] - i;
            &&& 0 <= j <= rhs.len()
            &&& j < rhs.len() ==> span::position_rel(spans[lhs[i]], spans[rhs[j]]) != Rel::After
        } by {
            if i > 0 {
                assert(qa[i] == pa[i - 1] + 1);
                assert(rest[i - 1] == lhs[i]);
            }
        }
        assert forall|j: int| 0 <= j < rhs.len() implies {
            let i = #[trigger] qb[j] - j;
            &&& 0 <= i <= lhs.len()
            &&& i < lhs.len() ==> span::position_rel(spans[lhs[i]], spans[rhs[j]]) == Rel::After
        } by {
            let i = pb[j] - j;
            if i < rest.len() {
                assert(rest[i] == lhs[i + 1]);
            }
        }
        (qa, qb)
    } else {
        let rest = rhs.drop_first();
        let (pa, pb) = merge_takes_the_earlier_head(spans, lhs, rest);
        let w = merged(spans, lhs, rest);
        lemma_stands_shifted(lhs, w, pa, rhs[0]);
        lemma_stands_shifted(rest, w, pb, rhs[0]);
        let qa = shifted(pa);
        let qb = seq![0int] + shifted(pb);
        assert(seq![rhs[0]] + rest =~= rhs);
        assert forall|i: int| 0 <= i < lhs.len() implies #[trigger] qa[i] == pa[i] + 1 by {}
        assert forall|j: int| 0 < j < rhs.len() implies #[trigger] qb[j] == pb[j - 1] + 1 by {}
        assert forall|i: int| 0 <= i < lhs.len() implies {
            let j = #[trigger] qa[i] - i;
            &&& 0 <= j <= rhs.len()
            &&& j < rhs.len() ==> span::position_rel(spans[lhs[i]], spans[rhs[j]]) != Rel::After
        } by {
            let j = pa[i] - i;
            if j < rest.len() {
                assert(rest[j] == rhs[j + 1]);
            }
        }
        assert forall|j: int| 0 <= j < rhs.len() implies {
            let i = #[trigger] qb[j] - j;
            &&& 0 <= i <= lhs.len()
            &&& i < lhs.len() ==> span::position_rel(spans[lhs[i]], spans[rhs[j]]) == Rel::After
        } by {
            if j > 0 {
                assert(qb[j] == pb[j - 1] + 1);
                assert(rest[j - 1] == rhs[j]);
            }
        }
        (qa, qb)
    }
}

/// The headers that are merged stand where their last headers of that number do.
pub proof fn headers_stand_where_they_are_found(ix: IndexView, i: int)
    requires
        0 <= i < ix.headers.len(),
        forall|j: int|
            i < j < ix.headers.len() ==> (#[trigger] ix.headers[j]).hid != ix.headers[i].hid,
    ensures
        spans_of(ix).contains_key(ix.headers[i].hid),
        spans_of(ix)[ix.headers[i].hid] == ix.headers[i].span,
{
    lemma_found_last(ix.headers, i);
}

proof fn lemma_found_last(headers: Seq<HeaderView>, i: int)
    requires
        0 <= i < headers.len(),
        forall|j: int| i < j < headers.len() ==> (#[trigger] headers[j]).hid != headers[i].hid,
    ensures
        index::last_with_hid(headers, headers[i].hid) == Some(headers[i]),
    decreases headers.len(),
{
    if i < headers.len() - 1 {
        let rest = headers.drop_last();
        assert(headers[headers.len() - 1].hid != headers[i].hid);
        assert forall|j: int| i < j < rest.len() implies (#[trigger] rest[j]).hid
            != rest[i].hid by {
            assert(headers[j].hid != headers[i].hid);
        }
        lemma_found_last(rest, i);
    }
}

/// What stands in a merged list stands in one of the two lists.
pub proof fn lemma_merged_member(
    spans: Map<Hid, SpanView>,
    lhs: Seq<Hid>,
    rhs: Seq<Hid>,
    i: int,
)
    requires
        0 <= i < merged(spans, lhs, rhs).len(),
    ensures
        lhs.contains(merged(spans, lhs, rhs)[i]) || rhs.contains(merged(spans, lhs, rhs)[i]),
    decreases lhs.len() + rhs.len(),
{
    let w = merged(spans, lhs, rhs);
    if lhs.len() == 0 {
        assert(rhs[i] == w[i]);
    } else if rhs.len() == 0 {
        assert(lhs[i] == w[i]);
    } else if not_after(spans, lhs[0], rhs[0]) {
        if i == 0 {
            assert(lhs[0] == w[0]);
        } else {
            let rest = lhs.drop_first();
            lemma_merged_member(spans, rest, rhs, i - 1);
            if rest.contains(w[i]) {
                let k = choose|k: int| 0 <= k < rest.len() && rest[k] == w[i];
                assert(lhs[k + 1] == w[i]);
            }
        }
    } else {
        if i == 0 {
            assert(rhs[0] == w[0]);
        } else {
            let rest = rhs.drop_first();
            lemma_merged_member(spans, lhs, rest, i - 1);
            if rest.contains(w[i]) {
                let k = choose|k: int| 0 <= k < rest.len() && rest[k] == w[i];
                assert(rhs[k + 1] == w[i]);
            }
        }
    }
}

/// What stands in one of two lists stands in their merge.
pub proof fn lemma_merged_keeps(spans: Map<Hid, SpanView>, lhs: Seq<Hid>, rhs: Seq<Hid>)
    ensures
        forall|i: int| 0 <= i < lhs.len() ==> merged(spans, lhs, rhs).contains(#[trigger] lhs[i]),
        forall|i: int| 0 <= i < rhs.len() ==> merged(spans, lhs, rhs).contains(#[trigger] rhs[i]),
        merged(spans, lhs, rhs).len() == lhs.len() + rhs.len(),
{
    let w = merged(spans, lhs, rhs);
    merge_preserves_lists(spans, lhs, rhs);
    let (pa, pb) = choose|pa: Seq<int>, pb: Seq<int>|
        #[trigger] stands_at(lhs, w, pa) && #[trigger] stands_at(rhs, w, pb);
    assert forall|i: int| 0 <= i < lhs.len() implies w.contains(#[trigger] lhs[i]) by {
        assert(w[pa[i]] == lhs[i]);
    }
    assert forall|i: int| 0 <= i < rhs.len() implies w.contains(#[trigger] rhs[i]) by {
        assert(w[pb[i]] == rhs[i]);
    }
}

} // verus!
