//! Source positions: the path of a file and a range within it.
use vstd::prelude::*;
use vstd::utf8;
use crate::order;
use crate::order::{Rel, compare_bytes, compare_usize};

verus! {

/// The prefix of a path that names a drive or a share. `kind` numbers the kinds
/// of prefix in their order; `first` and `second` are the parts that follow it,
/// and are empty where the kind has no such part.
#[derive(Debug)]
pub struct PathPrefix {
    pub kind: u8,
    pub first: Vec<u8>,
    pub second: Vec<u8>,
}

/// One component of a path.
#[derive(Debug)]
pub enum PathComponent {
    Prefix(PathPrefix),
    RootDir,
    CurDir,
    ParentDir,
    Normal(Vec<u8>),
}

/// What a path component is ordered by: its kind first, then its parts.
pub struct ComponentKey {
    pub kind: nat,
    pub first: Seq<u8>,
    pub second: Seq<u8>,
}

impl PathComponent {
    /// Prefixes come first, then the root, `.`, `..` and the named components.
    pub open spec fn view(&self) -> ComponentKey {
        match *self {
            PathComponent::Prefix(p) => ComponentKey {
                kind: p.kind as nat,
                first: p.first@,
                second: p.second@,
            },
            PathComponent::RootDir => ComponentKey {
                kind: 256,
                first: seq![],
                second: seq![],
            },
            PathComponent::CurDir => ComponentKey { kind: 257, first: seq![], second: seq![] },
            PathComponent::ParentDir => ComponentKey { kind: 258, first: seq![], second: seq![] },
            PathComponent::Normal(name) => ComponentKey {
                kind: 259,
                first: name@,
                second: seq![],
            },
        }
    }
}

/// The order of path components.
pub open spec fn component_rel(a: ComponentKey, b: ComponentKey) -> Rel {
    order::or_else(
        order::int_rel(a.kind as int, b.kind as int),
        order::or_else(order::bytes_rel(a.first, b.first), order::bytes_rel(a.second, b.second)),
    )
}

/// The path of a source file: as displayable text, and split into components.
#[derive(Debug)]
pub struct SourcePath {
    pub text: String,
    pub components: Vec<PathComponent>,
}

pub struct PathView {
    pub text: Seq<char>,
    pub components: Seq<ComponentKey>,
}

impl SourcePath {
    pub open spec fn view(&self) -> PathView {
        PathView {
            text: self.text@,
            components: self.components@.map_values(|c: PathComponent| c@),
        }
    }
}

/// The order of paths: component by component.
pub open spec fn path_rel(a: PathView, b: PathView) -> Rel {
    order::lex_rel(a.components, b.components, |x: ComponentKey, y: ComponentKey| component_rel(x, y))
}

/// The order of texts: byte by byte.
pub open spec fn text_rel(a: Seq<char>, b: Seq<char>) -> Rel {
    order::bytes_rel(utf8::encode_utf8(a), utf8::encode_utf8(b))
}

/// A range of a source file.
#[derive(Debug)]
pub struct Span {
    pub file: SourcePath,
    pub start: usize,
    pub end: usize,
}

pub struct SpanView {
    pub file: PathView,
    pub start: usize,
    pub end: usize,
}

impl Span {
    pub open spec fn view(&self) -> SpanView {
        SpanView { file: self.file@, start: self.start, end: self.end }
    }
}

/// The order of positions: by path, then by where the range starts.
pub open spec fn position_rel(a: SpanView, b: SpanView) -> Rel {
    order::or_else(path_rel(a.file, b.file), order::int_rel(a.start as int, b.start as int))
}

/// The order of whole ranges: by the text of the path, then by start and end.
pub open spec fn range_rel(a: SpanView, b: SpanView) -> Rel {
    order::or_else(
        text_rel(a.file.text, b.file.text),
        order::or_else(
            order::int_rel(a.start as int, b.start as int),
            order::int_rel(a.end as int, b.end as int),
        ),
    )
}

proof fn lemma_bytes_total()
    ensures
        order::total_order(|a: Seq<u8>, b: Seq<u8>| order::bytes_rel(a, b)),
{
    let rel = |x: u8, y: u8| order::int_rel(x as int, y as int);
    assert(order::total_order(rel));
    order::lex_is_total_order(rel);
    assert((|a: Seq<u8>, b: Seq<u8>| order::bytes_rel(a, b)) =~= (|a: Seq<u8>, b: Seq<u8>|
        order::lex_rel(a, b, rel)));
}

/// Paths are totally ordered by their components.
pub proof fn path_components_total_order()
    ensures
        order::total_order(
            |a: Seq<ComponentKey>, b: Seq<ComponentKey>|
                order::lex_rel(
                    a,
                    b,
                    |x: ComponentKey, y: ComponentKey| component_rel(x, y),
                ),
        ),
{
    let rel = |x: ComponentKey, y: ComponentKey| component_rel(x, y);
    let bytes = |a: Seq<u8>, b: Seq<u8>| order::bytes_rel(a, b);
    lemma_bytes_total();
    assert forall|x: ComponentKey, y: ComponentKey| #[trigger]
        rel(x, y) == Rel::Same <==> x == y by {
        assert(bytes(x.first, y.first) == Rel::Same <==> x.first == y.first);
        assert(bytes(x.second, y.second) == Rel::Same <==> x.second == y.second);
    }
    assert forall|x: ComponentKey, y: ComponentKey| #[trigger]
        rel(x, y) == Rel::Before <==> rel(y, x) == Rel::After by {
        assert(bytes(x.first, y.first) == Rel::Same <==> x.first == y.first);
        assert(bytes(y.first, x.first) == Rel::Same <==> x.first == y.first);
        assert(bytes(x.first, y.first) == Rel::Before <==> bytes(y.first, x.first) == Rel::After);
        assert(bytes(y.first, x.first) == Rel::Before <==> bytes(x.first, y.first) == Rel::After);
        assert(bytes(x.second, y.second) == Rel::Before <==> bytes(y.second, x.second)
            == Rel::After);
    }
    assert forall|x: ComponentKey, y: ComponentKey, z: ComponentKey| #[trigger]
        rel(x, y) == Rel::Before && #[trigger] rel(y, z) == Rel::Before implies rel(x, z)
        == Rel::Before by {
        assert(bytes(x.first, y.first) == Rel::Same <==> x.first == y.first);
        assert(bytes(y.first, z.first) == Rel::Same <==> y.first == z.first);
        assert(bytes(x.first, y.first) == Rel::Before && bytes(y.first, z.first) == Rel::Before
            ==> bytes(x.first, z.first) == Rel::Before);
        assert(bytes(x.second, y.second) == Rel::Before && bytes(y.second, z.second)
            == Rel::Before ==> bytes(x.second, z.second) == Rel::Before);
    }
    order::lex_is_total_order(rel);
}

/// Of two positions one is not after the other, and the order of positions
/// chains.
pub proof fn lemma_position_order(a: SpanView, b: SpanView, c: SpanView)
    ensures
        position_rel(a, b) == Rel::After ==> position_rel(b, a) == Rel::Before,
        position_rel(a, a) == Rel::Same,
        position_rel(a, b) != Rel::After && position_rel(b, c) != Rel::After ==> position_rel(a, c)
            != Rel::After,
{
    path_components_total_order();
    let rel = |x: ComponentKey, y: ComponentKey| component_rel(x, y);
    let lex = |p: Seq<ComponentKey>, q: Seq<ComponentKey>| order::lex_rel(p, q, rel);
    let (p, q, r) = (a.file.components, b.file.components, c.file.components);
    assert(lex(p, q) == path_rel(a.file, b.file));
    assert(lex(q, p) == path_rel(b.file, a.file));
    assert(lex(q, r) == path_rel(b.file, c.file));
    assert(lex(p, r) == path_rel(a.file, c.file));
    assert(lex(p, p) == path_rel(a.file, a.file));
    assert(lex(q, p) == Rel::Before <==> lex(p, q) == Rel::After);
    assert(lex(p, q) == Rel::Before && lex(q, r) == Rel::Before ==> lex(p, r) == Rel::Before);
}

/// The order of ranges is reflexive and chains, and of two ranges one is not
/// after the other.
pub proof fn lemma_range_order(a: SpanView, b: SpanView, c: SpanView)
    ensures
        range_rel(a, b) == Rel::After <==> range_rel(b, a) == Rel::Before,
        range_rel(a, a) == Rel::Same,
        range_rel(a, b) != Rel::After && range_rel(b, c) != Rel::After ==> range_rel(a, c)
            != Rel::After,
        range_rel(a, b) != Rel::After && range_rel(b, c) == Rel::Before ==> range_rel(a, c)
            == Rel::Before,
{
    lemma_bytes_total();
    let bytes = |x: Seq<u8>, y: Seq<u8>| order::bytes_rel(x, y);
    let p = utf8::encode_utf8(a.file.text);
    let q = utf8::encode_utf8(b.file.text);
    let r = utf8::encode_utf8(c.file.text);
    assert(bytes(p, q) == text_rel(a.file.text, b.file.text));
    assert(bytes(q, p) == text_rel(b.file.text, a.file.text));
    assert(bytes(q, r) == text_rel(b.file.text, c.file.text));
    assert(bytes(p, r) == text_rel(a.file.text, c.file.text));
    assert(bytes(p, p) == text_rel(a.file.text, a.file.text));
    assert(bytes(q, p) == Rel::Before <==> bytes(p, q) == Rel::After);
    assert(bytes(p, q) == Rel::Before && bytes(q, r) == Rel::Before ==> bytes(p, r) == Rel::Before);
}

/// Components of different kinds are ordered by kind: a prefix, the root, `.`, `..`,
/// and last a name. Names are ordered byte by byte; prefixes by their kind, then by
/// their first and by their second part.
pub proof fn components_come_by_kind(a: PathComponent, b: PathComponent)
    ensures
        match (a, b) {
            (PathComponent::Prefix(p), PathComponent::Prefix(q)) => {
                &&& p.kind < q.kind ==> component_rel(a@, b@) == Rel::Before
                &&& p.kind > q.kind ==> component_rel(a@, b@) == Rel::After
                &&& p.kind == q.kind && p.first@ != q.first@ ==> component_rel(a@, b@)
                    == order::bytes_rel(p.first@, q.first@)
                &&& p.kind == q.kind && p.first@ == q.first@ ==> component_rel(a@, b@)
                    == order::bytes_rel(p.second@, q.second@)
            },
            (PathComponent::Prefix(_), _) => component_rel(a@, b@) == Rel::Before,
            (_, PathComponent::Prefix(_)) => component_rel(a@, b@) == Rel::After,
            (PathComponent::RootDir, PathComponent::RootDir) => component_rel(a@, b@) == Rel::Same,
            (PathComponent::RootDir, _) => component_rel(a@, b@) == Rel::Before,
            (_, PathComponent::RootDir) => component_rel(a@, b@) == Rel::After,
            (PathComponent::CurDir, PathComponent::CurDir) => component_rel(a@, b@) == Rel::Same,
            (PathComponent::CurDir, _) => component_rel(a@, b@) == Rel::Before,
            (_, PathComponent::CurDir) => component_rel(a@, b@) == Rel::After,
            (PathComponent::ParentDir, PathComponent::ParentDir) => component_rel(a@, b@)
                == Rel::Same,
            (PathComponent::ParentDir, _) => component_rel(a@, b@) == Rel::Before,
            (_, PathComponent::ParentDir) => component_rel(a@, b@) == Rel::After,
            (PathComponent::Normal(x), PathComponent::Normal(y)) => component_rel(a@, b@)
                == order::bytes_rel(x@, y@),
        },
{
    lemma_bytes_total();
    let bytes = |x: Seq<u8>, y: Seq<u8>| order::bytes_rel(x, y);
    assert(bytes(a@.first, b@.first) == Rel::Same <==> a@.first == b@.first);
    assert(bytes(a@.second, b@.second) == Rel::Same <==> a@.second == b@.second);
}

/// Paths whose components agree up to a place are ordered by the components there;
/// where one of them ends there, the shorter one comes first.
pub proof fn paths_compare_at_the_first_difference(a: PathView, b: PathView, k: int)
    requires
        0 <= k <= a.components.len(),
        k <= b.components.len(),
        forall|i: int| 0 <= i < k ==> #[trigger] a.components[i] == b.components[i],
    ensures
        k == a.components.len() && k == b.components.len() ==> path_rel(a, b) == Rel::Same,
        k == a.components.len() && k < b.components.len() ==> path_rel(a, b) == Rel::Before,
        k < a.components.len() && k == b.components.len() ==> path_rel(a, b) == Rel::After,
        k < a.components.len() && k < b.components.len() && a.components[k] != b.components[k]
            ==> path_rel(a, b) == component_rel(a.components[k], b.components[k]),
{
    let rel = |x: ComponentKey, y: ComponentKey| component_rel(x, y);
    let bytes = |x: Seq<u8>, y: Seq<u8>| order::bytes_rel(x, y);
    lemma_bytes_total();
    assert forall|x: ComponentKey| #[trigger] rel(x, x) == Rel::Same by {
        assert(bytes(x.first, x.first) == Rel::Same);
        assert(bytes(x.second, x.second) == Rel::Same);
    }
    order::sequences_compare_at_the_first_difference(a.components, b.components, rel, k);
    if k < a.components.len() && k < b.components.len() {
        let (x, y) = (a.components[k], b.components[k]);
        assert(bytes(x.first, y.first) == Rel::Same <==> x.first == y.first);
        assert(bytes(x.second, y.second) == Rel::Same <==> x.second == y.second);
    }
}

/// A position in an earlier file is earlier; in the same file the one with the smaller
/// start is, wherever the ranges end.
pub proof fn positions_come_by_file_and_start(a: SpanView, b: SpanView)
    ensures
        path_rel(a.file, b.file) == Rel::Before ==> position_rel(a, b) == Rel::Before,
        path_rel(a.file, b.file) == Rel::After ==> position_rel(a, b) == Rel::After,
        a.file.components == b.file.components && a.start < b.start ==> position_rel(a, b)
            == Rel::Before,
        a.file.components == b.file.components && a.start == b.start ==> position_rel(a, b)
            == Rel::Same,
        a.file.components == b.file.components && a.start > b.start ==> position_rel(a, b)
            == Rel::After,
{
    if a.file.components == b.file.components {
        paths_compare_at_the_first_difference(a.file, b.file, a.file.components.len() as int);
    }
}

/// A range of a file whose name comes earlier, byte by byte, is earlier; of the same
/// name the one that starts first is, and of the same start the one that ends first.
pub proof fn ranges_come_by_name_start_and_end(a: SpanView, b: SpanView)
    ensures
        order::bytes_rel(utf8::encode_utf8(a.file.text), utf8::encode_utf8(b.file.text))
            == Rel::Before ==> range_rel(a, b) == Rel::Before,
        order::bytes_rel(utf8::encode_utf8(a.file.text), utf8::encode_utf8(b.file.text))
            == Rel::After ==> range_rel(a, b) == Rel::After,
        a.file.text == b.file.text && a.start < b.start ==> range_rel(a, b) == Rel::Before,
        a.file.text == b.file.text && a.start > b.start ==> range_rel(a, b) == Rel::After,
        a.file.text == b.file.text && a.start == b.start && a.end < b.end ==> range_rel(a, b)
            == Rel::Before,
        a.file.text == b.file.text && a.start == b.start && a.end > b.end ==> range_rel(a, b)
            == Rel::After,
        a.file.text == b.file.text && a.start == b.start && a.end == b.end ==> range_rel(a, b)
            == Rel::Same,
{
    if a.file.text == b.file.text {
        let bytes = utf8::encode_utf8(a.file.text);
        order::bytes_compare_at_the_first_difference(bytes, bytes, bytes.len() as int);
    }
}

/// Compares two path components.
pub fn compare_components(a: &PathComponent, b: &PathComponent) -> (r: Rel)
    ensures
        r == component_rel(a@, b@),
{
    let (ka, kb) = (component_kind(a), component_kind(b));
    if ka != kb {
        if ka < kb {
            return Rel::Before;
        }
        return Rel::After;
    }
    proof {
        assert(order::bytes_rel(Seq::<u8>::empty(), Seq::<u8>::empty()) == Rel::Same);
        assert(Seq::<u8>::empty() =~= seq![]);
    }
    match (a, b) {
        (PathComponent::Prefix(p), PathComponent::Prefix(q)) => {
            let r = compare_bytes(p.first.as_slice(), q.first.as_slice());
            if r != Rel::Same {
                return r;
            }
            compare_bytes(p.second.as_slice(), q.second.as_slice())
        },
        (PathComponent::Normal(p), PathComponent::Normal(q)) => {
            compare_bytes(p.as_slice(), q.as_slice())
        },
        _ => Rel::Same,
    }
}

fn component_kind(c: &PathComponent) -> (k: u16)
    ensures
        k == c@.kind,
{
    match c {
        PathComponent::Prefix(p) => p.kind as u16,
        PathComponent::RootDir => 256,
        PathComponent::CurDir => 257,
        PathComponent::ParentDir => 258,
        PathComponent::Normal(_) => 259,
    }
}

/// Compares two paths component by component.
pub fn compare_paths(a: &SourcePath, b: &SourcePath) -> (r: Rel)
    ensures
        r == path_rel(a@, b@),
{
    let ghost rel = |x: ComponentKey, y: ComponentKey| component_rel(x, y);
    let ghost va = a@.components;
    let ghost vb = b@.components;
    let mut i: usize = 0;
    assert(va.skip(0) =~= va);
    assert(vb.skip(0) =~= vb);
    while i < a.components.len() && i < b.components.len()
        invariant
            va == a@.components,
            vb == b@.components,
            i <= va.len(),
            i <= vb.len(),
            rel == (|x: ComponentKey, y: ComponentKey| component_rel(x, y)),
            order::lex_rel(va, vb, rel) == order::lex_rel(va.skip(i as int), vb.skip(i as int), rel),
        decreases va.len() - i,
    {
        assert(va.skip(i as int).drop_first() =~= va.skip(i + 1));
        assert(vb.skip(i as int).drop_first() =~= vb.skip(i + 1));
        let r = compare_components(&a.components[i], &b.components[i]);
        assert(r == rel(va[i as int], vb[i as int]));
        if r != Rel::Same {
            return r;
        }
        i = i + 1;
    }
    compare_usize(a.components.len(), b.components.len())
}

/// Compares two positions: by path, then by start.
pub fn compare_positions(a: (&SourcePath, usize), b: (&SourcePath, usize)) -> (r: Rel)
    ensures
        r == order::or_else(path_rel(a.0@, b.0@), order::int_rel(a.1 as int, b.1 as int)),
{
    let r = compare_paths(a.0, b.0);
    if r != Rel::Same {
        return r;
    }
    compare_usize(a.1, b.1)
}

/// Compares two ranges: by the text of the path, then by start and end.
pub fn compare_ranges(a: &Span, b: &Span) -> (r: Rel)
    ensures
        r == range_rel(a@, b@),
{
    let r = compare_bytes(a.file.text.as_str().as_bytes(), b.file.text.as_str().as_bytes());
    if r != Rel::Same {
        return r;
    }
    let r = compare_usize(a.start, b.start);
    if r != Rel::Same {
        return r;
    }
    compare_usize(a.end, b.end)
}

} // verus!
