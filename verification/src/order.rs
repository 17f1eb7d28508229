//! Three-way comparison and its lexicographic extension to sequences.
use vstd::prelude::*;

verus! {

/// How one value stands to another in an order.
#[derive(Debug, Clone, Copy, PartialEq, Eq, Structural)]
pub enum Rel {
    Before,
    Same,
    After,
}

/// The numerical order.
pub open spec fn int_rel(a: int, b: int) -> Rel {
    if a < b {
        Rel::Before
    } else if a == b {
        Rel::Same
    } else {
        Rel::After
    }
}

/// `first` decides unless it finds the two values the same; then `second` does.
pub open spec fn or_else(first: Rel, second: Rel) -> Rel {
    if first == Rel::Same {
        second
    } else {
        first
    }
}

/// The lexicographic order of sequences: the first position at which the two
/// differ decides, and a proper prefix comes before what extends it.
pub open spec fn lex_rel<T>(a: Seq<T>, b: Seq<T>, rel: spec_fn(T, T) -> Rel) -> Rel
    decreases a.len(),
{
    if a.len() == 0 {
        if b.len() == 0 {
            Rel::Same
        } else {
            Rel::Before
        }
    } else if b.len() == 0 {
        Rel::After
    } else {
        or_else(rel(a[0], b[0]), lex_rel(a.drop_first(), b.drop_first(), rel))
    }
}

/// The order of byte strings.
pub open spec fn bytes_rel(a: Seq<u8>, b: Seq<u8>) -> Rel {
    lex_rel(a, b, |x: u8, y: u8| int_rel(x as int, y as int))
}

/// `rel` orders its values totally: the same values are those that compare the
/// same, exchanging the sides exchanges the verdict, and the order chains.
pub open spec fn total_order<T>(rel: spec_fn(T, T) -> Rel) -> bool {
    &&& forall|x: T, y: T| #[trigger] rel(x, y) == Rel::Same <==> x == y
    &&& forall|x: T, y: T| #[trigger] rel(x, y) == Rel::Before <==> rel(y, x) == Rel::After
    &&& forall|x: T, y: T, z: T| #[trigger]
        rel(x, y) == Rel::Before && #[trigger] rel(y, z) == Rel::Before ==> rel(x, z)
            == Rel::Before
}

proof fn lemma_lex_same<T>(a: Seq<T>, b: Seq<T>, rel: spec_fn(T, T) -> Rel)
    requires
        total_order(rel),
    ensures
        lex_rel(a, b, rel) == Rel::Same <==> a == b,
        lex_rel(a, b, rel) == Rel::Before <==> lex_rel(b, a, rel) == Rel::After,
    decreases a.len(),
{
    if a.len() == 0 || b.len() == 0 {
        assert(a.len() == 0 && b.len() == 0 ==> a =~= b);
    } else {
        lemma_lex_same(a.drop_first(), b.drop_first(), rel);
        assert(rel(a[0], b[0]) == Rel::Before <==> rel(b[0], a[0]) == Rel::After);
        assert(rel(b[0], a[0]) == Rel::Before <==> rel(a[0], b[0]) == Rel::After);
        assert(rel(a[0], b[0]) == Rel::Same <==> a[0] == b[0]);
        assert(rel(b[0], a[0]) == Rel::Same <==> a[0] == b[0]);
        if a[0] == b[0] && a.drop_first() == b.drop_first() {
            assert(a =~= seq![a[0]] + a.drop_first());
            assert(b =~= seq![b[0]] + b.drop_first());
        }
    }
}

proof fn lemma_lex_chain<T>(a: Seq<T>, b: Seq<T>, c: Seq<T>, rel: spec_fn(T, T) -> Rel)
    requires
        total_order(rel),
        lex_rel(a, b, rel) == Rel::Before,
        lex_rel(b, c, rel) == Rel::Before,
    ensures
        lex_rel(a, c, rel) == Rel::Before,
    decreases a.len(),
{
    if a.len() > 0 {
        assert(b.len() > 0 && c.len() > 0);
        assert(rel(a[0], b[0]) == Rel::Same <==> a[0] == b[0]);
        assert(rel(b[0], c[0]) == Rel::Same <==> b[0] == c[0]);
        if a[0] == b[0] && b[0] == c[0] {
            lemma_lex_chain(a.drop_first(), b.drop_first(), c.drop_first(), rel);
        }
    }
}

/// The lexicographic extension of a total order is a total order of sequences.
pub proof fn lex_is_total_order<T>(rel: spec_fn(T, T) -> Rel)
    requires
        total_order(rel),
    ensures
        total_order(|a: Seq<T>, b: Seq<T>| lex_rel(a, b, rel)),
{
    let lex = |a: Seq<T>, b: Seq<T>| lex_rel(a, b, rel);
    assert forall|a: Seq<T>, b: Seq<T>| #[trigger] lex(a, b) == Rel::Same <==> a == b by {
        lemma_lex_same(a, b, rel);
    }
    assert forall|a: Seq<T>, b: Seq<T>| #[trigger]
        lex(a, b) == Rel::Before <==> lex(b, a) == Rel::After by {
        lemma_lex_same(a, b, rel);
    }
    assert forall|a: Seq<T>, b: Seq<T>, c: Seq<T>| #[trigger]
        lex(a, b) == Rel::Before && #[trigger] lex(b, c) == Rel::Before implies lex(a, c)
        == Rel::Before by {
        lemma_lex_chain(a, b, c, rel);
    }
}

/// Sequences that agree up to a place are ordered by what they hold there; where one
/// of them ends there, the shorter one comes first.
pub proof fn sequences_compare_at_the_first_difference<T>(
    a: Seq<T>,
    b: Seq<T>,
    rel: spec_fn(T, T) -> Rel,
    k: int,
)
    requires
        forall|x: T| #[trigger] rel(x, x) == Rel::Same,
        0 <= k <= a.len(),
        k <= b.len(),
        forall|i: int| 0 <= i < k ==> #[trigger] a[i] == b[i],
    ensures
        k == a.len() && k == b.len() ==> lex_rel(a, b, rel) == Rel::Same,
        k == a.len() && k < b.len() ==> lex_rel(a, b, rel) == Rel::Before,
        k < a.len() && k == b.len() ==> lex_rel(a, b, rel) == Rel::After,
        k < a.len() && k < b.len() && rel(a[k], b[k]) != Rel::Same ==> lex_rel(a, b, rel) == rel(
            a[k],
            b[k],
        ),
    decreases k,
{
    if k > 0 {
        assert(a[0] == b[0]);
        assert(rel(a[0], a[0]) == Rel::Same);
        let (x, y) = (a.drop_first(), b.drop_first());
        assert forall|i: int| 0 <= i < k - 1 implies #[trigger] x[i] == y[i] by {
            assert(a[i + 1] == b[i + 1]);
        }
        sequences_compare_at_the_first_difference(x, y, rel, k - 1);
    }
}

/// Byte strings that agree up to a place are ordered by the bytes there; where one of
/// them ends there, the shorter one comes first.
pub proof fn bytes_compare_at_the_first_difference(a: Seq<u8>, b: Seq<u8>, k: int)
    requires
        0 <= k <= a.len(),
        k <= b.len(),
        forall|i: int| 0 <= i < k ==> #[trigger] a[i] == b[i],
    ensures
        k == a.len() && k == b.len() ==> bytes_rel(a, b) == Rel::Same,
        k == a.len() && k < b.len() ==> bytes_rel(a, b) == Rel::Before,
        k < a.len() && k == b.len() ==> bytes_rel(a, b) == Rel::After,
        k < a.len() && k < b.len() && a[k] < b[k] ==> bytes_rel(a, b) == Rel::Before,
        k < a.len() && k < b.len() && a[k] > b[k] ==> bytes_rel(a, b) == Rel::After,
{
    let rel = |x: u8, y: u8| int_rel(x as int, y as int);
    sequences_compare_at_the_first_difference(a, b, rel, k);
}

/// Compares two numbers.
pub fn compare_usize(a: usize, b: usize) -> (r: Rel)
    ensures
        r == int_rel(a as int, b as int),
{
    if a < b {
        Rel::Before
    } else if a == b {
        Rel::Same
    } else {
        Rel::After
    }
}

/// Compares two byte strings.
pub fn compare_bytes(a: &[u8], b: &[u8]) -> (r: Rel)
    ensures
        r == bytes_rel(a@, b@),
{
    let ghost rel = |x: u8, y: u8| int_rel(x as int, y as int);
    let mut i: usize = 0;
    assert(a@.skip(0) =~= a@);
    assert(b@.skip(0) =~= b@);
    while i < a.len() && i < b.len()
        invariant
            i <= a@.len(),
            i <= b@.len(),
            rel == (|x: u8, y: u8| int_rel(x as int, y as int)),
            lex_rel(a@, b@, rel) == lex_rel(a@.skip(i as int), b@.skip(i as int), rel),
        decreases a@.len() - i,
    {
        assert(a@.skip(i as int).drop_first() =~= a@.skip(i + 1));
        assert(b@.skip(i as int).drop_first() =~= b@.skip(i + 1));
        if a[i] < b[i] {
            return Rel::Before;
        }
        if a[i] > b[i] {
            return Rel::After;
        }
        i = i + 1;
    }
    compare_usize(a.len(), b.len())
}

} // verus!
