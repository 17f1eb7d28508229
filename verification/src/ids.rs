//! Identifiers of graph nodes and clusters, and their textual form.
use vstd::prelude::*;

verus! {

/// The character of a decimal digit.
pub open spec fn digit_char(d: nat) -> char {
    if d == 0 {
        '0'
    } else if d == 1 {
        '1'
    } else if d == 2 {
        '2'
    } else if d == 3 {
        '3'
    } else if d == 4 {
        '4'
    } else if d == 5 {
        '5'
    } else if d == 6 {
        '6'
    } else if d == 7 {
        '7'
    } else if d == 8 {
        '8'
    } else {
        '9'
    }
}

/// The decimal numeral of `n`, without leading zeros.
pub open spec fn decimal(n: nat) -> Seq<char>
    decreases n,
{
    if n < 10 {
        seq![digit_char(n)]
    } else {
        decimal(n / 10).push(digit_char(n % 10))
    }
}

fn digit_text(d: u32) -> (s: &'static str)
    requires
        d < 10,
    ensures
        s@ == seq![digit_char(d as nat)],
{
    proof {
        reveal_strlit("0");
        reveal_strlit("1");
        reveal_strlit("2");
        reveal_strlit("3");
        reveal_strlit("4");
        reveal_strlit("5");
        reveal_strlit("6");
        reveal_strlit("7");
        reveal_strlit("8");
        reveal_strlit("9");
    }
    if d == 0 {
        "0"
    } else if d == 1 {
        "1"
    } else if d == 2 {
        "2"
    } else if d == 3 {
        "3"
    } else if d == 4 {
        "4"
    } else if d == 5 {
        "5"
    } else if d == 6 {
        "6"
    } else if d == 7 {
        "7"
    } else if d == 8 {
        "8"
    } else {
        "9"
    }
}

/// Appends the decimal numeral of `n` to `out`.
fn append_decimal(out: &mut String, n: u32)
    ensures
        final(out)@ == old(out)@ + decimal(n as nat),
    decreases n,
{
    if n < 10 {
        out.append(digit_text(n));
    } else {
        append_decimal(out, n / 10);
        out.append(digit_text(n % 10));
        assert(out@ =~= old(out)@ + decimal((n / 10) as nat).push(digit_char((n % 10) as nat)));
    }
}

/// Identifier of a graph node. Nodes are numbered from zero in the order of
/// their creation.
#[derive(Clone, Copy, Hash, PartialEq, Eq, PartialOrd, Ord, Structural)]
pub struct NodeId(u32);

/// Identifier of a cluster. Clusters are numbered from zero in the order of
/// their creation.
#[derive(Clone, Copy, Hash, PartialEq, Eq, PartialOrd, Ord, Structural)]
pub struct ClusterId(u32);

impl NodeId {
    /// The number of the node.
    pub closed spec fn view(&self) -> nat {
        self.0 as nat
    }

    /// The identifier with number `n`.
    pub closed spec fn nth(n: nat) -> NodeId {
        NodeId(n as u32)
    }

    pub(crate) fn new(n: u32) -> (id: NodeId)
        ensures
            id == NodeId::nth(n as nat),
            id@ == n,
    {
        NodeId(n)
    }

    /// The identifier as it is written in diagrams: `n` and the number.
    pub fn to_string(&self) -> (s: String)
        ensures
            s@ == seq!['n'] + decimal(self@),
    {
        proof {
            reveal_strlit("n");
        }
        let mut s: String = String::new();
        s.append("n");
        assert(s@ =~= seq!['n']);
        append_decimal(&mut s, self.0);
        s
    }
}

impl ClusterId {
    /// The number of the cluster.
    pub closed spec fn view(&self) -> nat {
        self.0 as nat
    }

    /// The identifier with number `n`.
    pub closed spec fn nth(n: nat) -> ClusterId {
        ClusterId(n as u32)
    }

    pub(crate) fn new(n: u32) -> (id: ClusterId)
        ensures
            id == ClusterId::nth(n as nat),
            id@ == n,
    {
        ClusterId(n)
    }

    /// The identifier as it is written in diagrams: `sg` and the number.
    pub fn to_string(&self) -> (s: String)
        ensures
            s@ == seq!['s', 'g'] + decimal(self@),
    {
        proof {
            reveal_strlit("sg");
        }
        let mut s: String = String::new();
        s.append("sg");
        assert(s@ =~= seq!['s', 'g']);
        append_decimal(&mut s, self.0);
        s
    }
}

/// The formatter of std, into which text is written.
#[verifier::external_type_specification]
#[verifier::external_body]
pub struct ExFormatter<'a>(core::fmt::Formatter<'a>);

/// The error of std with which writing text can fail.
#[verifier::external_type_specification]
#[verifier::external_body]
pub struct ExFormatError(core::fmt::Error);

/// The text in the underlying buffer of a formatter.
pub uninterp spec fn buffer(f: core::fmt::Formatter<'_>) -> Seq<char>;

/// `Formatter::write_str` writes its argument to the underlying buffer of the
/// formatter: where it succeeds, the argument stands behind what the buffer held.
/// Whether it succeeds is up to the buffer.
pub assume_specification<'a>[ core::fmt::Formatter::<'a>::write_str ](
    f: &mut core::fmt::Formatter<'a>,
    data: &str,
) -> (done: core::fmt::Result)
    ensures
        done is Ok ==> buffer(*final(f)) == buffer(*old(f)) + data@,
;

impl core::fmt::Debug for NodeId {
    /// Writes the identifier as in diagrams.
    fn fmt(&self, f: &mut core::fmt::Formatter<'_>) -> (done: core::fmt::Result)
        ensures
            done is Ok ==> buffer(*final(f)) == buffer(*old(f)) + (seq!['n'] + decimal(self@)),
    {
        let text = self.to_string();
        f.write_str(text.as_str())
    }
}

impl core::fmt::Debug for ClusterId {
    /// Writes the identifier as in diagrams.
    fn fmt(&self, f: &mut core::fmt::Formatter<'_>) -> (done: core::fmt::Result)
        ensures
            done is Ok ==> buffer(*final(f)) == buffer(*old(f)) + (seq!['s', 'g'] + decimal(
                self@,
            )),
    {
        let text = self.to_string();
        f.write_str(text.as_str())
    }
}

/// The number that a row of digits stands for: each digit counts ten times what the
/// next one does.
pub open spec fn number_of(digits: Seq<char>) -> int
    decreases digits.len(),
{
    if digits.len() == 0 {
        0
    } else {
        10 * number_of(digits.drop_last()) + (digits.last() as int - '0' as int)
    }
}

/// A numeral consists of digits, reads back as its number, and has no leading zero.
pub proof fn numerals_read_back(n: nat)
    ensures
        number_of(decimal(n)) == n,
        decimal(n).len() > 0,
        forall|i: int|
            0 <= i < decimal(n).len() ==> '0' as int <= #[trigger] decimal(n)[i] as int
                <= '9' as int,
        n > 0 ==> decimal(n)[0] != '0',
    decreases n,
{
    let d = n % 10;
    assert(digit_char(d) as int == '0' as int + d);
    if n < 10 {
        assert(decimal(n).drop_last() =~= seq![]);
        assert(number_of(decimal(n).drop_last()) == 0);
    } else {
        let rest = decimal(n / 10);
        numerals_read_back(n / 10);
        assert(decimal(n).drop_last() =~= rest);
        assert forall|i: int| 0 <= i < decimal(n).len() implies '0' as int
            <= #[trigger] decimal(n)[i] as int <= '9' as int by {
            if i < rest.len() {
                assert(decimal(n)[i] == rest[i]);
            }
        }
        assert(decimal(n)[0] == rest[0]);
    }
}

/// Different numbers have different numerals.
pub proof fn numerals_differ(a: nat, b: nat)
    requires
        decimal(a) == decimal(b),
    ensures
        a == b,
    decreases a,
{
    assert(decimal(a).last() == digit_char(a % 10));
    assert(decimal(b).last() == digit_char(b % 10));
    assert(a % 10 == b % 10);
    lemma_numeral_long(a);
    lemma_numeral_long(b);
    if a >= 10 {
        assert(decimal(a).drop_last() =~= decimal(a / 10));
        assert(decimal(b).drop_last() =~= decimal(b / 10));
        numerals_differ(a / 10, b / 10);
    }
}

proof fn lemma_numeral_long(n: nat)
    ensures
        decimal(n).len() > 0,
        n >= 10 <==> decimal(n).len() > 1,
    decreases n,
{
    if n >= 10 {
        lemma_numeral_long(n / 10);
    }
}

/// Different nodes are written differently.
pub proof fn node_texts_differ(a: NodeId, b: NodeId)
    requires
        seq!['n'] + decimal(a@) == seq!['n'] + decimal(b@),
    ensures
        a == b,
{
    assert((seq!['n'] + decimal(a@)).skip(1) =~= decimal(a@));
    assert((seq!['n'] + decimal(b@)).skip(1) =~= decimal(b@));
    numerals_differ(a@, b@);
}

/// Different clusters are written differently.
pub proof fn cluster_texts_differ(a: ClusterId, b: ClusterId)
    requires
        seq!['s', 'g'] + decimal(a@) == seq!['s', 'g'] + decimal(b@),
    ensures
        a == b,
{
    assert((seq!['s', 'g'] + decimal(a@)).skip(2) =~= decimal(a@));
    assert((seq!['s', 'g'] + decimal(b@)).skip(2) =~= decimal(b@));
    numerals_differ(a@, b@);
}

/// No node is written like a cluster.
pub proof fn node_and_cluster_texts_differ(a: NodeId, b: ClusterId)
    ensures
        seq!['n'] + decimal(a@) != seq!['s', 'g'] + decimal(b@),
{
    assert((seq!['n'] + decimal(a@))[0] == 'n');
    assert((seq!['s', 'g'] + decimal(b@))[0] == 's');
}

/// A node identifier is determined by its number, which fits in 32 bits.
pub broadcast proof fn lemma_node_id(id: NodeId)
    ensures
        #![trigger id@]
        id == NodeId::nth(id@),
        id@ <= u32::MAX,
{
}

/// `NodeId::nth` names the identifier with the given number.
pub broadcast proof fn lemma_node_nth(n: nat)
    requires
        n <= u32::MAX,
    ensures
        (#[trigger] NodeId::nth(n))@ == n,
{
}

/// A cluster identifier is determined by its number, which fits in 32 bits.
pub broadcast proof fn lemma_cluster_id(id: ClusterId)
    ensures
        #![trigger id@]
        id == ClusterId::nth(id@),
        id@ <= u32::MAX,
{
}

/// `ClusterId::nth` names the identifier with the given number.
pub broadcast proof fn lemma_cluster_nth(n: nat)
    requires
        n <= u32::MAX,
    ensures
        (#[trigger] ClusterId::nth(n))@ == n,
{
}

} // verus!
