//! The coarse signature by which graphs are sorted into buckets: how many
//! edges of each class a graph has.

use vstd::prelude::*;
use crate::graph::{class_count, EdgeClass, Graph, GraphView};

verus! {

/// The counts of a graph's loops, bridges, bi-edges and sprawling edges.
#[derive(Clone, Copy, Debug, PartialEq, Eq, Structural)]
pub struct Signature {
    pub loops: usize,
    pub bridges: usize,
    pub bi_edges: usize,
    pub sprawling: usize,
}

/// The character of a decimal digit.
pub open spec fn digit(d: nat) -> char {
    if d == 0 {
        '0'
    } else if d == 1 {
        '1'
    } else if d == 2 {
        '2'
    } else if d == 3 {
        '3'
    } else if d == 4 {
        '4'
    } else if d == 5 {
        '5'
    } else if d == 6 {
        '6'
    } else if d == 7 {
        '7'
    } else if d == 8 {
        '8'
    } else {
        '9'
    }
}

/// A number in decimal, without leading zeros.
pub open spec fn decimal(n: nat) -> Seq<char>
    decreases n,
{
    if n < 10 {
        seq![digit(n)]
    } else {
        decimal(n / 10).push(digit(n % 10))
    }
}

/// Four counts in decimal, joined by colons.
pub open spec fn key_text(loops: nat, bridges: nat, bi_edges: nat, sprawling: nat) -> Seq<char> {
    decimal(loops) + seq![':'] + decimal(bridges) + seq![':'] + decimal(bi_edges) + seq![':']
        + decimal(sprawling)
}

/// The signature of a graph.
pub open spec fn signature_of(graph: GraphView) -> Signature {
    Signature {
        loops: class_count(graph.classes(), EdgeClass::Loop) as usize,
        bridges: class_count(graph.classes(), EdgeClass::Bridge) as usize,
        bi_edges: class_count(graph.classes(), EdgeClass::BiEdge) as usize,
        sprawling: class_count(graph.classes(), EdgeClass::Sprawling) as usize,
    }
}

/// The bucket key of a graph: the counts of its loops, bridges, bi-edges and
/// sprawling edges, in this order.
pub open spec fn key_of(graph: GraphView) -> Seq<char> {
    key_text(
        class_count(graph.classes(), EdgeClass::Loop),
        class_count(graph.classes(), EdgeClass::Bridge),
        class_count(graph.classes(), EdgeClass::BiEdge),
        class_count(graph.classes(), EdgeClass::Sprawling),
    )
}

/// The text of one decimal digit.
fn digit_text(d: usize) -> (text: &'static str)
    requires
        d < 10,
    ensures
        text@ == seq![digit(d as nat)],
{
    proof {
        reveal_strlit("0");
        reveal_strlit("1");
        reveal_strlit("2");
        reveal_strlit("3");
        reveal_strlit("4");
        reveal_strlit("5");
        reveal_strlit("6");
        reveal_strlit("7");
        reveal_strlit("8");
        reveal_strlit("9");
    }
    let text = if d == 0 {
        "0"
    } else if d == 1 {
        "1"
    } else if d == 2 {
        "2"
    } else if d == 3 {
        "3"
    } else if d == 4 {
        "4"
    } else if d == 5 {
        "5"
    } else if d == 6 {
        "6"
    } else if d == 7 {
        "7"
    } else if d == 8 {
        "8"
    } else {
        "9"
    };
    assert(text@ =~= seq![digit(d as nat)]);
    text
}

/// Writes `n` in decimal at the end of `text`.
fn push_decimal(text: &mut String, n: usize)
    ensures
        final(text)@ == old(text)@ + decimal(n as nat),
    decreases n,
{
    if n >= 10 {
        push_decimal(text, n / 10);
    }
    text.append(digit_text(n % 10));
    assert(final(text)@ =~= old(text)@ + decimal(n as nat));
}

/// Writes a colon at the end of `text`.
fn push_colon(text: &mut String)
    ensures
        final(text)@ == old(text)@ + seq![':'],
{
    proof {
        reveal_strlit(":");
    }
    text.append(":");
    assert(final(text)@ =~= old(text)@ + seq![':']);
}

/// A number as text, in decimal.
pub fn decimal_text(n: usize) -> (text: String)
    ensures
        text@ == decimal(n as nat),
{
    let mut text = String::new();
    push_decimal(&mut text, n);
    assert(text@ =~= decimal(n as nat));
    text
}

impl Signature {
    /// The signature as text: the four counts in decimal, joined by colons.
    pub fn render(&self) -> (text: String)
        ensures
            text@ == key_text(
                self.loops as nat,
                self.bridges as nat,
                self.bi_edges as nat,
                self.sprawling as nat,
            ),
    {
        let mut text = String::new();
        push_decimal(&mut text, self.loops);
        push_colon(&mut text);
        push_decimal(&mut text, self.bridges);
        push_colon(&mut text);
        push_decimal(&mut text, self.bi_edges);
        push_colon(&mut text);
        push_decimal(&mut text, self.sprawling);
        assert(text@ =~= key_text(
            self.loops as nat,
            self.bridges as nat,
            self.bi_edges as nat,
            self.sprawling as nat,
        ));
        text
    }
}

impl Graph {
    /// The counts of the graph's loops, bridges, bi-edges and sprawling
    /// edges.
    pub fn signature(&self) -> (signature: Signature)
        requires
            self.wf(),
        ensures
            signature == signature_of(self@),
            signature.loops == class_count(self@.classes(), EdgeClass::Loop),
            signature.bridges == class_count(self@.classes(), EdgeClass::Bridge),
            signature.bi_edges == class_count(self@.classes(), EdgeClass::BiEdge),
            signature.sprawling == class_count(self@.classes(), EdgeClass::Sprawling),
    {
        Signature {
            loops: self.count_of(EdgeClass::Loop),
            bridges: self.count_of(EdgeClass::Bridge),
            bi_edges: self.count_of(EdgeClass::BiEdge),
            sprawling: self.count_of(EdgeClass::Sprawling),
        }
    }

    /// The bucket key of the graph. It depends on the number of edges of
    /// each class alone, not on the order in which the edges are kept.
    pub fn categorizing_hash(&self) -> (key: String)
        requires
            self.wf(),
        ensures
            key@ == key_of(self@),
    {
        self.signature().render()
    }
}

/// The number that a decimal digit stands for.
pub open spec fn digit_value(c: char) -> nat {
    if c == '0' {
        0
    } else if c == '1' {
        1
    } else if c == '2' {
        2
    } else if c == '3' {
        3
    } else if c == '4' {
        4
    } else if c == '5' {
        5
    } else if c == '6' {
        6
    } else if c == '7' {
        7
    } else if c == '8' {
        8
    } else {
        9
    }
}

/// The number that a text of decimal digits stands for.
pub open spec fn value(text: Seq<char>) -> nat
    decreases text.len(),
{
    if text.len() == 0 {
        0
    } else {
        value(text.drop_last()) * 10 + digit_value(text.last())
    }
}

/// A number in decimal has at least one digit and no colon, and stands for
/// the number.
pub proof fn lemma_decimal(n: nat)
    ensures
        decimal(n).len() >= 1,
        forall|i: int| 0 <= i < decimal(n).len() ==> #[trigger] decimal(n)[i] != ':',
        value(decimal(n)) == n,
    decreases n,
{
    if n < 10 {
        assert(decimal(n).drop_last() =~= Seq::<char>::empty());
        assert(value(decimal(n).drop_last()) == 0);
    } else {
        lemma_decimal(n / 10);
        assert(decimal(n).drop_last() =~= decimal(n / 10));
    }
}

/// A text is cut at its first colon in one way only.
pub proof fn lemma_cut(head: Seq<char>, rest: Seq<char>, other_head: Seq<char>, other_rest: Seq<char>)
    requires
        head + seq![':'] + rest == other_head + seq![':'] + other_rest,
        forall|i: int| 0 <= i < head.len() ==> #[trigger] head[i] != ':',
        forall|i: int| 0 <= i < other_head.len() ==> #[trigger] other_head[i] != ':',
    ensures
        head == other_head,
        rest == other_rest,
{
    let one = head + seq![':'] + rest;
    let two = other_head + seq![':'] + other_rest;
    if head.len() < other_head.len() {
        assert(one[head.len() as int] == ':');
        assert(two[head.len() as int] == other_head[head.len() as int]);
    } else if other_head.len() < head.len() {
        assert(two[other_head.len() as int] == ':');
        assert(one[other_head.len() as int] == head[other_head.len() as int]);
    }
    assert(one.len() == two.len());
    assert forall|i: int| 0 <= i < head.len() implies head[i] == other_head[i] by {
        assert(one[i] == head[i]);
        assert(two[i] == other_head[i]);
    }
    assert(head =~= other_head);
    assert forall|i: int| 0 <= i < rest.len() implies rest[i] == other_rest[i] by {
        assert(one[head.len() + 1 + i] == rest[i]);
        assert(two[head.len() + 1 + i] == other_rest[i]);
    }
    assert(rest =~= other_rest);
}

/// Different counts have different texts: a key names the four counts that
/// it was made of.
pub proof fn lemma_key_text_injective(
    loops: nat,
    bridges: nat,
    bi_edges: nat,
    sprawling: nat,
    other_loops: nat,
    other_bridges: nat,
    other_bi_edges: nat,
    other_sprawling: nat,
)
    requires
        key_text(loops, bridges, bi_edges, sprawling) == key_text(
            other_loops,
            other_bridges,
            other_bi_edges,
            other_sprawling,
        ),
    ensures
        loops == other_loops,
        bridges == other_bridges,
        bi_edges == other_bi_edges,
        sprawling == other_sprawling,
{
    let colon = seq![':'];
    let tail2 = decimal(bi_edges) + colon + decimal(sprawling);
    let tail1 = decimal(bridges) + colon + tail2;
    let other_tail2 = decimal(other_bi_edges) + colon + decimal(other_sprawling);
    let other_tail1 = decimal(other_bridges) + colon + other_tail2;
    assert(key_text(loops, bridges, bi_edges, sprawling) =~= decimal(loops) + colon + tail1);
    assert(key_text(other_loops, other_bridges, other_bi_edges, other_sprawling) =~= decimal(
        other_loops,
    ) + colon + other_tail1);
    lemma_decimal(loops);
    lemma_decimal(bridges);
    lemma_decimal(bi_edges);
    lemma_decimal(sprawling);
    lemma_decimal(other_loops);
    lemma_decimal(other_bridges);
    lemma_decimal(other_bi_edges);
    lemma_decimal(other_sprawling);
    lemma_cut(decimal(loops), tail1, decimal(other_loops), other_tail1);
    lemma_cut(decimal(bridges), tail2, decimal(other_bridges), other_tail2);
    lemma_cut(
        decimal(bi_edges),
        decimal(sprawling),
        decimal(other_bi_edges),
        decimal(other_sprawling),
    );
}

/// Graphs with the same key have equally many loops, bridges, bi-edges and
/// sprawling edges.
pub proof fn lemma_same_key_same_counts(g1: GraphView, g2: GraphView)
    requires
        key_of(g1) == key_of(g2),
    ensures
        class_count(g1.classes(), EdgeClass::Loop) == class_count(g2.classes(), EdgeClass::Loop),
        class_count(g1.classes(), EdgeClass::Bridge) == class_count(
            g2.classes(),
            EdgeClass::Bridge,
        ),
        class_count(g1.classes(), EdgeClass::BiEdge) == class_count(
            g2.classes(),
            EdgeClass::BiEdge,
        ),
        class_count(g1.classes(), EdgeClass::Sprawling) == class_count(
            g2.classes(),
            EdgeClass::Sprawling,
        ),
{
    lemma_key_text_injective(
        class_count(g1.classes(), EdgeClass::Loop),
        class_count(g1.classes(), EdgeClass::Bridge),
        class_count(g1.classes(), EdgeClass::BiEdge),
        class_count(g1.classes(), EdgeClass::Sprawling),
        class_count(g2.classes(), EdgeClass::Loop),
        class_count(g2.classes(), EdgeClass::Bridge),
        class_count(g2.classes(), EdgeClass::BiEdge),
        class_count(g2.classes(), EdgeClass::Sprawling),
    );
}

} // verus!
