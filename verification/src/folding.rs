//! What folding counters in gives each block: the sum of the counters of the edges off the
//! tree that leave it.

use vstd::prelude::*;
use crate::balance::capped;
use crate::builder::fold_counters;
use crate::error::Error;
use crate::graph::{FunctionView, GcnoEdge};
use crate::reader::{le_word, take_quad};

verus! {

/// The eight bytes of a counter in a data file, the least significant first.
pub open spec fn quad_bytes(c: u64) -> Seq<u8> {
    seq![
        (c % 0x100) as u8,
        (c / 0x100 % 0x100) as u8,
        (c / 0x1_0000 % 0x100) as u8,
        (c / 0x100_0000 % 0x100) as u8,
        (c / 0x1_0000_0000 % 0x100) as u8,
        (c / 0x100_0000_0000 % 0x100) as u8,
        (c / 0x1_0000_0000_0000 % 0x100) as u8,
        (c / 0x100_0000_0000_0000 % 0x100) as u8,
    ]
}

/// The bytes of a list of counters, one behind the other.
pub open spec fn counter_bytes(counters: Seq<u64>) -> Seq<u8>
    decreases counters.len(),
{
    if counters.len() == 0 {
        Seq::empty()
    } else {
        quad_bytes(counters[0]) + counter_bytes(counters.skip(1))
    }
}

/// The four lowest digits of a number to the base 256 make up its remainder by 2^32.
proof fn lemma_low_digits(c: u64)
    by (bit_vector)
    ensures
        (c % 0x100) + 0x100 * (c / 0x100 % 0x100) + 0x1_0000 * (c / 0x1_0000 % 0x100) + 0x100_0000
            * (c / 0x100_0000 % 0x100) == c % 0x1_0000_0000,
{
}

/// The four highest digits of a number to the base 256 make up its quotient by 2^32.
proof fn lemma_high_digits(c: u64)
    by (bit_vector)
    ensures
        (c / 0x1_0000_0000 % 0x100) + 0x100 * (c / 0x100_0000_0000 % 0x100) + 0x1_0000 * (c
            / 0x1_0000_0000_0000 % 0x100) + 0x100_0000 * (c / 0x100_0000_0000_0000 % 0x100) == c
            / 0x1_0000_0000,
{
}

/// A number is its remainder by 2^32 and 2^32 times its quotient.
proof fn lemma_halves(c: u64)
    by (bit_vector)
    ensures
        c % 0x1_0000_0000 + 0x1_0000_0000 * (c / 0x1_0000_0000) == c,
        c % 0x1_0000_0000 < 0x1_0000_0000,
        c / 0x1_0000_0000 < 0x1_0000_0000,
{
}

/// A counter is read back from its bytes.
pub proof fn lemma_quad_read_back(c: u64, rest: Seq<u8>)
    ensures
        take_quad(quad_bytes(c) + rest) == Ok::<(u64, Seq<u8>), Error>((c, rest)),
{
    let s = quad_bytes(c) + rest;
    assert(s.len() >= 8);
    assert(s.skip(8) =~= rest);
    let t = s.skip(4);
    lemma_low_digits(c);
    lemma_high_digits(c);
    lemma_halves(c);
    assert(s[0] == (c % 0x100) as u8 && s[1] == (c / 0x100 % 0x100) as u8);
    assert(s[2] == (c / 0x1_0000 % 0x100) as u8 && s[3] == (c / 0x100_0000 % 0x100) as u8);
    assert(t[0] == (c / 0x1_0000_0000 % 0x100) as u8);
    assert(t[1] == (c / 0x100_0000_0000 % 0x100) as u8);
    assert(t[2] == (c / 0x1_0000_0000_0000 % 0x100) as u8);
    assert(t[3] == (c / 0x100_0000_0000_0000 % 0x100) as u8);
    assert(le_word(s) == c % 0x1_0000_0000);
    assert(le_word(t) == c / 0x1_0000_0000);
}

/// What the counters `counters`, one for each edge off the tree from edge `from` on, give
/// block `b`: the sum of those of the edges that leave `b`.
pub open spec fn given(edges: Seq<GcnoEdge>, counters: Seq<u64>, b: int, from: int) -> int
    decreases edges.len() - from,
{
    if from < 0 || from >= edges.len() {
        0
    } else if edges[from].on_tree() {
        given(edges, counters, b, from + 1)
    } else {
        (if edges[from].src == b {
            counters[0] as int
        } else {
            0
        }) + given(edges, counters.skip(1), b, from + 1)
    }
}

/// The number of edges off the tree from edge `from` on.
pub open spec fn off_tree_from(edges: Seq<GcnoEdge>, from: int) -> nat
    decreases edges.len() - from,
{
    if from < 0 || from >= edges.len() {
        0
    } else {
        off_tree_from(edges, from + 1) + if edges[from].on_tree() {
            0nat
        } else {
            1nat
        }
    }
}

proof fn lemma_given_nonnegative(edges: Seq<GcnoEdge>, counters: Seq<u64>, b: int, from: int)
    ensures
        given(edges, counters, b, from) >= 0,
    decreases edges.len() - from,
{
    if from < 0 || from >= edges.len() {
    } else if edges[from].on_tree() {
        lemma_given_nonnegative(edges, counters, b, from + 1);
    } else {
        lemma_given_nonnegative(edges, counters.skip(1), b, from + 1);
    }
}

/// Folding counters in, from edge `from` on: where a counter is there for every edge off
/// the tree, all are read, and every block has counted what the counters of the edges
/// that leave it add up to. Counts stop at the largest count.
pub proof fn lemma_fold_counters_gives(
    f: FunctionView,
    counters: Seq<u64>,
    rest: Seq<u8>,
    from: int,
)
    requires
        f.wf(),
        0 <= from <= f.edges.len(),
        counters.len() == off_tree_from(f.edges, from),
    ensures
        fold_counters(counter_bytes(counters) + rest, f, from).1 == Ok::<Seq<u8>, Error>(rest),
        fold_counters(counter_bytes(counters) + rest, f, from).0.blocks.len() == f.blocks.len(),
        forall|b: int|
            0 <= b < f.blocks.len() ==> (#[trigger] fold_counters(
                counter_bytes(counters) + rest,
                f,
                from,
            ).0.blocks[b]).counter == capped(
                f.blocks[b].counter + given(f.edges, counters, b, from),
            ),
    decreases f.edges.len() - from,
{
    let s = counter_bytes(counters) + rest;
    if from >= f.edges.len() {
        assert(s =~= rest);
    } else if f.edges[from].on_tree() {
        lemma_fold_counters_gives(f, counters, rest, from + 1);
    } else {
        let c = counters[0];
        let tail = counter_bytes(counters.skip(1)) + rest;
        assert(s =~= quad_bytes(c) + tail);
        lemma_quad_read_back(c, tail);
        let g = f.counted(from, c);
        assert(f.edges[from].src < f.blocks.len());
        crate::graph::lemma_same_shape_wf(f, g);
        assert(off_tree_from(g.edges, from + 1) == off_tree_from(f.edges, from + 1)) by {
            lemma_off_tree_from_same(f.edges, g.edges, from + 1);
        }
        lemma_fold_counters_gives(g, counters.skip(1), rest, from + 1);
        let h = fold_counters(tail, g, from + 1).0;
        assert forall|b: int| 0 <= b < f.blocks.len() implies (#[trigger] h.blocks[b]).counter
            == capped(f.blocks[b].counter + given(f.edges, counters, b, from)) by {
            lemma_given_same(f.edges, g.edges, counters.skip(1), b, from + 1);
            lemma_given_nonnegative(f.edges, counters.skip(1), b, from + 1);
            assert(h.blocks[b].counter == capped(
                g.blocks[b].counter + given(g.edges, counters.skip(1), b, from + 1),
            ));
        }
    }
}

proof fn lemma_off_tree_from_same(a: Seq<GcnoEdge>, b: Seq<GcnoEdge>, from: int)
    requires
        a.len() == b.len(),
        forall|e: int| 0 <= e < a.len() ==> (#[trigger] a[e]).flags == b[e].flags,
    ensures
        off_tree_from(a, from) == off_tree_from(b, from),
    decreases a.len() - from,
{
    if 0 <= from < a.len() {
        assert(a[from].flags == b[from].flags);
        lemma_off_tree_from_same(a, b, from + 1);
    }
}

proof fn lemma_given_same(
    a: Seq<GcnoEdge>,
    b: Seq<GcnoEdge>,
    counters: Seq<u64>,
    block: int,
    from: int,
)
    requires
        a.len() == b.len(),
        forall|e: int|
            0 <= e < a.len() ==> (#[trigger] a[e]).flags == b[e].flags && a[e].src == b[e].src,
    ensures
        given(a, counters, block, from) == given(b, counters, block, from),
    decreases a.len() - from,
{
    if 0 <= from < a.len() {
        assert(a[from].flags == b[from].flags);
        if a[from].on_tree() {
            lemma_given_same(a, b, counters, block, from + 1);
        } else {
            lemma_given_same(a, b, counters.skip(1), block, from + 1);
        }
    }
}

} // verus!
