//! Sums over the lists of a block, Kirchhoff's law at the interior blocks, and what
//! propagation finds in a graph whose tree has no counts yet.

use vstd::prelude::*;
use crate::flow::{
    closed, deposited, lemma_closed_linked, linked, propagate_block, propagate_from,
    propagate_list, propagated, reconciled, sink_of, Flow,
};
use crate::graph::{
    first_beyond, lemma_first_beyond_bounds, roomy, tree_uncounted, BlockView, FunctionView,
    GcnoEdge, GCOV_ARC_ON_TREE,
};

verus! {

/// The sum of the weights of the entries of `list`.
pub open spec fn weighted(list: Seq<usize>, weight: spec_fn(usize) -> int) -> int
    decreases list.len(),
{
    if list.len() == 0 {
        0
    } else {
        weighted(list.drop_last(), weight) + weight(list.last())
    }
}

/// The sum of the counters of the edges that `list` holds.
pub open spec fn flow_through(list: Seq<usize>, edges: Seq<GcnoEdge>) -> int {
    weighted(list, |e: usize| edges[e as int].counter as int)
}

/// The weight of a list is that of the list without one entry, and that entry's.
pub proof fn lemma_weighted_without(list: Seq<usize>, weight: spec_fn(usize) -> int, at: int)
    requires
        0 <= at < list.len(),
    ensures
        weighted(list, weight) == weighted(list.remove(at), weight) + weight(list[at]),
    decreases list.len(),
{
    if at == list.len() - 1 {
        assert(list.remove(at) =~= list.drop_last());
    } else {
        lemma_weighted_without(list.drop_last(), weight, at);
        assert(list.remove(at).drop_last() =~= list.drop_last().remove(at));
        assert(list.remove(at).last() == list.last());
    }
}

/// Two lists that hold the same entries, each once, weigh the same.
pub proof fn lemma_weighted_same(a: Seq<usize>, b: Seq<usize>, weight: spec_fn(usize) -> int)
    requires
        a.no_duplicates(),
        b.no_duplicates(),
        forall|x: usize| a.contains(x) <==> b.contains(x),
    ensures
        weighted(a, weight) == weighted(b, weight),
    decreases a.len(),
{
    if a.len() == 0 {
        if b.len() > 0 {
            assert(b.contains(b[0]));
            assert(a.contains(b[0]));
        }
    } else {
        let x = a.last();
        assert(a.contains(x));
        assert(b.contains(x));
        let at = choose|at: int| 0 <= at < b.len() && b[at] == x;
        let rest = a.drop_last();
        let other = b.remove(at);
        lemma_weighted_without(b, weight, at);
        assert forall|y: usize| rest.contains(y) <==> other.contains(y) by {
            if rest.contains(y) {
                let i = choose|i: int| 0 <= i < rest.len() && rest[i] == y;
                assert(a[i] == y);
                assert(a.contains(y));
                assert(y != x);
                let j = choose|j: int| 0 <= j < b.len() && b[j] == y;
                if j < at {
                    assert(other[j] == y);
                } else {
                    assert(other[j - 1] == y);
                }
            }
            if other.contains(y) {
                let j = choose|j: int| 0 <= j < other.len() && other[j] == y;
                let k = if j < at {
                    j
                } else {
                    j + 1
                };
                assert(b[k] == y);
                assert(b.contains(y));
                assert(y != x);
                let i = choose|i: int| 0 <= i < a.len() && a[i] == y;
                assert(rest[i] == y);
            }
        }
        assert(other.no_duplicates()) by {
            assert forall|i: int, j: int|
                0 <= i < other.len() && 0 <= j < other.len() && i != j implies other[i]
                != other[j] by {
                let ki = if i < at {
                    i
                } else {
                    i + 1
                };
                let kj = if j < at {
                    j
                } else {
                    j + 1
                };
                assert(b[ki] != b[kj]);
            }
        }
        lemma_weighted_same(rest, other, weight);
    }
}

/// Weights that agree on the entries of a list give the list the same weight.
pub proof fn lemma_weighted_agree(
    list: Seq<usize>,
    v: spec_fn(usize) -> int,
    w: spec_fn(usize) -> int,
)
    requires
        forall|k: int| 0 <= k < list.len() ==> v(#[trigger] list[k]) == w(list[k]),
    ensures
        weighted(list, v) == weighted(list, w),
    decreases list.len(),
{
    if list.len() > 0 {
        assert(v(list[list.len() - 1]) == w(list[list.len() - 1]));
        assert forall|k: int| 0 <= k < list.drop_last().len() implies v(
            #[trigger] list.drop_last()[k],
        ) == w(list.drop_last()[k]) by {
            assert(v(list[k]) == w(list[k]));
        }
        lemma_weighted_agree(list.drop_last(), v, w);
    }
}

/// The weight of a list from a place on is that of the entry there and of the rest.
pub proof fn lemma_weighted_first(list: Seq<usize>, weight: spec_fn(usize) -> int)
    requires
        list.len() > 0,
    ensures
        weighted(list, weight) == weight(list[0]) + weighted(list.skip(1), weight),
{
    lemma_weighted_without(list, weight, 0);
    assert(list.remove(0) =~= list.skip(1));
}

/// Adding the counters of edges to blocks leaves the blocks' lists as they are.
proof fn lemma_deposited_lists(blocks: Seq<BlockView>, edges: Seq<GcnoEdge>, left: int)
    ensures
        deposited(blocks, edges, left).len() == blocks.len(),
        forall|b: int|
            0 <= b < blocks.len() ==> (#[trigger] deposited(blocks, edges, left)[b]).src
                == blocks[b].src && deposited(blocks, edges, left)[b].dst == blocks[b].dst,
    decreases left,
{
    if left <= 0 || left > edges.len() {
    } else {
        let edge = edges[left - 1];
        let next = if edge.on_tree() && edge.src < blocks.len() {
            blocks.update(
                edge.src as int,
                BlockView {
                    counter: blocks[edge.src as int].counter.saturating_add(edge.counter),
                    ..blocks[edge.src as int]
                },
            )
        } else {
            blocks
        };
        lemma_deposited_lists(next, edges, left - 1);
        assert forall|b: int| 0 <= b < blocks.len() implies (#[trigger] deposited(
            blocks,
            edges,
            left,
        )[b]).src == blocks[b].src && deposited(blocks, edges, left)[b].dst == blocks[b].dst by {
            assert(next[b].src == blocks[b].src);
        }
    }
}

/// In a well-formed function the two lists of a block hold the same edges.
pub proof fn lemma_lists_hold_the_same(f: FunctionView, b: int)
    requires
        f.wf(),
        0 <= b < f.blocks.len(),
    ensures
        f.blocks[b].src.no_duplicates(),
        f.blocks[b].dst.no_duplicates(),
        forall|x: usize| f.blocks[b].src.contains(x) <==> f.blocks[b].dst.contains(x),
{
    let incoming = f.blocks[b].src;
    let outgoing = f.blocks[b].dst;
    assert(f.lists_ordered());
    assert(incoming.no_duplicates() && outgoing.no_duplicates());
    assert forall|x: usize| incoming.contains(x) <==> outgoing.contains(x) by {
        if incoming.contains(x) {
            let k = choose|k: int| 0 <= k < incoming.len() && incoming[k] == x;
            assert(f.blocks[b].src[k] < f.edges.len());
            assert(f.edges[x as int].src == b);
            assert(f.blocks[f.edges[x as int].src as int].dst.contains(x as int as usize));
        }
        if outgoing.contains(x) {
            let k = choose|k: int| 0 <= k < outgoing.len() && outgoing[k] == x;
            assert(f.blocks[b].dst[k] < f.edges.len());
            assert(f.edges[x as int].src == b);
            assert(f.blocks[f.edges[x as int].src as int].src.contains(x as int as usize));
        }
    }
}

/// Kirchhoff's law at the interior blocks. Once the counters of a well-formed function
/// are found, at every block but block 0 and the exit block the counters of the edges
/// in the incoming list sum to the same as those in the outgoing list.
pub proof fn lemma_interior_blocks_balanced(f: FunctionView, version: u32, b: int)
    requires
        f.wf(),
        0 < b < f.blocks.len(),
        b != sink_of(f, version),
    ensures
        flow_through(reconciled(f, version).blocks[b].src, reconciled(f, version).edges)
            == flow_through(reconciled(f, version).blocks[b].dst, reconciled(f, version).edges),
{
    let r = reconciled(f, version);
    let c = closed(f, version);
    lemma_deposited_lists(c.blocks, r.edges, r.edges.len() as int);
    assert(c.blocks[b] == f.blocks[b]);
    assert(r.blocks[b].src == f.blocks[b].src);
    assert(r.blocks[b].dst == f.blocks[b].dst);
    lemma_lists_hold_the_same(f, b);
    lemma_weighted_same(
        f.blocks[b].src,
        f.blocks[b].dst,
        |e: usize| r.edges[e as int].counter as int,
    );
}

/// What an edge brings to a sum before the counts of the tree are found: its counter, or
/// nothing where it is on the tree.
pub open spec fn off_tree_count(edges: Seq<GcnoEdge>) -> spec_fn(usize) -> int {
    |e: usize|
        if edges[e as int].on_tree() {
            0int
        } else {
            edges[e as int].counter as int
        }
}

/// A sum as a counter holds it: the largest count where the sum is beyond.
pub open spec fn capped(sum: int) -> u64 {
    if sum >= u64::MAX {
        u64::MAX
    } else if sum <= 0 {
        0
    } else {
        sum as u64
    }
}

/// The graph is linked, no edge on the tree has a count, and at every block the incoming
/// and the outgoing edges off the tree carry the same.
pub open spec fn quiet(blocks: Seq<BlockView>, edges: Seq<GcnoEdge>) -> bool {
    &&& linked(blocks, edges)
    &&& tree_uncounted(edges)
    &&& forall|b: int|
        0 <= b < blocks.len() ==> weighted((#[trigger] blocks[b]).src, off_tree_count(edges))
            == weighted(blocks[b].dst, off_tree_count(edges))
}

proof fn lemma_off_tree_nonnegative(list: Seq<usize>, edges: Seq<GcnoEdge>)
    ensures
        weighted(list, off_tree_count(edges)) >= 0,
    decreases list.len(),
{
    if list.len() > 0 {
        lemma_off_tree_nonnegative(list.drop_last(), edges);
    }
}

/// In a quiet graph, propagation from a block entered over an edge of the tree finds 0
/// and changes no counter.
pub proof fn lemma_quiet_block(
    blocks: Seq<BlockView>,
    st: Flow,
    b: usize,
    pred: Option<usize>,
    depth: nat,
)
    requires
        quiet(blocks, st.edges),
        pred matches Some(p) ==> p < st.edges.len() && st.edges[p as int].on_tree(),
    ensures
        propagate_block(blocks, st, b, pred, depth).0.edges == st.edges,
        propagate_block(blocks, st, b, pred, depth).1 == 0,
    decreases depth, 0nat, 0nat,
{
    if depth == 0 || b >= blocks.len() || st.visited.contains(b) {
    } else {
        let entered = Flow { visited: st.visited.insert(b), ..st };
        let block = blocks[b as int];
        assert forall|k: int| 0 <= k < block.src.len() implies #[trigger] block.src[k]
            < st.edges.len() by {
            assert(blocks[b as int].src[k] < st.edges.len());
        }
        assert forall|k: int| 0 <= k < block.dst.len() implies #[trigger] block.dst[k]
            < st.edges.len() by {
            assert(blocks[b as int].dst[k] < st.edges.len());
        }
        lemma_quiet_list(blocks, entered, block.src, 0, pred, true, 0, (depth - 1) as nat);
        let (st1, incoming) = propagate_list(
            blocks,
            entered,
            block.src,
            0,
            pred,
            true,
            0,
            (depth - 1) as nat,
        );
        lemma_quiet_list(blocks, st1, block.dst, 0, pred, false, 0, (depth - 1) as nat);
        let (st2, outgoing) = propagate_list(
            blocks,
            st1,
            block.dst,
            0,
            pred,
            false,
            0,
            (depth - 1) as nat,
        );
        assert(block.src.skip(0) =~= block.src);
        assert(block.dst.skip(0) =~= block.dst);
        assert(incoming == outgoing);
        if let Some(p) = pred {
            assert(st2.edges.update(p as int, st2.edges[p as int].with_counter(0)) =~= st2.edges);
        }
    }
}

/// In a quiet graph, the sum over a list during propagation is that of the counters of
/// its edges off the tree, and no counter changes.
pub proof fn lemma_quiet_list(
    blocks: Seq<BlockView>,
    st: Flow,
    list: Seq<usize>,
    from: int,
    pred: Option<usize>,
    incoming: bool,
    sum: u64,
    depth: nat,
)
    requires
        quiet(blocks, st.edges),
        pred matches Some(p) ==> p < st.edges.len() && st.edges[p as int].on_tree(),
        forall|k: int| 0 <= k < list.len() ==> #[trigger] list[k] < st.edges.len(),
        0 <= from <= list.len(),
    ensures
        propagate_list(blocks, st, list, from, pred, incoming, sum, depth).0.edges == st.edges,
        propagate_list(blocks, st, list, from, pred, incoming, sum, depth).1 == capped(
            sum + weighted(list.skip(from), off_tree_count(st.edges)),
        ),
    decreases depth, 1nat, list.len() - from,
{
    let weight = off_tree_count(st.edges);
    if from >= list.len() {
        assert(list.skip(from) =~= Seq::<usize>::empty());
    } else {
        let e = list[from];
        let rest = list.skip(from);
        lemma_weighted_first(rest, weight);
        assert(rest.skip(1) =~= list.skip(from + 1));
        assert(rest[0] == e);
        lemma_off_tree_nonnegative(list.skip(from + 1), st.edges);
        if pred == Some(e) {
            lemma_quiet_list(blocks, st, list, from + 1, pred, incoming, sum, depth);
        } else if st.edges[e as int].on_tree() {
            let next = if incoming {
                st.edges[e as int].src
            } else {
                st.edges[e as int].dst
            };
            lemma_quiet_block(blocks, st, next, Some(e), depth);
            let (st1, found) = propagate_block(blocks, st, next, Some(e), depth);
            lemma_quiet_list(
                blocks,
                st1,
                list,
                from + 1,
                pred,
                incoming,
                sum.saturating_add(found),
                depth,
            );
        } else {
            lemma_quiet_list(
                blocks,
                st,
                list,
                from + 1,
                pred,
                incoming,
                sum.saturating_add(st.edges[e as int].counter),
                depth,
            );
        }
    }
}

/// In a quiet graph, propagation from every block changes no counter: the edges on the
/// tree keep the count 0.
pub proof fn lemma_quiet_propagated(blocks: Seq<BlockView>, st: Flow, from: int)
    requires
        quiet(blocks, st.edges),
    ensures
        propagate_from(blocks, st, from).edges == st.edges,
    decreases blocks.len() - from,
{
    if from < 0 || from >= blocks.len() {
    } else {
        lemma_quiet_block(blocks, st, from as usize, None, blocks.len());
        lemma_quiet_propagated(
            blocks,
            propagate_block(blocks, st, from as usize, None, blocks.len()).0,
            from + 1,
        );
    }
}

/// What closing the cycle changes: the closing edge is added, to the incoming list of
/// block 0 and to the outgoing list of the exit block.
proof fn lemma_closed_lists(f: FunctionView, version: u32)
    requires
        f.blocks.len() >= 2,
        f.blocks.len() <= usize::MAX,
    ensures
        0 < sink_of(f, version) < f.blocks.len(),
        closed(f, version).blocks.len() == f.blocks.len(),
        closed(f, version).edges.len() == f.edges.len() + 1,
        forall|x: int| 0 <= x < f.edges.len() ==> closed(f, version).edges[x] == f.edges[x],
        closed(f, version).edges[f.edges.len() as int].flags == GCOV_ARC_ON_TREE,
        closed(f, version).edges[f.edges.len() as int].counter == 0,
        closed(f, version).blocks[0].src == f.blocks[0].src.push(f.edges.len() as usize),
        closed(f, version).blocks[0].dst == f.blocks[0].dst,
        closed(f, version).blocks[sink_of(f, version) as int].src == f.blocks[sink_of(
            f,
            version,
        ) as int].src,
        closed(f, version).blocks[sink_of(f, version) as int].dst == f.blocks[sink_of(
            f,
            version,
        ) as int].dst.insert(
            first_beyond(f.blocks[sink_of(f, version) as int].dst, f.edges, 0, 0),
            f.edges.len() as usize,
        ),
        forall|b: int|
            0 < b < f.blocks.len() && b != sink_of(f, version) ==> closed(f, version).blocks[b]
                == f.blocks[b],
{
}

/// A well-formed function with its cycle closed is quiet.
pub proof fn lemma_closed_quiet(f: FunctionView, version: u32)
    requires
        f.wf(),
        f.blocks.len() >= 2,
        f.blocks.len() <= usize::MAX,
        f.edges.len() < usize::MAX,
    ensures
        quiet(closed(f, version).blocks, closed(f, version).edges),
{
    let c = closed(f, version);
    let e = f.edges.len() as usize;
    let sink = sink_of(f, version);
    let weight = off_tree_count(c.edges);
    lemma_closed_linked(f, version);
    lemma_closed_lists(f, version);
    assert(GCOV_ARC_ON_TREE & GCOV_ARC_ON_TREE != 0) by (bit_vector);
    assert(c.edges[e as int].on_tree());
    assert(weight(e) == 0);
    assert(tree_uncounted(c.edges)) by {
        assert(tree_uncounted(f.edges));
        assert forall|x: int| 0 <= x < c.edges.len() && (#[trigger] c.edges[x]).on_tree() implies c.edges[x].counter
            == 0 by {
            if x < f.edges.len() {
                assert(c.edges[x] == f.edges[x]);
            }
        }
    }
    assert forall|b: int| 0 <= b < c.blocks.len() implies weighted(
        (#[trigger] c.blocks[b]).src,
        weight,
    ) == weighted(c.blocks[b].dst, weight) by {
        lemma_closed_block_balanced(f, version, b);
    }
}

/// With the cycle closed, the two lists of a block weigh the same off the tree.
proof fn lemma_closed_block_balanced(f: FunctionView, version: u32, b: int)
    requires
        f.wf(),
        f.blocks.len() >= 2,
        f.blocks.len() <= usize::MAX,
        f.edges.len() < usize::MAX,
        0 <= b < f.blocks.len(),
    ensures
        weighted(closed(f, version).blocks[b].src, off_tree_count(closed(f, version).edges))
            == weighted(
            closed(f, version).blocks[b].dst,
            off_tree_count(closed(f, version).edges),
        ),
{
    let c = closed(f, version);
    let e = f.edges.len() as usize;
    let sink = sink_of(f, version);
    let weight = off_tree_count(c.edges);
    lemma_closed_lists(f, version);
    assert(GCOV_ARC_ON_TREE & GCOV_ARC_ON_TREE != 0) by (bit_vector);
    assert(weight(e) == 0);
    lemma_lists_hold_the_same(f, b);
    lemma_weighted_same(f.blocks[b].src, f.blocks[b].dst, weight);
    if b == 0 {
        assert(f.blocks[b].src.push(e).drop_last() =~= f.blocks[b].src);
    } else if b == sink {
        let exit = f.blocks[sink as int];
        let at = first_beyond(exit.dst, f.edges, 0, 0);
        lemma_first_beyond_bounds(exit.dst, f.edges, 0, 0);
        let outgoing = exit.dst.insert(at, e);
        lemma_weighted_without(outgoing, weight, at);
        assert(outgoing.remove(at) =~= exit.dst);
        assert(outgoing[at] == e);
    }
}

/// Where no edge on the tree has a count, adding their counters to the blocks changes
/// nothing.
pub proof fn lemma_deposited_nothing(blocks: Seq<BlockView>, edges: Seq<GcnoEdge>, left: int)
    requires
        tree_uncounted(edges),
    ensures
        deposited(blocks, edges, left) == blocks,
    decreases left,
{
    if left <= 0 || left > edges.len() {
    } else {
        let edge = edges[left - 1];
        if edge.on_tree() && edge.src < blocks.len() {
            assert(edge.counter == 0);
            assert(blocks.update(
                edge.src as int,
                BlockView {
                    counter: blocks[edge.src as int].counter.saturating_add(edge.counter),
                    ..blocks[edge.src as int]
                },
            ) =~= blocks);
        }
        lemma_deposited_nothing(blocks, edges, left - 1);
    }
}

/// Finding the counters of a well-formed function closes its cycle and changes nothing
/// else: every edge on the tree is found to have the count 0, and every block keeps the
/// count that the data gave it.
pub proof fn lemma_reconciled_is_closed(f: FunctionView, version: u32)
    requires
        f.wf(),
        roomy(f),
    ensures
        reconciled(f, version) == (if f.blocks.len() < 2 {
            f
        } else {
            closed(f, version)
        }),
{
    if f.blocks.len() >= 2 {
        let c = closed(f, version);
        lemma_closed_quiet(f, version);
        lemma_quiet_propagated(c.blocks, Flow { edges: c.edges, visited: Set::empty() }, 0);
        assert(propagated(c.blocks, c.edges) == c.edges);
        lemma_deposited_nothing(c.blocks, c.edges, c.edges.len() as int);
        assert(reconciled(f, version) =~= c);
    }
}

} // verus!
