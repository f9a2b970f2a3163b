//! Finding the counters of the edges on the spanning tree: closing the cycle,
//! propagation, and adding the counters to the blocks.

use vstd::prelude::*;
use fxhash::FxHashSet;
use crate::graph::{
    block_views, first_beyond, function_views, notes_roomy, roomy, sorted_by_destination,
    BlockView, FunctionView, Gcno, GcnoBlock, GcnoEdge, GcnoFunction, GcnoView, GCOV_ARC_ON_TREE,
};
use crate::note::insertion_point;
use crate::tables::block_set_insert;

verus! {

/// From this version on the exit block is block 1; before, the last block.
pub const VERSION_EXIT_SECOND: u32 = 48;

/// Every edge joins two blocks, and the blocks' lists hold edges.
pub open spec fn linked(blocks: Seq<BlockView>, edges: Seq<GcnoEdge>) -> bool {
    &&& forall|e: int|
        0 <= e < edges.len() ==> (#[trigger] edges[e]).src < blocks.len() && edges[e].dst
            < blocks.len()
    &&& forall|b: int, k: int|
        0 <= b < blocks.len() && 0 <= k < blocks[b].src.len() ==> (#[trigger] blocks[b].src[k])
            < edges.len()
    &&& forall|b: int, k: int|
        0 <= b < blocks.len() && 0 <= k < blocks[b].dst.len() ==> (#[trigger] blocks[b].dst[k])
            < edges.len()
}

/// `b` holds the edges of `a`, with other counters perhaps.
pub open spec fn same_edges(a: Seq<GcnoEdge>, b: Seq<GcnoEdge>) -> bool {
    &&& a.len() == b.len()
    &&& forall|e: int|
        0 <= e < a.len() ==> (#[trigger] b[e]).src == a[e].src && b[e].dst == a[e].dst
            && b[e].flags == a[e].flags && b[e].cycles == a[e].cycles
}

/// The state of a propagation: the edges with the counters found so far, and the blocks
/// that were entered.
#[verifier::ext_equal]
pub struct Flow {
    pub edges: Seq<GcnoEdge>,
    pub visited: Set<usize>,
}

/// The distance between two counts.
pub open spec fn distance(a: u64, b: u64) -> u64 {
    if a >= b {
        (a - b) as u64
    } else {
        (b - a) as u64
    }
}

/// Propagation from block `b`, entered over edge `pred` if any. A block is entered once:
/// where it was entered before, nothing changes and the result is 0. Else the counters of
/// its incoming and of its outgoing edges are summed, `pred` left out; an edge on the
/// tree counts with what propagation from its other end gives. The result is the
/// distance of the two sums, and it becomes the counter of `pred`. A sum that would go
/// beyond 64 bits stays at the largest count.
/// `depth` bounds the nesting; the number of blocks not yet entered is enough.
pub open spec fn propagate_block(
    blocks: Seq<BlockView>,
    st: Flow,
    b: usize,
    pred: Option<usize>,
    depth: nat,
) -> (Flow, u64)
    decreases depth, 0nat, 0nat,
{
    if depth == 0 || b >= blocks.len() || st.visited.contains(b) {
        (st, 0)
    } else {
        let entered = Flow { visited: st.visited.insert(b), ..st };
        let (st1, incoming) = propagate_list(
            blocks,
            entered,
            blocks[b as int].src,
            0,
            pred,
            true,
            0,
            (depth - 1) as nat,
        );
        let (st2, outgoing) = propagate_list(
            blocks,
            st1,
            blocks[b as int].dst,
            0,
            pred,
            false,
            0,
            (depth - 1) as nat,
        );
        let excess = distance(incoming, outgoing);
        match pred {
            Some(e) => (
                Flow { edges: st2.edges.update(e as int, st2.edges[e as int].with_counter(excess)), ..st2 },
                excess,
            ),
            None => (st2, excess),
        }
    }
}

/// The sum over the edges of `list` from place `from` on, added to `sum`: for an edge off
/// the tree its counter, for one on the tree what propagation from its source (in an
/// incoming list) or its destination (in an outgoing list) gives; `pred` is left out.
pub open spec fn propagate_list(
    blocks: Seq<BlockView>,
    st: Flow,
    list: Seq<usize>,
    from: int,
    pred: Option<usize>,
    incoming: bool,
    sum: u64,
    depth: nat,
) -> (Flow, u64)
    decreases depth, 1nat, list.len() - from,
{
    if from < 0 || from >= list.len() {
        (st, sum)
    } else {
        let e = list[from];
        if pred == Some(e) {
            propagate_list(blocks, st, list, from + 1, pred, incoming, sum, depth)
        } else if st.edges[e as int].on_tree() {
            let next = if incoming {
                st.edges[e as int].src
            } else {
                st.edges[e as int].dst
            };
            let (st1, found) = propagate_block(blocks, st, next, Some(e), depth);
            propagate_list(
                blocks,
                st1,
                list,
                from + 1,
                pred,
                incoming,
                sum.saturating_add(found),
                depth,
            )
        } else {
            propagate_list(
                blocks,
                st,
                list,
                from + 1,
                pred,
                incoming,
                sum.saturating_add(st.edges[e as int].counter),
                depth,
            )
        }
    }
}

/// Propagation from each block from `from` on, in turn.
pub open spec fn propagate_from(blocks: Seq<BlockView>, st: Flow, from: int) -> Flow
    decreases blocks.len() - from,
{
    if from < 0 || from >= blocks.len() {
        st
    } else {
        propagate_from(
            blocks,
            propagate_block(blocks, st, from as usize, None, blocks.len()).0,
            from + 1,
        )
    }
}

/// The edges after propagation from every block in turn, none entered at the start.
pub open spec fn propagated(blocks: Seq<BlockView>, edges: Seq<GcnoEdge>) -> Seq<GcnoEdge> {
    propagate_from(blocks, Flow { edges, visited: Set::empty() }, 0).edges
}

/// How many of the first `n` blocks were not entered.
pub open spec fn unvisited(n: nat, visited: Set<usize>) -> nat
    decreases n,
{
    if n == 0 {
        0
    } else {
        unvisited((n - 1) as nat, visited) + if visited.contains((n - 1) as usize) {
            0nat
        } else {
            1nat
        }
    }
}

proof fn lemma_unvisited_bound(n: nat, visited: Set<usize>)
    ensures
        unvisited(n, visited) <= n,
    decreases n,
{
    if n > 0 {
        lemma_unvisited_bound((n - 1) as nat, visited);
    }
}

proof fn lemma_unvisited_shrinks(n: nat, a: Set<usize>, b: Set<usize>)
    requires
        a.subset_of(b),
    ensures
        unvisited(n, b) <= unvisited(n, a),
    decreases n,
{
    if n > 0 {
        lemma_unvisited_shrinks((n - 1) as nat, a, b);
    }
}

proof fn lemma_unvisited_enter(n: nat, visited: Set<usize>, b: usize)
    requires
        b < n,
        !visited.contains(b),
        n <= usize::MAX,
    ensures
        unvisited(n, visited.insert(b)) + 1 == unvisited(n, visited),
    decreases n,
{
    if n - 1 == b {
        lemma_unvisited_same((n - 1) as nat, visited, b);
    } else {
        lemma_unvisited_enter((n - 1) as nat, visited, b);
    }
}

proof fn lemma_unvisited_same(n: nat, visited: Set<usize>, b: usize)
    requires
        b >= n,
    ensures
        unvisited(n, visited.insert(b)) == unvisited(n, visited),
    decreases n,
{
    if n > 0 {
        lemma_unvisited_same((n - 1) as nat, visited, b);
    }
}

/// Edges that differ from linked ones in their counters only are linked.
proof fn lemma_linked_same(blocks: Seq<BlockView>, a: Seq<GcnoEdge>, b: Seq<GcnoEdge>)
    requires
        linked(blocks, a),
        same_edges(a, b),
    ensures
        linked(blocks, b),
{
    assert forall|e: int| 0 <= e < b.len() implies (#[trigger] b[e]).src < blocks.len() && b[e].dst
        < blocks.len() by {
        assert(a[e].src < blocks.len());
    }
}

proof fn lemma_same_edges_trans(a: Seq<GcnoEdge>, b: Seq<GcnoEdge>, c: Seq<GcnoEdge>)
    requires
        same_edges(a, b),
        same_edges(b, c),
    ensures
        same_edges(a, c),
{
    assert forall|e: int| 0 <= e < a.len() implies (#[trigger] c[e]).src == a[e].src && c[e].dst
        == a[e].dst && c[e].flags == a[e].flags && c[e].cycles == a[e].cycles by {
        assert(b[e].src == a[e].src);
    }
}

/// Sums one list of a block during the propagation from it.
fn propagate_edges(
    blocks: &Vec<GcnoBlock>,
    edges: &mut Vec<GcnoEdge>,
    block_no: usize,
    pred_arc: Option<usize>,
    visited: &mut FxHashSet<usize>,
    incoming: bool,
    Ghost(depth): Ghost<nat>,
) -> (sum: u64)
    requires
        linked(block_views(blocks@), old(edges)@),
        block_no < blocks@.len(),
        depth >= unvisited(blocks@.len() as nat, old(visited)@),
    ensures
        (Flow { edges: final(edges)@, visited: final(visited)@ }, sum) == propagate_list(
            block_views(blocks@),
            Flow { edges: old(edges)@, visited: old(visited)@ },
            if incoming {
                blocks@[block_no as int].src@
            } else {
                blocks@[block_no as int].dst@
            },
            0,
            pred_arc,
            incoming,
            0,
            depth,
        ),
        same_edges(old(edges)@, final(edges)@),
        old(visited)@.subset_of(final(visited)@),
    decreases depth, 1nat,
{
    let ghost views = block_views(blocks@);
    let ghost start = Flow { edges: edges@, visited: visited@ };
    let list = if incoming {
        &blocks[block_no].src
    } else {
        &blocks[block_no].dst
    };
    assert(list@ == if incoming {
        views[block_no as int].src
    } else {
        views[block_no as int].dst
    });
    let mut sum: u64 = 0;
    let mut i: usize = 0;
    while i < list.len()
        invariant
            i <= list@.len(),
            views == block_views(blocks@),
            linked(views, edges@),
            same_edges(start.edges, edges@),
            start.visited.subset_of(visited@),
            depth >= unvisited(blocks@.len() as nat, visited@),
            forall|k: int| 0 <= k < list@.len() ==> list@[k] < edges@.len(),
            propagate_list(
                views,
                Flow { edges: edges@, visited: visited@ },
                list@,
                i as int,
                pred_arc,
                incoming,
                sum,
                depth,
            ) == propagate_list(views, start, list@, 0, pred_arc, incoming, 0, depth),
        decreases list@.len() - i,
    {
        let edge_id = list[i];
        let is_pred = match pred_arc {
            Some(x) => edge_id == x,
            None => false,
        };
        if !is_pred {
            let edge = edges[edge_id];
            if edge.is_on_tree() {
                let next = if incoming {
                    edge.src
                } else {
                    edge.dst
                };
                let ghost before = edges@;
                let ghost entered = visited@;
                let found = propagate_counts(
                    blocks,
                    edges,
                    next,
                    Some(edge_id),
                    visited,
                    Ghost(depth),
                );
                proof {
                    lemma_same_edges_trans(start.edges, before, edges@);
                    lemma_linked_same(views, before, edges@);
                    lemma_unvisited_shrinks(blocks@.len() as nat, entered, visited@);
                }
                sum = sum.saturating_add(found);
            } else {
                sum = sum.saturating_add(edge.counter);
            }
        }
        i += 1;
    }
    sum
}

/// Propagates from block `block_no`, entered over edge `pred_arc` if any.
fn propagate_counts(
    blocks: &Vec<GcnoBlock>,
    edges: &mut Vec<GcnoEdge>,
    block_no: usize,
    pred_arc: Option<usize>,
    visited: &mut FxHashSet<usize>,
    Ghost(depth): Ghost<nat>,
) -> (excess: u64)
    requires
        linked(block_views(blocks@), old(edges)@),
        block_no < blocks@.len(),
        pred_arc matches Some(e) ==> e < old(edges)@.len(),
        depth >= unvisited(blocks@.len() as nat, old(visited)@),
    ensures
        (Flow { edges: final(edges)@, visited: final(visited)@ }, excess) == propagate_block(
            block_views(blocks@),
            Flow { edges: old(edges)@, visited: old(visited)@ },
            block_no,
            pred_arc,
            depth,
        ),
        same_edges(old(edges)@, final(edges)@),
        old(visited)@.subset_of(final(visited)@),
    decreases depth, 0nat,
{
    let ghost views = block_views(blocks@);
    let ghost start = Flow { edges: edges@, visited: visited@ };
    if !block_set_insert(visited, block_no) {
        assert(visited@ =~= start.visited);
        return 0;
    }
    let count = blocks.len();
    proof {
        lemma_unvisited_enter(count as nat, start.visited, block_no);
    }
    let positive_excess = propagate_edges(
        blocks,
        edges,
        block_no,
        pred_arc,
        visited,
        true,
        Ghost((depth - 1) as nat),
    );
    let ghost middle = Flow { edges: edges@, visited: visited@ };
    proof {
        lemma_linked_same(views, start.edges, edges@);
        lemma_unvisited_shrinks(blocks@.len() as nat, start.visited.insert(block_no), visited@);
    }
    let negative_excess = propagate_edges(
        blocks,
        edges,
        block_no,
        pred_arc,
        visited,
        false,
        Ghost((depth - 1) as nat),
    );
    proof {
        lemma_same_edges_trans(start.edges, middle.edges, edges@);
    }
    let excess = if positive_excess >= negative_excess {
        positive_excess - negative_excess
    } else {
        negative_excess - positive_excess
    };
    if let Some(id) = pred_arc {
        let ghost before = edges@;
        edges[id].counter = excess;
        proof {
            assert(edges@ =~= before.update(id as int, before[id as int].with_counter(excess)));
            assert(same_edges(before, edges@));
            lemma_same_edges_trans(start.edges, before, edges@);
        }
    }
    excess
}

/// Finds the counters of the edges on the tree by propagation from every block.
pub(crate) fn propagate_all(blocks: &Vec<GcnoBlock>, edges: &mut Vec<GcnoEdge>)
    requires
        linked(block_views(blocks@), old(edges)@),
    ensures
        final(edges)@ == propagated(block_views(blocks@), old(edges)@),
        same_edges(old(edges)@, final(edges)@),
{
    let ghost views = block_views(blocks@);
    let ghost start = Flow { edges: edges@, visited: Set::empty() };
    let mut visited: FxHashSet<usize> = FxHashSet::default();
    let count = blocks.len();
    let mut block_id: usize = 0;
    while block_id < count
        invariant
            block_id <= count == blocks@.len(),
            views == block_views(blocks@),
            linked(views, edges@),
            same_edges(start.edges, edges@),
            propagate_from(views, Flow { edges: edges@, visited: visited@ }, block_id as int)
                == propagate_from(views, start, 0),
        decreases count - block_id,
    {
        let ghost before = edges@;
        proof {
            lemma_unvisited_bound(count as nat, visited@);
        }
        propagate_counts(blocks, edges, block_id, None, &mut visited, Ghost(count as nat));
        proof {
            lemma_same_edges_trans(start.edges, before, edges@);
            lemma_linked_same(views, before, edges@);
        }
        block_id += 1;
    }
}

/// The block that the closing edge leaves: the exit block.
pub open spec fn sink_of(f: FunctionView, version: u32) -> usize {
    if version < VERSION_EXIT_SECOND {
        (f.blocks.len() - 1) as usize
    } else {
        1
    }
}

/// The function with the closing edge, which leads from the exit block back to block 0
/// and is on the tree. It is entered in the outgoing list of the exit block, behind the
/// edges that lead to block 0, and appended to the incoming list of block 0.
pub open spec fn closed(f: FunctionView, version: u32) -> FunctionView {
    let e = f.edges.len() as usize;
    let sink = sink_of(f, version);
    let exit = f.blocks[sink as int];
    let at = first_beyond(exit.dst, f.edges, 0, 0);
    let blocks = f.blocks.update(sink as int, BlockView { dst: exit.dst.insert(at, e), ..exit });
    FunctionView {
        edges: f.edges.push(
            GcnoEdge { src: sink, dst: 0, flags: GCOV_ARC_ON_TREE, counter: 0, cycles: 0 },
        ),
        blocks: blocks.update(0, BlockView { src: blocks[0].src.push(e), ..blocks[0] }),
        ..f
    }
}

/// The blocks after the counters of the edges on the tree were added to the blocks that
/// the edges leave, for the first `left` edges, the last of them first.
pub open spec fn deposited(blocks: Seq<BlockView>, edges: Seq<GcnoEdge>, left: int) -> Seq<
    BlockView,
>
    decreases left,
{
    if left <= 0 || left > edges.len() {
        blocks
    } else {
        let edge = edges[left - 1];
        let next = if edge.on_tree() && edge.src < blocks.len() {
            blocks.update(
                edge.src as int,
                BlockView {
                    counter: blocks[edge.src as int].counter.saturating_add(edge.counter),
                    ..blocks[edge.src as int]
                },
            )
        } else {
            blocks
        };
        deposited(next, edges, left - 1)
    }
}

/// The function with the counters of all its edges and blocks: the cycle is closed, the
/// edges on the tree get their counters by propagation, and their counters are added to
/// the blocks. A function of fewer than two blocks stays as it is.
pub open spec fn reconciled(f: FunctionView, version: u32) -> FunctionView {
    if f.blocks.len() < 2 {
        f
    } else {
        let c = closed(f, version);
        let edges = propagated(c.blocks, c.edges);
        FunctionView { edges, blocks: deposited(c.blocks, edges, edges.len() as int), ..c }
    }
}

/// A well-formed function with its cycle closed is linked.
pub proof fn lemma_closed_linked(f: FunctionView, version: u32)
    requires
        f.wf(),
        f.blocks.len() >= 2,
        f.edges.len() < usize::MAX,
    ensures
        linked(closed(f, version).blocks, closed(f, version).edges),
{
    let c = closed(f, version);
    let e = f.edges.len() as usize;
    let sink = sink_of(f, version);
    let exit = f.blocks[sink as int];
    let at = first_beyond(exit.dst, f.edges, 0, 0);
    crate::graph::lemma_first_beyond_bounds(exit.dst, f.edges, 0, 0);
    let outgoing = exit.dst.insert(at, e);
    assert forall|k: int| 0 <= k < outgoing.len() implies #[trigger] outgoing[k] == (if k < at {
        exit.dst[k]
    } else if k == at {
        e
    } else {
        exit.dst[k - 1]
    }) by {}
    assert forall|x: int| 0 <= x < c.edges.len() implies (#[trigger] c.edges[x]).src
        < c.blocks.len() && c.edges[x].dst < c.blocks.len() by {
        if x < f.edges.len() {
            assert(f.edges[x].src < f.blocks.len());
        }
    }
    assert forall|b: int, k: int| 0 <= b < c.blocks.len() && 0 <= k < c.blocks[b].src.len() implies (
    #[trigger] c.blocks[b].src[k]) < c.edges.len() by {
        if k < f.blocks[b].src.len() {
            assert(f.blocks[b].src[k] < f.edges.len());
        }
    }
    assert forall|b: int, k: int| 0 <= b < c.blocks.len() && 0 <= k < c.blocks[b].dst.len() implies (
    #[trigger] c.blocks[b].dst[k]) < c.edges.len() by {
        if b == sink {
            if k < at {
                assert(f.blocks[b].dst[k] < f.edges.len());
            } else if k > at {
                assert(f.blocks[b].dst[k - 1] < f.edges.len());
            }
        } else {
            assert(f.blocks[b].dst[k] < f.edges.len());
        }
    }
}

/// Closes the cycle of a function of at least two blocks.
fn close_cycle(function: &mut GcnoFunction, version: u32)
    requires
        old(function)@.wf(),
        old(function).blocks@.len() >= 2,
    ensures
        final(function)@ == closed(old(function)@, version),
        linked(final(function)@.blocks, final(function)@.edges),
        final(function).blocks@.len() == old(function).blocks@.len(),
        old(function).edges@.len() < usize::MAX,
{
    let ghost before = function@;
    let sink_id = if version < VERSION_EXIT_SECOND {
        function.blocks.len() - 1
    } else {
        1
    };
    let edges_cnt = function.edges.len();
    proof {
        assert forall|k: int| 0 <= k < function.blocks@[sink_id as int].dst@.len() implies function.blocks@[sink_id as int].dst@[k]
            < function.edges@.len() by {
            assert(before.blocks[sink_id as int].dst[k] < before.edges.len());
        }
        assert(before.lists_ordered());
        assert(sorted_by_destination(before.blocks[sink_id as int].dst, before.edges));
    }
    let at = insertion_point(&function.blocks[sink_id].dst, &function.edges, 0);
    function.edges.push(
        GcnoEdge { src: sink_id, dst: 0, flags: GCOV_ARC_ON_TREE, counter: 0, cycles: 0 },
    );
    let edges = function.edges.len();
    assert(edges_cnt + 1 == edges);
    function.blocks[sink_id].dst.insert(at, edges_cnt);
    function.blocks[0].src.push(edges_cnt);
    proof {
        assert(function@.blocks =~= closed(before, version).blocks);
        assert(function@ =~= closed(before, version));
        lemma_closed_linked(before, version);
    }
}

/// Adds the counter of every edge on the tree to the block that the edge leaves.
fn deposit(blocks: &mut Vec<GcnoBlock>, edges: &Vec<GcnoEdge>)
    requires
        linked(block_views(old(blocks)@), edges@),
    ensures
        block_views(final(blocks)@) == deposited(
            block_views(old(blocks)@),
            edges@,
            edges@.len() as int,
        ),
{
    let ghost start = block_views(blocks@);
    let mut left: usize = edges.len();
    while left > 0
        invariant
            left <= edges@.len(),
            blocks@.len() == start.len(),
            forall|e: int| 0 <= e < edges@.len() ==> (#[trigger] edges@[e]).src < blocks@.len(),
            deposited(block_views(blocks@), edges@, left as int) == deposited(
                start,
                edges@,
                edges@.len() as int,
            ),
        decreases left,
    {
        let edge = edges[left - 1];
        if edge.is_on_tree() {
            let ghost views = block_views(blocks@);
            assert(edges@[left - 1].src < blocks@.len());
            let counter = blocks[edge.src].counter.saturating_add(edge.counter);
            blocks[edge.src].counter = counter;
            assert(block_views(blocks@) =~= views.update(
                edge.src as int,
                BlockView { counter, ..views[edge.src as int] },
            ));
        }
        left -= 1;
    }
}

/// Finds the counters of all edges and blocks of a function.
fn reconcile(function: &mut GcnoFunction, version: u32)
    requires
        old(function)@.wf(),
    ensures
        final(function)@ == reconciled(old(function)@, version),
        roomy(old(function)@),
{
    if function.blocks.len() < 2 {
        return ;
    }
    close_cycle(function, version);
    let ghost c = function@;
    propagate_all(&function.blocks, &mut function.edges);
    proof {
        lemma_linked_same(c.blocks, c.edges, function.edges@);
    }
    deposit(&mut function.blocks, &function.edges);
    proof {
        assert(function@ =~= reconciled(old(function)@, version));
    }
}

/// The functions of the notes, each with the counters of all its edges and blocks.
pub open spec fn all_reconciled(g: GcnoView) -> Seq<FunctionView> {
    g.functions.map_values(|f: FunctionView| reconciled(f, g.version))
}

/// Finds the counters of the edges on the tree, and with them those of the blocks, in
/// every function of the notes.
pub(crate) fn account_on_tree_arcs(gcno: &mut Gcno)
    requires
        old(gcno).wf(),
    ensures
        function_views(final(gcno).functions@) == all_reconciled(old(gcno)@),
        final(gcno).cwd == old(gcno).cwd,
        final(gcno).version == old(gcno).version,
        notes_roomy(old(gcno)@),
{
    let ghost before = gcno@;
    let version = gcno.version;
    let mut i: usize = 0;
    while i < gcno.functions.len()
        invariant
            i <= gcno.functions@.len() == before.functions.len(),
            gcno.cwd == old(gcno).cwd,
            gcno.version == old(gcno).version,
            before == old(gcno)@,
            before.wf(),
            version == before.version,
            forall|j: int|
                0 <= j < i ==> (#[trigger] gcno.functions@[j])@ == reconciled(
                    before.functions[j],
                    version,
                ),
            forall|j: int| 0 <= j < i ==> roomy(#[trigger] before.functions[j]),
            forall|j: int|
                i <= j < gcno.functions@.len() ==> (#[trigger] gcno.functions@[j])@
                    == before.functions[j],
        decreases gcno.functions@.len() - i,
    {
        assert(before.functions[i as int].wf());
        reconcile(&mut gcno.functions[i], version);
        i += 1;
    }
    assert(function_views(gcno.functions@) =~= all_reconciled(before));
}

} // verus!
