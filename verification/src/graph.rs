//! The control-flow graphs of the notes and what makes them well formed.

use vstd::prelude::*;
use std::collections::HashMap;
use fxhash::FxHashMap;

verus! {

/// The flag of an edge whose counter is not stored in the data file.
pub const GCOV_ARC_ON_TREE: u32 = 1;

/// The flag of an edge that stands for an abnormal exit.
pub const GCOV_ARC_FAKE: u32 = 2;

/// An edge of a function's control-flow graph.
#[derive(Clone, Copy, Debug, PartialEq, Eq)]
pub struct GcnoEdge {
    pub src: usize,
    pub dst: usize,
    pub flags: u32,
    pub counter: u64,
    pub cycles: u64,
}

impl GcnoEdge {
    /// The edge belongs to the spanning tree.
    pub open spec fn on_tree(self) -> bool {
        self.flags & GCOV_ARC_ON_TREE != 0
    }

    pub fn is_on_tree(&self) -> (r: bool)
        ensures
            r == self.on_tree(),
    {
        (self.flags & GCOV_ARC_ON_TREE) != 0
    }

    /// The same edge with another counter.
    pub open spec fn with_counter(self, counter: u64) -> GcnoEdge {
        GcnoEdge { counter, ..self }
    }
}

/// A basic block. `src` is its incoming and `dst` its outgoing list of edges, by their
/// positions among the function's edges. The decoder enters an edge in both lists of the
/// block that the edge leaves.
#[derive(Debug)]
pub struct GcnoBlock {
    pub block_id: usize,
    pub src: Vec<usize>,
    pub dst: Vec<usize>,
    pub lines: Vec<u32>,
    pub line_max: u32,
    pub counter: u64,
}

/// What a block holds.
#[verifier::ext_equal]
pub struct BlockView {
    pub block_id: usize,
    pub src: Seq<usize>,
    pub dst: Seq<usize>,
    pub lines: Seq<u32>,
    pub line_max: u32,
    pub counter: u64,
}

impl BlockView {
    /// A block without edges or lines.
    pub open spec fn fresh(block_id: usize) -> BlockView {
        BlockView {
            block_id,
            src: Seq::empty(),
            dst: Seq::empty(),
            lines: Seq::empty(),
            line_max: 0,
            counter: 0,
        }
    }
}

impl View for GcnoBlock {
    type V = BlockView;

    open spec fn view(&self) -> BlockView {
        BlockView {
            block_id: self.block_id,
            src: self.src@,
            dst: self.dst@,
            lines: self.lines@,
            line_max: self.line_max,
            counter: self.counter,
        }
    }
}

impl GcnoBlock {
    #[inline]
    pub fn new(block_id: usize) -> (r: Self)
        ensures
            r@ == BlockView::fresh(block_id),
    {
        Self {
            block_id,
            src: Vec::new(),
            dst: Vec::new(),
            lines: Vec::new(),
            line_max: 0,
            counter: 0,
        }
    }
}

impl Clone for GcnoBlock {
    fn clone(&self) -> (r: Self)
        ensures
            r@ == self@,
    {
        let src = self.src.clone();
        let dst = self.dst.clone();
        let lines = self.lines.clone();
        assert(src@ =~= self.src@);
        assert(dst@ =~= self.dst@);
        assert(lines@ =~= self.lines@);
        Self { block_id: self.block_id, src, dst, lines, line_max: self.line_max, counter: self.counter }
    }
}

/// A function of the note file.
#[derive(Debug)]
pub struct GcnoFunction {
    pub ident: u32,
    pub line_chksum: u32,
    pub cfg_chksum: Option<u32>,
    pub name: String,
    pub artificial: Option<u32>,
    pub file_name: String,
    pub start_line: u32,
    pub start_col: Option<u32>,
    pub end_line: Option<u32>,
    pub end_col: Option<u32>,
    pub lines: HashMap<u32, u64>,
    pub blocks: Vec<GcnoBlock>,
    pub edges: Vec<GcnoEdge>,
    pub real_edge_cnt: usize,
    pub executed: bool,
}

/// What a function holds.
#[verifier::ext_equal]
pub struct FunctionView {
    pub ident: u32,
    pub line_chksum: u32,
    pub cfg_chksum: Option<u32>,
    pub name: Seq<char>,
    pub artificial: Option<u32>,
    pub file_name: Seq<char>,
    pub start_line: u32,
    pub start_col: Option<u32>,
    pub end_line: Option<u32>,
    pub end_col: Option<u32>,
    pub lines: Map<u32, u64>,
    pub blocks: Seq<BlockView>,
    pub edges: Seq<GcnoEdge>,
    pub real_edge_cnt: usize,
    pub executed: bool,
}

/// What each block of a list holds.
pub open spec fn block_views(blocks: Seq<GcnoBlock>) -> Seq<BlockView> {
    blocks.map_values(|b: GcnoBlock| b@)
}

impl View for GcnoFunction {
    type V = FunctionView;

    open spec fn view(&self) -> FunctionView {
        FunctionView {
            ident: self.ident,
            line_chksum: self.line_chksum,
            cfg_chksum: self.cfg_chksum,
            name: self.name@,
            artificial: self.artificial,
            file_name: self.file_name@,
            start_line: self.start_line,
            start_col: self.start_col,
            end_line: self.end_line,
            end_col: self.end_col,
            lines: self.lines@,
            blocks: block_views(self.blocks@),
            edges: self.edges@,
            real_edge_cnt: self.real_edge_cnt,
            executed: self.executed,
        }
    }
}

impl Clone for GcnoFunction {
    fn clone(&self) -> (r: Self)
        ensures
            r@ == self@,
    {
        let blocks = self.blocks.clone();
        let edges = self.edges.clone();
        proof {
            assert(block_views(blocks@) =~= block_views(self.blocks@));
            assert(edges@ =~= self.edges@);
        }
        Self {
            ident: self.ident,
            line_chksum: self.line_chksum,
            cfg_chksum: self.cfg_chksum,
            name: self.name.clone(),
            artificial: self.artificial,
            file_name: self.file_name.clone(),
            start_line: self.start_line,
            start_col: self.start_col,
            end_line: self.end_line,
            end_col: self.end_col,
            lines: self.lines.clone(),
            blocks,
            edges,
            real_edge_cnt: self.real_edge_cnt,
            executed: self.executed,
        }
    }
}

/// The number of edges of `edges` that are not on the spanning tree.
pub open spec fn count_off_tree(edges: Seq<GcnoEdge>) -> nat
    decreases edges.len(),
{
    if edges.len() == 0 {
        0
    } else {
        count_off_tree(edges.drop_last()) + if edges.last().on_tree() {
            0nat
        } else {
            1nat
        }
    }
}

/// No edge on the spanning tree has a count: such counts are found when the coverage is
/// built.
pub open spec fn tree_uncounted(edges: Seq<GcnoEdge>) -> bool {
    forall|e: int| 0 <= e < edges.len() && (#[trigger] edges[e]).on_tree() ==> edges[e].counter == 0
}

/// The function leaves room for the edge that closes its cycle, which a function of two
/// blocks or more gets when the coverage is built.
pub open spec fn roomy(f: FunctionView) -> bool {
    f.blocks.len() <= usize::MAX && (f.blocks.len() >= 2 ==> f.edges.len() < usize::MAX)
}

/// The entries of `list` are edges, and their destinations do not decrease.
pub open spec fn sorted_by_destination(list: Seq<usize>, edges: Seq<GcnoEdge>) -> bool {
    forall|i: int, j: int|
        0 <= i <= j < list.len() ==> edges[list[i] as int].dst <= edges[list[j] as int].dst
}

/// The first place from `from` on where `list` holds an edge that goes beyond block `dst`;
/// the length of `list` if there is none.
pub open spec fn first_beyond(list: Seq<usize>, edges: Seq<GcnoEdge>, dst: usize, from: int) -> int
    decreases list.len() - from,
{
    if from < 0 || from >= list.len() {
        list.len() as int
    } else if edges[list[from] as int].dst > dst {
        from
    } else {
        first_beyond(list, edges, dst, from + 1)
    }
}

impl FunctionView {
    /// Every edge joins two blocks.
    pub open spec fn edges_join_blocks(self) -> bool {
        forall|e: int|
            0 <= e < self.edges.len() ==> (#[trigger] self.edges[e]).src < self.blocks.len()
                && self.edges[e].dst < self.blocks.len()
    }

    /// The outgoing list of a block holds edges that leave it.
    pub open spec fn outgoing_listed(self) -> bool {
        forall|b: int, k: int|
            0 <= b < self.blocks.len() && 0 <= k < self.blocks[b].dst.len() ==> (
            #[trigger] self.blocks[b].dst[k]) < self.edges.len()
                && self.edges[self.blocks[b].dst[k] as int].src == b
    }

    /// The incoming list of a block holds edges that leave it: an edge is entered in both
    /// lists of its source.
    pub open spec fn incoming_listed(self) -> bool {
        forall|b: int, k: int|
            0 <= b < self.blocks.len() && 0 <= k < self.blocks[b].src.len() ==> (
            #[trigger] self.blocks[b].src[k]) < self.edges.len()
                && self.edges[self.blocks[b].src[k] as int].src == b
    }

    /// No list holds an edge twice, and every outgoing list is sorted by destination.
    pub open spec fn lists_ordered(self) -> bool {
        forall|b: int|
            0 <= b < self.blocks.len() ==> (#[trigger] self.blocks[b]).dst.no_duplicates()
                && self.blocks[b].src.no_duplicates() && sorted_by_destination(
                self.blocks[b].dst,
                self.edges,
            )
    }

    /// Every edge is in both lists of its source.
    pub open spec fn edges_listed(self) -> bool {
        forall|e: int|
            0 <= e < self.edges.len() ==> self.blocks[(#[trigger] self.edges[e]).src as int].dst.contains(
                e as usize,
            ) && self.blocks[self.edges[e].src as int].src.contains(e as usize)
    }

    /// The edges and blocks refer to each other as they should: every edge joins two
    /// blocks; a block's two lists hold edges that leave it, each once; every edge is in
    /// both lists of its source, and so in exactly one outgoing and one incoming list; the
    /// outgoing lists are sorted by destination; `real_edge_cnt` counts the edges off the
    /// spanning tree; and no edge on the tree has a count yet.
    pub open spec fn wf(self) -> bool {
        &&& self.edges_join_blocks()
        &&& self.outgoing_listed()
        &&& self.incoming_listed()
        &&& self.lists_ordered()
        &&& self.edges_listed()
        &&& self.real_edge_cnt == count_off_tree(self.edges)
        &&& tree_uncounted(self.edges)
    }

    /// The function with `n` more blocks, numbered from 0.
    pub open spec fn with_blocks(self, n: nat) -> FunctionView {
        FunctionView {
            blocks: self.blocks + Seq::new(n, |i: int| BlockView::fresh(i as usize)),
            ..self
        }
    }

    /// The function with one more edge, from block `b` to block `dst`: the edge is appended
    /// to the edges and to the incoming list of `b`, and entered in the outgoing list of `b`
    /// behind the edges that go no further than `dst`.
    pub open spec fn with_arc(self, b: usize, dst: usize, flags: u32) -> FunctionView {
        let e = self.edges.len() as usize;
        let block = self.blocks[b as int];
        let at = first_beyond(block.dst, self.edges, dst, 0);
        FunctionView {
            edges: self.edges.push(GcnoEdge { src: b, dst, flags, counter: 0, cycles: 0 }),
            blocks: self.blocks.update(
                b as int,
                BlockView { dst: block.dst.insert(at, e), src: block.src.push(e), ..block },
            ),
            real_edge_cnt: if flags & GCOV_ARC_ON_TREE == 0 {
                (self.real_edge_cnt + 1) as usize
            } else {
                self.real_edge_cnt
            },
            ..self
        }
    }

    /// The function with `count` added to edge `e` and to the block that the edge leaves.
    /// A counter that would go beyond 64 bits stays at the largest count.
    pub open spec fn counted(self, e: int, count: u64) -> FunctionView {
        let edge = self.edges[e];
        let block = self.blocks[edge.src as int];
        FunctionView {
            edges: self.edges.update(e, edge.with_counter(edge.counter.saturating_add(count))),
            blocks: self.blocks.update(
                edge.src as int,
                BlockView { counter: block.counter.saturating_add(count), ..block },
            ),
            ..self
        }
    }

    /// The function with `line` recorded, unexecuted, for block `b`.
    pub open spec fn with_line(self, b: usize, line: u32) -> FunctionView {
        let block = self.blocks[b as int];
        FunctionView {
            lines: self.lines.insert(line, 0),
            blocks: self.blocks.update(
                b as int,
                BlockView {
                    line_max: if block.line_max >= line {
                        block.line_max
                    } else {
                        line
                    },
                    ..block
                },
            ),
            ..self
        }
    }
}

/// The number of edges off the tree is at most the number of edges.
pub proof fn lemma_count_off_tree_bound(edges: Seq<GcnoEdge>)
    ensures
        count_off_tree(edges) <= edges.len(),
    decreases edges.len(),
{
    if edges.len() > 0 {
        lemma_count_off_tree_bound(edges.drop_last());
    }
}

/// Where `first_beyond` points: behind edges that go no further than `dst`, and at one
/// that goes further, if any is left.
pub proof fn lemma_first_beyond_bounds(list: Seq<usize>, edges: Seq<GcnoEdge>, dst: usize, from: int)
    requires
        0 <= from <= list.len(),
    ensures
        from <= first_beyond(list, edges, dst, from) <= list.len(),
        forall|j: int|
            from <= j < first_beyond(list, edges, dst, from) ==> edges[list[j] as int].dst <= dst,
        first_beyond(list, edges, dst, from) < list.len() ==> edges[list[first_beyond(
            list,
            edges,
            dst,
            from,
        )] as int].dst > dst,
    decreases list.len() - from,
{
    if from < list.len() && edges[list[from] as int].dst <= dst {
        lemma_first_beyond_bounds(list, edges, dst, from + 1);
    }
}

/// A place behind edges that go no further than `dst`, and at one that goes further or at
/// the end, is where `first_beyond` points.
pub proof fn lemma_first_beyond_is(
    list: Seq<usize>,
    edges: Seq<GcnoEdge>,
    dst: usize,
    from: int,
    at: int,
)
    requires
        0 <= from <= at <= list.len(),
        forall|j: int| from <= j < at ==> edges[list[j] as int].dst <= dst,
        at < list.len() ==> edges[list[at] as int].dst > dst,
    ensures
        first_beyond(list, edges, dst, from) == at,
    decreases at - from,
{
    if from < at {
        lemma_first_beyond_is(list, edges, dst, from + 1, at);
    }
}

/// Adding blocks keeps a function well formed.
pub proof fn lemma_with_blocks_wf(f: FunctionView, n: nat)
    requires
        f.wf(),
    ensures
        f.with_blocks(n).wf(),
{
    let g = f.with_blocks(n);
    assert forall|b: int| 0 <= b < g.blocks.len() implies (b < f.blocks.len() ==> g.blocks[b]
        == f.blocks[b]) && (b >= f.blocks.len() ==> g.blocks[b] == BlockView::fresh(
        (b - f.blocks.len()) as usize,
    )) by {}
    assert forall|e: int| 0 <= e < g.edges.len() implies g.blocks[(#[trigger] g.edges[e]).src as int].dst.contains(
        e as usize,
    ) && g.blocks[g.edges[e].src as int].src.contains(e as usize) by {
        assert(f.edges[e].src < f.blocks.len());
    }
}

/// Recording a line keeps a function well formed.
pub proof fn lemma_with_line_wf(f: FunctionView, b: usize, line: u32)
    requires
        f.wf(),
        b < f.blocks.len(),
    ensures
        f.with_line(b, line).wf(),
{
    let g = f.with_line(b, line);
    assert forall|c: int| 0 <= c < g.blocks.len() implies (#[trigger] g.blocks[c]).dst
        == f.blocks[c].dst && g.blocks[c].src == f.blocks[c].src by {}
    assert forall|e: int| 0 <= e < g.edges.len() implies g.blocks[(#[trigger] g.edges[e]).src as int].dst.contains(
        e as usize,
    ) && g.blocks[g.edges[e].src as int].src.contains(e as usize) by {
        assert(f.edges[e].src < f.blocks.len());
    }
}

/// What an outgoing list holds once an edge is entered at `at`.
proof fn lemma_inserted(list: Seq<usize>, at: int, e: usize)
    requires
        0 <= at <= list.len(),
    ensures
        list.insert(at, e).len() == list.len() + 1,
        forall|k: int|
            0 <= k < list.len() + 1 ==> #[trigger] list.insert(at, e)[k] == (if k < at {
                list[k]
            } else if k == at {
                e
            } else {
                list[k - 1]
            }),
{
}

proof fn lemma_with_arc_outgoing(f: FunctionView, b: usize, dst: usize, flags: u32)
    requires
        f.wf(),
        b < f.blocks.len(),
        dst < f.blocks.len(),
        f.edges.len() < usize::MAX,
    ensures
        f.with_arc(b, dst, flags).outgoing_listed(),
        f.with_arc(b, dst, flags).edges_join_blocks(),
{
    let g = f.with_arc(b, dst, flags);
    let e = f.edges.len() as usize;
    let block = f.blocks[b as int];
    let at = first_beyond(block.dst, f.edges, dst, 0);
    lemma_first_beyond_bounds(block.dst, f.edges, dst, 0);
    lemma_inserted(block.dst, at, e);
    let outgoing = block.dst.insert(at, e);
    assert(g.blocks[b as int].dst == outgoing);
    assert forall|c: int, k: int|
        0 <= c < g.blocks.len() && 0 <= k < g.blocks[c].dst.len() implies (
    #[trigger] g.blocks[c].dst[k]) < g.edges.len() && g.edges[g.blocks[c].dst[k] as int].src
        == c by {
        if c == b {
            if k < at {
                assert(f.blocks[c].dst[k] < f.edges.len());
            } else if k > at {
                assert(f.blocks[c].dst[k - 1] < f.edges.len());
            }
        } else {
            assert(g.blocks[c] == f.blocks[c]);
            assert(f.blocks[c].dst[k] < f.edges.len());
        }
    }
    assert forall|x: int| 0 <= x < g.edges.len() implies (#[trigger] g.edges[x]).src
        < g.blocks.len() && g.edges[x].dst < g.blocks.len() by {
        if x < f.edges.len() {
            assert(f.edges[x].src < f.blocks.len());
        }
    }
}

proof fn lemma_with_arc_incoming(f: FunctionView, b: usize, dst: usize, flags: u32)
    requires
        f.wf(),
        b < f.blocks.len(),
        dst < f.blocks.len(),
        f.edges.len() < usize::MAX,
    ensures
        f.with_arc(b, dst, flags).incoming_listed(),
{
    let g = f.with_arc(b, dst, flags);
    let block = f.blocks[b as int];
    assert forall|c: int, k: int|
        0 <= c < g.blocks.len() && 0 <= k < g.blocks[c].src.len() implies (
    #[trigger] g.blocks[c].src[k]) < g.edges.len() && g.edges[g.blocks[c].src[k] as int].src
        == c by {
        if c == b {
            if k < block.src.len() {
                assert(f.blocks[c].src[k] < f.edges.len());
            }
        } else {
            assert(g.blocks[c] == f.blocks[c]);
            assert(f.blocks[c].src[k] < f.edges.len());
        }
    }
}

proof fn lemma_with_arc_ordered(f: FunctionView, b: usize, dst: usize, flags: u32)
    requires
        f.wf(),
        b < f.blocks.len(),
        dst < f.blocks.len(),
        f.edges.len() < usize::MAX,
    ensures
        f.with_arc(b, dst, flags).lists_ordered(),
{
    let g = f.with_arc(b, dst, flags);
    let e = f.edges.len() as usize;
    let block = f.blocks[b as int];
    let at = first_beyond(block.dst, f.edges, dst, 0);
    lemma_first_beyond_bounds(block.dst, f.edges, dst, 0);
    lemma_inserted(block.dst, at, e);
    let outgoing = block.dst.insert(at, e);
    let incoming = block.src.push(e);
    assert(g.blocks[b as int].dst == outgoing);
    assert(g.blocks[b as int].src == incoming);
    assert forall|k: int| 0 <= k < block.dst.len() implies #[trigger] block.dst[k]
        < f.edges.len() by {
        assert(f.blocks[b as int].dst[k] < f.edges.len());
    }
    assert forall|k: int| 0 <= k < block.src.len() implies #[trigger] block.src[k]
        < f.edges.len() by {
        assert(f.blocks[b as int].src[k] < f.edges.len());
    }
    assert(f.blocks[b as int].dst.no_duplicates());
    assert(sorted_by_destination(block.dst, f.edges));
    assert(outgoing.no_duplicates()) by {
        assert forall|i: int, j: int|
            0 <= i < outgoing.len() && 0 <= j < outgoing.len() && i != j implies outgoing[i]
            != outgoing[j] by {
            let oi = if i < at { i } else { i - 1 };
            let oj = if j < at { j } else { j - 1 };
            if i != at && j != at {
                assert(block.dst[oi] != block.dst[oj]);
            } else if i != at {
                assert(block.dst[oi] < f.edges.len());
            } else {
                assert(block.dst[oj] < f.edges.len());
            }
        }
    }
    assert(incoming.no_duplicates());
    assert(sorted_by_destination(outgoing, g.edges)) by {
        assert forall|i: int, j: int| 0 <= i <= j < outgoing.len() implies g.edges[outgoing[i] as int].dst
            <= g.edges[outgoing[j] as int].dst by {
            let oi = if i < at { i } else { i - 1 };
            let oj = if j < at { j } else { j - 1 };
            if i != at {
                assert(block.dst[oi] < f.edges.len());
            }
            if j != at {
                assert(block.dst[oj] < f.edges.len());
            }
            if i != at && j != at {
                assert(f.edges[block.dst[oi] as int].dst <= f.edges[block.dst[oj] as int].dst);
            } else if i == at && j != at {
                assert(f.edges[block.dst[at] as int].dst <= f.edges[block.dst[oj] as int].dst);
            }
        }
    }
    assert forall|c: int| 0 <= c < g.blocks.len() implies (#[trigger] g.blocks[c]).dst.no_duplicates()
        && g.blocks[c].src.no_duplicates() && sorted_by_destination(g.blocks[c].dst, g.edges) by {
        if c != b {
            assert(g.blocks[c] == f.blocks[c]);
            assert(f.blocks[c].dst.no_duplicates());
            assert(sorted_by_destination(f.blocks[c].dst, f.edges));
            assert forall|i: int, j: int| 0 <= i <= j < f.blocks[c].dst.len() implies g.edges[f.blocks[c].dst[i] as int].dst
                <= g.edges[f.blocks[c].dst[j] as int].dst by {
                assert(f.blocks[c].dst[i] < f.edges.len());
                assert(f.blocks[c].dst[j] < f.edges.len());
            }
        }
    }
}

proof fn lemma_with_arc_listed(f: FunctionView, b: usize, dst: usize, flags: u32)
    requires
        f.wf(),
        b < f.blocks.len(),
        dst < f.blocks.len(),
        f.edges.len() < usize::MAX,
    ensures
        f.with_arc(b, dst, flags).edges_listed(),
{
    let g = f.with_arc(b, dst, flags);
    let e = f.edges.len() as usize;
    let block = f.blocks[b as int];
    let at = first_beyond(block.dst, f.edges, dst, 0);
    lemma_first_beyond_bounds(block.dst, f.edges, dst, 0);
    lemma_inserted(block.dst, at, e);
    let outgoing = block.dst.insert(at, e);
    let incoming = block.src.push(e);
    assert(g.blocks[b as int].dst == outgoing);
    assert(g.blocks[b as int].src == incoming);
    assert forall|x: int| 0 <= x < g.edges.len() implies g.blocks[(#[trigger] g.edges[x]).src as int].dst.contains(
        x as usize,
    ) && g.blocks[g.edges[x].src as int].src.contains(x as usize) by {
        if x < f.edges.len() {
            let c = f.edges[x].src as int;
            assert(g.edges[x] == f.edges[x]);
            assert(f.blocks[c].dst.contains(x as usize));
            assert(f.blocks[c].src.contains(x as usize));
            if c == b {
                let i = choose|i: int| 0 <= i < block.dst.len() && block.dst[i] == x as usize;
                if i < at {
                    assert(outgoing[i] == x as usize);
                } else {
                    assert(outgoing[i + 1] == x as usize);
                }
                let j = choose|j: int| 0 <= j < block.src.len() && block.src[j] == x as usize;
                assert(incoming[j] == x as usize);
            } else {
                assert(g.blocks[c] == f.blocks[c]);
            }
        } else {
            assert(outgoing[at] == e);
            assert(incoming[block.src.len() as int] == e);
        }
    }
}

/// Adding an edge between two blocks keeps a function well formed.
pub proof fn lemma_with_arc_wf(f: FunctionView, b: usize, dst: usize, flags: u32)
    requires
        f.wf(),
        b < f.blocks.len(),
        dst < f.blocks.len(),
        f.edges.len() < usize::MAX,
    ensures
        f.with_arc(b, dst, flags).wf(),
{
    lemma_with_arc_outgoing(f, b, dst, flags);
    lemma_with_arc_incoming(f, b, dst, flags);
    lemma_with_arc_ordered(f, b, dst, flags);
    lemma_with_arc_listed(f, b, dst, flags);
    lemma_count_off_tree_bound(f.edges);
    assert(f.with_arc(b, dst, flags).edges.drop_last() == f.edges);
    assert(tree_uncounted(f.with_arc(b, dst, flags).edges)) by {
        let g = f.with_arc(b, dst, flags);
        assert forall|e: int| 0 <= e < g.edges.len() && (#[trigger] g.edges[e]).on_tree() implies g.edges[e].counter
            == 0 by {
            if e < f.edges.len() {
                assert(g.edges[e] == f.edges[e]);
            }
        }
    }
}

/// `g` has the blocks, edges and lists of `f`; only the counters of blocks and of edges
/// off the tree may differ, and lines.
pub open spec fn same_shape(f: FunctionView, g: FunctionView) -> bool {
    &&& g.blocks.len() == f.blocks.len()
    &&& g.edges.len() == f.edges.len()
    &&& g.real_edge_cnt == f.real_edge_cnt
    &&& g.ident == f.ident
    &&& forall|b: int|
        0 <= b < f.blocks.len() ==> (#[trigger] g.blocks[b]).src == f.blocks[b].src
            && g.blocks[b].dst == f.blocks[b].dst
    &&& forall|e: int|
        0 <= e < f.edges.len() ==> (#[trigger] g.edges[e]).src == f.edges[e].src && g.edges[e].dst
            == f.edges[e].dst && g.edges[e].flags == f.edges[e].flags && (f.edges[e].on_tree()
            ==> g.edges[e].counter == f.edges[e].counter)
}

/// The count of edges off the tree depends on the flags alone.
pub proof fn lemma_count_off_tree_same(a: Seq<GcnoEdge>, b: Seq<GcnoEdge>)
    requires
        a.len() == b.len(),
        forall|e: int| 0 <= e < a.len() ==> (#[trigger] a[e]).flags == b[e].flags,
    ensures
        count_off_tree(a) == count_off_tree(b),
    decreases a.len(),
{
    if a.len() > 0 {
        lemma_count_off_tree_same(a.drop_last(), b.drop_last());
    }
}

/// A function of the same shape as a well-formed one is well formed.
pub proof fn lemma_same_shape_wf(f: FunctionView, g: FunctionView)
    requires
        f.wf(),
        same_shape(f, g),
    ensures
        g.wf(),
{
    lemma_count_off_tree_same(g.edges, f.edges);
    assert(tree_uncounted(g.edges)) by {
        assert forall|e: int| 0 <= e < g.edges.len() && (#[trigger] g.edges[e]).on_tree() implies g.edges[e].counter
            == 0 by {
            assert(f.edges[e].on_tree());
        }
    }
    assert(g.edges_join_blocks()) by {
        assert forall|e: int| 0 <= e < g.edges.len() implies (#[trigger] g.edges[e]).src
            < g.blocks.len() && g.edges[e].dst < g.blocks.len() by {
            assert(f.edges[e].src < f.blocks.len());
        }
    }
    assert(g.outgoing_listed()) by {
        assert forall|b: int, k: int|
            0 <= b < g.blocks.len() && 0 <= k < g.blocks[b].dst.len() implies (
        #[trigger] g.blocks[b].dst[k]) < g.edges.len() && g.edges[g.blocks[b].dst[k] as int].src
            == b by {
            assert(f.blocks[b].dst[k] < f.edges.len());
        }
    }
    assert(g.incoming_listed()) by {
        assert forall|b: int, k: int|
            0 <= b < g.blocks.len() && 0 <= k < g.blocks[b].src.len() implies (
        #[trigger] g.blocks[b].src[k]) < g.edges.len() && g.edges[g.blocks[b].src[k] as int].src
            == b by {
            assert(f.blocks[b].src[k] < f.edges.len());
        }
    }
    assert(g.lists_ordered()) by {
        assert forall|b: int| 0 <= b < g.blocks.len() implies (#[trigger] g.blocks[b]).dst.no_duplicates()
            && g.blocks[b].src.no_duplicates() && sorted_by_destination(g.blocks[b].dst, g.edges) by {
            assert(f.blocks[b].dst.no_duplicates());
            assert(sorted_by_destination(f.blocks[b].dst, f.edges));
            assert forall|i: int, j: int| 0 <= i <= j < g.blocks[b].dst.len() implies g.edges[g.blocks[b].dst[i] as int].dst
                <= g.edges[g.blocks[b].dst[j] as int].dst by {
                assert(f.blocks[b].dst[i] < f.edges.len());
                assert(f.blocks[b].dst[j] < f.edges.len());
            }
        }
    }
    assert(g.edges_listed()) by {
        assert forall|e: int| 0 <= e < g.edges.len() implies g.blocks[(#[trigger] g.edges[e]).src as int].dst.contains(
            e as usize,
        ) && g.blocks[g.edges[e].src as int].src.contains(e as usize) by {
            assert(f.edges[e].src < f.blocks.len());
            assert(f.blocks[f.edges[e].src as int].dst.contains(e as usize));
        }
    }
}

/// The notes of one translation unit.
#[derive(Debug)]
pub struct Gcno {
    pub version: u32,
    pub chksum: u32,
    pub cwd: Option<String>,
    pub ident_fn_idx: FxHashMap<u32, usize>,
    pub functions: Vec<GcnoFunction>,
}

/// What the notes hold.
#[verifier::ext_equal]
pub struct GcnoView {
    pub version: u32,
    pub chksum: u32,
    pub cwd: Option<Seq<char>>,
    pub ident_fn_idx: Map<u32, usize>,
    pub functions: Seq<FunctionView>,
}

/// What each function of a list holds.
pub open spec fn function_views(functions: Seq<GcnoFunction>) -> Seq<FunctionView> {
    functions.map_values(|f: GcnoFunction| f@)
}

/// The text of an optional string.
pub open spec fn option_text(s: Option<String>) -> Option<Seq<char>> {
    match s {
        Some(s) => Some(s@),
        None => None,
    }
}

impl View for Gcno {
    type V = GcnoView;

    open spec fn view(&self) -> GcnoView {
        GcnoView {
            version: self.version,
            chksum: self.chksum,
            cwd: option_text(self.cwd),
            ident_fn_idx: self.ident_fn_idx@,
            functions: function_views(self.functions@),
        }
    }
}

impl Clone for Gcno {
    fn clone(&self) -> (r: Self)
        ensures
            r@ == self@,
    {
        let functions = self.functions.clone();
        let cwd = match &self.cwd {
            Some(cwd) => Some(cwd.clone()),
            None => None,
        };
        proof {
            assert(function_views(functions@) =~= function_views(self.functions@));
        }
        Self {
            version: self.version,
            chksum: self.chksum,
            cwd,
            ident_fn_idx: self.ident_fn_idx.clone(),
            functions,
        }
    }
}

/// Every function of the notes leaves room for the edge that closes its cycle.
pub open spec fn notes_roomy(g: GcnoView) -> bool {
    forall|i: int| 0 <= i < g.functions.len() ==> roomy(#[trigger] g.functions[i])
}

impl GcnoView {
    /// Every function is well formed, and the table of identifiers leads to functions that
    /// bear them.
    pub open spec fn wf(self) -> bool {
        &&& forall|i: int| 0 <= i < self.functions.len() ==> (#[trigger] self.functions[i]).wf()
        &&& forall|id: u32| #[trigger]
            self.ident_fn_idx.contains_key(id) ==> self.ident_fn_idx[id] < self.functions.len()
                && self.functions[self.ident_fn_idx[id] as int].ident == id
        &&& forall|i: int|
            0 <= i < self.functions.len() ==> self.ident_fn_idx.contains_key(
                (#[trigger] self.functions[i]).ident,
            )
    }

    /// The notes with one more function, entered under its identifier.
    pub open spec fn with_function(self, f: FunctionView) -> GcnoView {
        GcnoView {
            ident_fn_idx: self.ident_fn_idx.insert(f.ident, self.functions.len() as usize),
            functions: self.functions.push(f),
            ..self
        }
    }

    /// The notes with `f` in place of function `i`.
    pub open spec fn with_function_at(self, i: int, f: FunctionView) -> GcnoView {
        GcnoView { functions: self.functions.update(i, f), ..self }
    }

    /// The notes with `f` in place of the last function.
    pub open spec fn with_last(self, f: FunctionView) -> GcnoView {
        GcnoView { functions: self.functions.update(self.functions.len() - 1, f), ..self }
    }
}

impl Gcno {
    /// The notes are well formed.
    pub open spec fn wf(&self) -> bool {
        self@.wf()
    }
}

/// Replacing a function by one of the same shape keeps the notes well formed.
pub proof fn lemma_with_function_at_wf(g: GcnoView, i: int, f: FunctionView)
    requires
        g.wf(),
        0 <= i < g.functions.len(),
        same_shape(g.functions[i], f),
    ensures
        g.with_function_at(i, f).wf(),
{
    let h = g.with_function_at(i, f);
    assert(g.functions[i].wf());
    lemma_same_shape_wf(g.functions[i], f);
    assert forall|j: int| 0 <= j < h.functions.len() implies (#[trigger] h.functions[j]).wf()
        && h.ident_fn_idx.contains_key(h.functions[j].ident) by {
        assert(g.functions[j].wf());
        assert(g.ident_fn_idx.contains_key(g.functions[j].ident));
    }
}

} // verus!
