//! Laws of well-formed graphs and of merging.

use vstd::prelude::*;
use crate::coverage::{count_executed, merged_file, merged_files, FileView, FnView};
use crate::graph::FunctionView;
use crate::summary::{covered_in, covered_in_file, finite, lemma_sum_values_same};

verus! {

/// In a well-formed function every edge joins two blocks and is listed once each way:
/// in the outgoing list of exactly one block and in the incoming list of exactly one
/// block, the block that the edge leaves, and in neither list twice.
pub proof fn lemma_edge_listed_once(f: FunctionView, e: int, b: int)
    requires
        f.wf(),
        0 <= e < f.edges.len(),
        0 <= b < f.blocks.len(),
    ensures
        f.edges[e].src < f.blocks.len(),
        f.edges[e].dst < f.blocks.len(),
        f.blocks[b].dst.contains(e as usize) <==> b == f.edges[e].src,
        f.blocks[b].src.contains(e as usize) <==> b == f.edges[e].src,
        f.blocks[b].dst.no_duplicates(),
        f.blocks[b].src.no_duplicates(),
{
    assert(f.edges[e].src < f.blocks.len());
    assert(f.lists_ordered());
    assert(f.blocks[b].dst.no_duplicates());
    if f.blocks[b].dst.contains(e as usize) {
        let k = choose|k: int| 0 <= k < f.blocks[b].dst.len() && f.blocks[b].dst[k] == e as usize;
        assert(f.edges[f.blocks[b].dst[k] as int].src == b);
    }
    if f.blocks[b].src.contains(e as usize) {
        let k = choose|k: int| 0 <= k < f.blocks[b].src.len() && f.blocks[b].src[k] == e as usize;
        assert(f.edges[f.blocks[b].src[k] as int].src == b);
    }
    assert(f.blocks[f.edges[e].src as int].dst.contains(e as usize));
}

/// In a well-formed function the outgoing list of every block is sorted by destination:
/// an edge that stands further back in the list leads to no earlier block.
pub proof fn lemma_outgoing_sorted(f: FunctionView, b: int, i: int, j: int)
    requires
        f.wf(),
        0 <= b < f.blocks.len(),
        0 <= i <= j < f.blocks[b].dst.len(),
    ensures
        f.edges[f.blocks[b].dst[i] as int].dst <= f.edges[f.blocks[b].dst[j] as int].dst,
{
    assert(f.lists_ordered());
    assert(crate::graph::sorted_by_destination(f.blocks[b].dst, f.edges));
}

/// Every function of every file reports as many executed blocks as its blocks tell.
pub open spec fn counts_agree(files: Map<Seq<char>, FileView>) -> bool {
    forall|file: Seq<char>, name: Seq<char>|
        files.contains_key(file) && #[trigger] files[file].contains_key(name)
            ==> files[file][name].executed_blocks == count_executed(files[file][name].blocks)
}

/// A function that both observations hold has the same size in both: as many blocks,
/// counted and listed, and as many lines.
pub open spec fn sizes_agree(a: Map<Seq<char>, FileView>, b: Map<Seq<char>, FileView>) -> bool {
    forall|file: Seq<char>, name: Seq<char>|
        a.contains_key(file) && b.contains_key(file) && #[trigger] a[file].contains_key(name)
            && #[trigger] b[file].contains_key(name) ==> a[file][name].same_size(b[file][name])
            && a[file][name].blocks.len() == b[file][name].blocks.len()
}

/// Merging a function's coverage with itself changes nothing.
pub proof fn lemma_merge_function_idempotent(c: FnView)
    requires
        c.executed_blocks == count_executed(c.blocks),
    ensures
        c.merged(c) == c,
{
    assert(c.merged_blocks(c) =~= c.blocks);
    assert(c.merged_lines(c) =~= c.lines);
    assert(c.merged(c) =~= c);
}

/// Merging is idempotent: coverage that reports as many executed blocks as its blocks
/// tell, merged with itself, is the same coverage.
pub proof fn lemma_merge_idempotent(files: Map<Seq<char>, FileView>)
    requires
        counts_agree(files),
    ensures
        merged_files(files, files) == files,
{
    assert forall|file: Seq<char>| files.contains_key(file) implies #[trigger] merged_file(
        files[file],
        files[file],
    ) == files[file] by {
        assert forall|name: Seq<char>| files[file].contains_key(name) implies #[trigger] merged_file(
            files[file],
            files[file],
        )[name] == files[file][name] by {
            assert(files[file][name].executed_blocks == count_executed(files[file][name].blocks));
            lemma_merge_function_idempotent(files[file][name]);
        }
        assert(merged_file(files[file], files[file]) =~= files[file]);
    }
    assert(merged_files(files, files) =~= files);
}

/// Merging two observations of a function of one size counts the same executed blocks
/// whichever of the two is merged into the other.
pub proof fn lemma_merge_function_commutes(a: FnView, b: FnView)
    requires
        a.same_size(b),
        a.blocks.len() == b.blocks.len(),
    ensures
        a.merged(b).executed_blocks == b.merged(a).executed_blocks,
{
    assert(a.merged_blocks(b) =~= b.merged_blocks(a));
}

/// Merged observations are finite where both are.
pub proof fn lemma_merged_finite(a: Map<Seq<char>, FileView>, b: Map<Seq<char>, FileView>)
    requires
        finite(a),
        finite(b),
    ensures
        finite(merged_files(a, b)),
{
    let m = merged_files(a, b);
    assert(m.dom() =~= a.dom().union(b.dom()));
    assert forall|file: Seq<char>| #[trigger] m.contains_key(file) implies m[file].dom().finite() by {
        if a.contains_key(file) && b.contains_key(file) {
            assert(merged_file(a[file], b[file]).dom() =~= a[file].dom().union(b[file].dom()));
        }
    }
}

/// Merging commutes in the files and functions held and in the number of covered
/// blocks: where the functions that both observations hold have the same size in both,
/// merging the second into the first gives the same files and functions, and as many
/// covered blocks, as merging the first into the second.
pub proof fn lemma_merge_covered_commutes(a: Map<Seq<char>, FileView>, b: Map<Seq<char>, FileView>)
    requires
        finite(merged_files(a, b)),
        sizes_agree(a, b),
    ensures
        merged_files(a, b).dom() == merged_files(b, a).dom(),
        forall|file: Seq<char>| #[trigger]
            merged_files(a, b).contains_key(file) ==> merged_files(a, b)[file].dom()
                == merged_files(b, a)[file].dom(),
        covered_in(merged_files(a, b)) == covered_in(merged_files(b, a)),
{
    let ab = merged_files(a, b);
    let ba = merged_files(b, a);
    assert(ab.dom() =~= ba.dom());
    assert forall|file: Seq<char>| #[trigger] ab.contains_key(file) implies ab[file].dom()
        == ba[file].dom() && covered_in_file(ab[file]) == covered_in_file(ba[file]) by {
        if a.contains_key(file) && b.contains_key(file) {
            let x = merged_file(a[file], b[file]);
            let y = merged_file(b[file], a[file]);
            assert(x == ab[file]);
            assert(x.dom() =~= y.dom());
            assert forall|name: Seq<char>| x.contains_key(name) implies (#[trigger] x[name]).executed_blocks
                == y[name].executed_blocks by {
                if a[file].contains_key(name) && b[file].contains_key(name) {
                    lemma_merge_function_commutes(a[file][name], b[file][name]);
                }
            }
            let g = |c: FnView| c.executed_blocks as nat;
            assert forall|name: Seq<char>| x.contains_key(name) implies #[trigger] g(x[name])
                == g(y[name]) by {
                assert(x[name].executed_blocks == y[name].executed_blocks);
            }
            lemma_sum_values_same(x, g, y, g);
        }
    }
    let h = |file: FileView| covered_in_file(file);
    assert forall|file: Seq<char>| ab.contains_key(file) implies #[trigger] h(ab[file]) == h(
        ba[file],
    ) by {
        assert(covered_in_file(ab[file]) == covered_in_file(ba[file]));
    }
    lemma_sum_values_same(ab, h, ba, h);
}

} // verus!
