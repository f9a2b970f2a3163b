//! Accounting for lines and collecting the coverage of the functions of the notes.

use vstd::prelude::*;
use std::collections::HashMap;
use crate::coverage::{
    count_executed, lemma_count_executed_bound, BlockCoverage, FileCoverage, FileView, FnCoverage,
    FnView, LineCoverage,
};
use crate::error::Error;
use crate::flow::reconciled;
use crate::graph::{function_views, BlockView, FunctionView, Gcno, GcnoFunction, GcnoView};
use crate::tables::{by_name, name_map_get, name_map_insert, name_map_new, name_map_remove, NameMap};

verus! {

pub const MSG_NAME_COLLISION: &'static str = "collision in function names for a given file";

/// The function was executed: its first edge was taken.
pub open spec fn entry_fired(f: FunctionView) -> bool {
    f.edges.len() > 0 && f.edges[0].counter > 0
}

/// The sums `sums` with `counter` added under each of the first `upto` lines of `lines`.
/// A sum that would go beyond 64 bits stays at the largest count.
pub open spec fn tally_block(sums: Map<u32, u64>, lines: Seq<u32>, counter: u64, upto: int) -> Map<
    u32,
    u64,
>
    decreases upto,
{
    if upto <= 0 || upto > lines.len() {
        sums
    } else {
        let before = tally_block(sums, lines, counter, upto - 1);
        let line = lines[upto - 1];
        before.insert(
            line,
            (if before.contains_key(line) {
                before[line]
            } else {
                0
            }).saturating_add(counter),
        )
    }
}

/// For each line that one of the first `upto` blocks lists, the sum of the counters of
/// the blocks that list it.
pub open spec fn tally(blocks: Seq<BlockView>, upto: int) -> Map<u32, u64>
    decreases upto,
{
    if upto <= 0 || upto > blocks.len() {
        Map::empty()
    } else {
        tally_block(
            tally(blocks, upto - 1),
            blocks[upto - 1].lines,
            blocks[upto - 1].counter,
            blocks[upto - 1].lines.len() as int,
        )
    }
}

/// The line counts `base` with every line of `mentioned` added that is missing, at 0.
pub open spec fn zero_filled(base: Map<u32, u64>, mentioned: Set<u32>) -> Map<u32, u64> {
    Map::new(
        |l: u32| base.contains_key(l) || mentioned.contains(l),
        |l: u32|
            if base.contains_key(l) {
                base[l]
            } else {
                0
            },
    )
}

/// The line counts `base` with every line of `mentioned` set to its sum, or to 0 where
/// it has none yet.
pub open spec fn overlaid(base: Map<u32, u64>, mentioned: Set<u32>, sums: Map<u32, u64>) -> Map<
    u32,
    u64,
> {
    Map::new(
        |l: u32| base.contains_key(l) || mentioned.contains(l),
        |l: u32|
            if mentioned.contains(l) {
                if sums.contains_key(l) {
                    sums[l]
                } else {
                    0
                }
            } else {
                base[l]
            },
    )
}

/// The function with its lines accounted for. Where the function was executed, a line
/// that blocks list gets the sum of their counters; where it was not, it is recorded
/// with 0 unless it is known already. Other lines keep their counts.
pub open spec fn accounted(f: FunctionView) -> FunctionView {
    let sums = tally(f.blocks, f.blocks.len() as int);
    FunctionView {
        executed: entry_fired(f),
        lines: if entry_fired(f) {
            overlaid(f.lines, sums.dom(), sums)
        } else {
            zero_filled(f.lines, sums.dom())
        },
        ..f
    }
}

/// Records the lines that the blocks list: at 0 where `reset` is set, else at 0 where
/// they are missing.
fn mention_lines(function: &mut GcnoFunction, reset: bool)
    ensures
        final(function)@ == (FunctionView {
            lines: if reset {
                overlaid(
                    old(function)@.lines,
                    tally(old(function)@.blocks, old(function)@.blocks.len() as int).dom(),
                    Map::empty(),
                )
            } else {
                zero_filled(
                    old(function)@.lines,
                    tally(old(function)@.blocks, old(function)@.blocks.len() as int).dom(),
                )
            },
            ..old(function)@
        }),
{
    broadcast use vstd::std_specs::hash::group_hash_axioms;

    let ghost before = function@;
    let mut b: usize = 0;
    while b < function.blocks.len()
        invariant
            b <= function.blocks@.len(),
            function@ == (FunctionView { lines: function@.lines, ..before }),
            function@.lines == if reset {
                overlaid(before.lines, tally(before.blocks, b as int).dom(), Map::empty())
            } else {
                zero_filled(before.lines, tally(before.blocks, b as int).dom())
            },
        decreases function.blocks@.len() - b,
    {
        let mut k: usize = 0;
        let ghost block = before.blocks[b as int];
        assert(block == function.blocks@[b as int]@);
        while k < function.blocks[b].lines.len()
            invariant
                b < function.blocks@.len(),
                block == before.blocks[b as int],
                block == function.blocks@[b as int]@,
                k <= block.lines.len(),
                function@ == (FunctionView { lines: function@.lines, ..before }),
                function@.lines == if reset {
                    overlaid(
                        before.lines,
                        tally_block(
                            tally(before.blocks, b as int),
                            block.lines,
                            block.counter,
                            k as int,
                        ).dom(),
                        Map::empty(),
                    )
                } else {
                    zero_filled(
                        before.lines,
                        tally_block(
                            tally(before.blocks, b as int),
                            block.lines,
                            block.counter,
                            k as int,
                        ).dom(),
                    )
                },
            decreases block.lines.len() - k,
        {
            let line = function.blocks[b].lines[k];
            let ghost lines = function@.lines;
            if reset || !function.lines.contains_key(&line) {
                function.lines.insert(line, 0);
            }
            k += 1;
            proof {
                let seen = tally_block(
                    tally(before.blocks, b as int),
                    block.lines,
                    block.counter,
                    k - 1,
                ).dom();
                let now = tally_block(
                    tally(before.blocks, b as int),
                    block.lines,
                    block.counter,
                    k as int,
                ).dom();
                assert(now =~= seen.insert(line));
                if reset {
                    assert(function@.lines =~= overlaid(before.lines, now, Map::empty()));
                } else {
                    assert(function@.lines =~= zero_filled(before.lines, now));
                }
            }
        }
        b += 1;
    }
}

/// Adds the counter of each block to the lines that the block lists. The lines must be
/// recorded already.
fn sum_lines(function: &mut GcnoFunction, Ghost(base): Ghost<Map<u32, u64>>)
    requires
        old(function)@.lines == overlaid(
            base,
            tally(old(function)@.blocks, old(function)@.blocks.len() as int).dom(),
            Map::empty(),
        ),
    ensures
        final(function)@ == (FunctionView {
            lines: overlaid(
                base,
                tally(old(function)@.blocks, old(function)@.blocks.len() as int).dom(),
                tally(old(function)@.blocks, old(function)@.blocks.len() as int),
            ),
            ..old(function)@
        }),
{
    broadcast use vstd::std_specs::hash::group_hash_axioms;

    let ghost before = function@;
    let ghost mentioned = tally(before.blocks, before.blocks.len() as int).dom();
    let mut b: usize = 0;
    while b < function.blocks.len()
        invariant
            b <= function.blocks@.len(),
            function@ == (FunctionView { lines: function@.lines, ..before }),
            function@.lines == overlaid(base, mentioned, tally(before.blocks, b as int)),
            mentioned == tally(before.blocks, before.blocks.len() as int).dom(),
        decreases function.blocks@.len() - b,
    {
        let mut k: usize = 0;
        let ghost block = before.blocks[b as int];
        assert(block == function.blocks@[b as int]@);
        let counter = function.blocks[b].counter;
        while k < function.blocks[b].lines.len()
            invariant
                b < function.blocks@.len(),
                block == before.blocks[b as int],
                block == function.blocks@[b as int]@,
                counter == block.counter,
                k <= block.lines.len(),
                function@ == (FunctionView { lines: function@.lines, ..before }),
                mentioned == tally(before.blocks, before.blocks.len() as int).dom(),
                function@.lines == overlaid(
                    base,
                    mentioned,
                    tally_block(tally(before.blocks, b as int), block.lines, counter, k as int),
                ),
            decreases block.lines.len() - k,
        {
            let line = function.blocks[b].lines[k];
            let ghost sums = tally_block(
                tally(before.blocks, b as int),
                block.lines,
                counter,
                k as int,
            );
            proof {
                lemma_tally_mentions(before.blocks, b as int, k as int);
            }
            let so_far = match function.lines.get(&line) {
                Some(count) => *count,
                None => 0,
            };
            function.lines.insert(line, so_far.saturating_add(counter));
            k += 1;
            proof {
                let now = tally_block(
                    tally(before.blocks, b as int),
                    block.lines,
                    counter,
                    k as int,
                );
                assert(function@.lines =~= overlaid(base, mentioned, now));
            }
        }
        b += 1;
    }
}

/// A line that a block lists is among the lines that the tally of all blocks holds.
proof fn lemma_tally_mentions(blocks: Seq<BlockView>, b: int, k: int)
    requires
        0 <= b < blocks.len(),
        0 <= k < blocks[b].lines.len(),
    ensures
        tally(blocks, blocks.len() as int).contains_key(blocks[b].lines[k]),
{
    lemma_tally_block_keeps(
        tally(blocks, b),
        blocks[b].lines,
        blocks[b].counter,
        k + 1,
        blocks[b].lines.len() as int,
        blocks[b].lines[k],
    );
    lemma_tally_keeps(blocks, b + 1, blocks.len() as int, blocks[b].lines[k]);
}

proof fn lemma_tally_block_keeps(
    sums: Map<u32, u64>,
    lines: Seq<u32>,
    counter: u64,
    from: int,
    upto: int,
    line: u32,
)
    requires
        0 <= from <= upto <= lines.len(),
        tally_block(sums, lines, counter, from).contains_key(line),
    ensures
        tally_block(sums, lines, counter, upto).contains_key(line),
    decreases upto - from,
{
    if from < upto {
        lemma_tally_block_keeps(sums, lines, counter, from, upto - 1, line);
    }
}

proof fn lemma_tally_keeps(blocks: Seq<BlockView>, from: int, upto: int, line: u32)
    requires
        0 <= from <= upto <= blocks.len(),
        tally(blocks, from).contains_key(line),
    ensures
        tally(blocks, upto).contains_key(line),
    decreases upto - from,
{
    if from < upto {
        lemma_tally_keeps(blocks, from, upto - 1, line);
        lemma_tally_block_keeps(
            tally(blocks, upto - 1),
            blocks[upto - 1].lines,
            blocks[upto - 1].counter,
            0,
            blocks[upto - 1].lines.len() as int,
            line,
        );
    }
}

/// Accounts for the lines of a function.
fn account_function_lines(function: &mut GcnoFunction)
    ensures
        final(function)@ == accounted(old(function)@),
{
    let ghost before = function@;
    let executed = function.edges.len() > 0 && function.edges[0].counter > 0;
    function.executed = executed;
    if !executed {
        mention_lines(function, false);
    } else {
        mention_lines(function, true);
        sum_lines(function, Ghost(before.lines));
    }
    proof {
        assert(function@ =~= accounted(before));
    }
}

/// `lines` lists each line of `counts` once, with its count.
pub open spec fn lists_lines(lines: Seq<LineCoverage>, counts: Map<u32, u64>) -> bool {
    &&& forall|i: int, j: int| 0 <= i < j < lines.len() ==> lines[i].lineno != lines[j].lineno
    &&& forall|i: int|
        0 <= i < lines.len() ==> counts.contains_key((#[trigger] lines[i]).lineno)
            && counts[lines[i].lineno] == lines[i].exec_count
    &&& forall|l: u32|
        counts.contains_key(l) ==> exists|i: int|
            0 <= i < lines.len() && (#[trigger] lines[i]).lineno == l
}

/// Lists the lines of a table, in the order in which the table hands them out.
pub fn list_lines(counts: &HashMap<u32, u64>) -> (r: Vec<LineCoverage>)
    ensures
        lists_lines(r@, counts@),
{
    broadcast use vstd::std_specs::hash::group_hash_axioms;

    let mut out: Vec<LineCoverage> = Vec::new();
    let ghost mut all: Seq<u32> = Seq::empty();
    for k in it: counts.keys()
        invariant
            out@.len() == it.index(),
            it.seq().no_duplicates(),
            it.seq().len() == counts@.dom().len(),
            it.seq().unref().to_set() == counts@.dom(),
            all == it.seq().unref().take(it.index() as int),
            all.no_duplicates(),
            all.to_set().subset_of(counts@.dom()),
            forall|j: int|
                0 <= j < out@.len() ==> (#[trigger] out@[j]).lineno == all[j]
                    && counts@.contains_key(out@[j].lineno) && out@[j].exec_count
                    == counts@[out@[j].lineno],
    {
        proof {
            assert(it.seq().unref()[it.index() as int] == *k);
            assert(it.seq().unref().to_set().contains(*k));
            assert(!all.contains(*k)) by {
                if all.contains(*k) {
                    let j = choose|j: int| 0 <= j < all.len() && all[j] == *k;
                    assert(it.seq()[j] == it.seq()[it.index() as int]);
                }
            }
            all = all.push(*k);
            assert(all.to_set() =~= all.drop_last().to_set().insert(*k)) by {
                assert(all.drop_last() == it.seq().unref().take(it.index() as int));
                assert forall|x: u32|
                    all.to_set().contains(x) <==> all.drop_last().to_set().contains(x) || x
                        == *k by {
                    if all.to_set().contains(x) {
                        let j = choose|j: int| 0 <= j < all.len() && all[j] == x;
                        if j < all.len() - 1 {
                            assert(all.drop_last()[j] == x);
                        }
                    }
                    if all.drop_last().to_set().contains(x) {
                        let j = choose|j: int|
                            0 <= j < all.drop_last().len() && all.drop_last()[j] == x;
                        assert(all[j] == x);
                    }
                    if x == *k {
                        assert(all[all.len() - 1] == x);
                    }
                }
            }
        }
        let count = counts.get(k).unwrap();
        out.push(LineCoverage { lineno: *k, exec_count: *count });
    }
    proof {
        assert(all.len() == counts@.dom().len());
        all.unique_seq_to_set();
        vstd::set_lib::lemma_subset_equality(all.to_set(), counts@.dom());
        assert forall|l: u32| counts@.contains_key(l) implies exists|i: int|
            0 <= i < out@.len() && (#[trigger] out@[i]).lineno == l by {
            assert(all.to_set().contains(l));
            let i = choose|i: int| 0 <= i < all.len() && all[i] == l;
            assert(out@[i].lineno == l);
        }
        assert forall|i: int, j: int| 0 <= i < j < out@.len() implies out@[i].lineno
            != out@[j].lineno by {
            assert(all[i] != all[j]);
        }
    }
    out
}

/// The counters of the blocks, in their order.
pub open spec fn block_counts(blocks: Seq<BlockView>) -> Seq<BlockCoverage> {
    blocks.map_values(|b: BlockView| BlockCoverage { executions: b.counter })
}

/// `c` is the coverage of function `f`: its extent, the counters of its blocks, how many
/// of them were executed, and its lines in some order.
pub open spec fn covers(c: FnView, f: FunctionView) -> bool {
    &&& c.start_line == f.start_line
    &&& c.start_col == f.start_col
    &&& c.end_line == f.end_line
    &&& c.end_col == f.end_col
    &&& c.blocks == block_counts(f.blocks)
    &&& c.total_blocks == f.blocks.len()
    &&& c.executed_blocks == count_executed(c.blocks)
    &&& lists_lines(c.lines, f.lines)
}

/// The coverage of one function.
pub fn cover_function(function: &GcnoFunction) -> (r: FnCoverage)
    ensures
        covers(r@, function@),
        r@.wf(),
{
    let lines = list_lines(&function.lines);
    let mut blocks: Vec<BlockCoverage> = Vec::new();
    let mut executed: usize = 0;
    let mut i: usize = 0;
    while i < function.blocks.len()
        invariant
            i <= function.blocks@.len(),
            blocks@ == block_counts(function@.blocks).take(i as int),
            executed == count_executed(blocks@),
        decreases function.blocks@.len() - i,
    {
        let ghost so_far = blocks@;
        let counter = function.blocks[i].counter;
        blocks.push(BlockCoverage { executions: counter });
        proof {
            lemma_count_executed_bound(so_far);
            assert(blocks@.drop_last() == so_far);
            assert(blocks@ == block_counts(function@.blocks).take(i + 1));
        }
        if counter > 0 {
            executed += 1;
        }
        i += 1;
    }
    assert(blocks@ == block_counts(function@.blocks));
    FnCoverage {
        start_line: function.start_line,
        start_col: function.start_col,
        end_line: function.end_line,
        end_col: function.end_col,
        executed_blocks: executed,
        total_blocks: function.blocks.len(),
        blocks,
        lines,
    }
}

/// Two of the functions bear the same name in the same file.
pub open spec fn names_collide(functions: Seq<FunctionView>) -> bool {
    exists|i: int, j: int|
        0 <= i < j < functions.len() && functions[i].file_name == functions[j].file_name
            && functions[i].name == functions[j].name
}

/// `files` holds the coverage of each of `functions`, under its file and its name, and
/// nothing else.
pub open spec fn emits(files: Map<Seq<char>, FileView>, functions: Seq<FunctionView>) -> bool {
    &&& forall|file: Seq<char>| #[trigger]
        files.contains_key(file) <==> exists|i: int|
            0 <= i < functions.len() && (#[trigger] functions[i]).file_name == file
    &&& forall|file: Seq<char>, name: Seq<char>|
        files.contains_key(file) && #[trigger] files[file].contains_key(name) <==> exists|i: int|
            0 <= i < functions.len() && (#[trigger] functions[i]).file_name == file
                && functions[i].name == name
    &&& forall|i: int|
        0 <= i < functions.len() ==> covers(
            files[(#[trigger] functions[i]).file_name][functions[i].name],
            functions[i],
        )
}

/// The functions of the notes with all counters found and lines accounted for.
pub open spec fn finished(g: GcnoView) -> Seq<FunctionView> {
    g.functions.map_values(|f: FunctionView| accounted(reconciled(f, g.version)))
}

/// Accounts for the lines of every function of the notes.
pub(crate) fn account_lines(gcno: &mut Gcno)
    ensures
        function_views(final(gcno).functions@) == function_views(old(gcno).functions@).map_values(
            |f: FunctionView| accounted(f),
        ),
        final(gcno).cwd == old(gcno).cwd,
{
    let ghost before = function_views(gcno.functions@);
    let mut i: usize = 0;
    while i < gcno.functions.len()
        invariant
            i <= gcno.functions@.len() == before.len(),
            gcno.cwd == old(gcno).cwd,
            before == function_views(old(gcno).functions@),
            forall|j: int| 0 <= j < i ==> (#[trigger] gcno.functions@[j])@ == accounted(before[j]),
            forall|j: int|
                i <= j < gcno.functions@.len() ==> (#[trigger] gcno.functions@[j])@ == before[j],
        decreases gcno.functions@.len() - i,
    {
        account_function_lines(&mut gcno.functions[i]);
        i += 1;
    }
    assert(function_views(gcno.functions@) =~= before.map_values(|f: FunctionView| accounted(f)));
}

/// Collects the coverage of the functions by file and name.
pub fn emit(functions: &Vec<GcnoFunction>) -> (r: Result<NameMap<FileCoverage>, Error>)
    ensures
        match r {
            Ok(files) => !names_collide(function_views(functions@)) && emits(
                Map::new(
                    |n: Seq<char>| by_name(files@).contains_key(n),
                    |n: Seq<char>| by_name(files@)[n]@,
                ),
                function_views(functions@),
            ),
            Err(e) => names_collide(function_views(functions@)) && e == Error::Value(
                MSG_NAME_COLLISION,
            ),
        },
{
    let ghost all = function_views(functions@);
    let mut files: NameMap<FileCoverage> = name_map_new();
    let mut i: usize = 0;
    while i < functions.len()
        invariant
            i <= functions@.len(),
            all == function_views(functions@),
            !names_collide(all.take(i as int)),
            emits(
                Map::new(
                    |n: Seq<char>| by_name(files@).contains_key(n),
                    |n: Seq<char>| by_name(files@)[n]@,
                ),
                all.take(i as int),
            ),
        decreases functions@.len() - i,
    {
        let ghost done = all.take(i as int);
        let ghost held = Map::new(
            |n: Seq<char>| by_name(files@).contains_key(n),
            |n: Seq<char>| by_name(files@)[n]@,
        );
        let function = &functions[i];
        let ghost f = all[i as int];
        assert(f == function@);
        let coverage = cover_function(function);
        let ghost c = coverage@;
        let mut file = match name_map_remove(&mut files, function.file_name.as_str()) {
            Some(file) => file,
            None => FileCoverage { fns: name_map_new() },
        };
        let ghost known = file@;
        assert(known == if held.contains_key(f.file_name) {
            held[f.file_name]
        } else {
            Map::<Seq<char>, FnView>::empty()
        }) by {
            if held.contains_key(f.file_name) {
                assert(known =~= held[f.file_name]);
            } else {
                assert(known =~= Map::<Seq<char>, FnView>::empty());
            }
        }
        if name_map_get(&file.fns, function.name.as_str()).is_some() {
            proof {
                assert(held.contains_key(f.file_name) && held[f.file_name].contains_key(f.name));
                let j = choose|j: int|
                    0 <= j < done.len() && (#[trigger] done[j]).file_name == f.file_name
                        && done[j].name == f.name;
                assert(all[j] == done[j]);
            }
            return Err(Error::Value(MSG_NAME_COLLISION));
        }
        name_map_insert(&mut file.fns, function.name.clone(), coverage);
        assert(file@ =~= known.insert(f.name, c));
        name_map_insert(&mut files, function.file_name.clone(), file);
        i += 1;
        proof {
            let now = Map::new(
                |n: Seq<char>| by_name(files@).contains_key(n),
                |n: Seq<char>| by_name(files@)[n]@,
            );
            let next = all.take(i as int);
            assert(now =~= held.insert(f.file_name, known.insert(f.name, c)));
            assert(next == done.push(f));
            assert forall|k: int| 0 <= k < done.len() implies #[trigger] next[k] == done[k] by {}
            assert(next[done.len() as int] == f);
            lemma_emits_next(held, done, f, c);
            lemma_collide_next(held, done, f);
        }
    }
    assert(all.take(i as int) == all);
    Ok(files)
}

/// One more function, whose name is new in its file, does not make names collide.
proof fn lemma_collide_next(held: Map<Seq<char>, FileView>, done: Seq<FunctionView>, f: FunctionView)
    requires
        emits(held, done),
        !names_collide(done),
        !(held.contains_key(f.file_name) && held[f.file_name].contains_key(f.name)),
    ensures
        !names_collide(done.push(f)),
{
    let next = done.push(f);
    if names_collide(next) {
        let (i, j) = choose|i: int, j: int|
            0 <= i < j < next.len() && next[i].file_name == next[j].file_name && next[i].name
                == next[j].name;
        if j < done.len() {
            assert(done[i] == next[i] && done[j] == next[j]);
            assert(names_collide(done));
        } else {
            assert(done[i] == next[i]);
            assert(done[i].file_name == f.file_name && done[i].name == f.name);
            assert(held.contains_key(f.file_name) && held[f.file_name].contains_key(f.name));
        }
    }
}

/// Entering the coverage of one more function, whose name is new in its file, under its
/// file and name gives what holds the coverage of all.
proof fn lemma_emits_next(
    held: Map<Seq<char>, FileView>,
    done: Seq<FunctionView>,
    f: FunctionView,
    c: FnView,
)
    requires
        emits(held, done),
        covers(c, f),
        !(held.contains_key(f.file_name) && held[f.file_name].contains_key(f.name)),
    ensures
        emits(
            held.insert(
                f.file_name,
                (if held.contains_key(f.file_name) {
                    held[f.file_name]
                } else {
                    Map::<Seq<char>, FnView>::empty()
                }).insert(f.name, c),
            ),
            done.push(f),
        ),
{
    let known = if held.contains_key(f.file_name) {
        held[f.file_name]
    } else {
        Map::<Seq<char>, FnView>::empty()
    };
    let now = held.insert(f.file_name, known.insert(f.name, c));
    let next = done.push(f);
    assert forall|k: int| 0 <= k < done.len() implies #[trigger] next[k] == done[k] by {}
    assert(next[done.len() as int] == f);
    assert forall|file: Seq<char>| #[trigger]
        now.contains_key(file) <==> exists|i: int|
            0 <= i < next.len() && (#[trigger] next[i]).file_name == file by {
        if now.contains_key(file) {
            if file == f.file_name {
                assert(next[done.len() as int].file_name == file);
            } else {
                assert(held.contains_key(file));
                let i = choose|i: int| 0 <= i < done.len() && (#[trigger] done[i]).file_name == file;
                assert(next[i].file_name == file);
            }
        }
        if exists|i: int| 0 <= i < next.len() && (#[trigger] next[i]).file_name == file {
            let i = choose|i: int| 0 <= i < next.len() && (#[trigger] next[i]).file_name == file;
            if i < done.len() {
                assert(done[i].file_name == file);
                assert(held.contains_key(file));
            }
        }
    }
    assert forall|file: Seq<char>, name: Seq<char>|
        now.contains_key(file) && #[trigger] now[file].contains_key(name) <==> exists|i: int|
            0 <= i < next.len() && (#[trigger] next[i]).file_name == file && next[i].name
                == name by {
        if now.contains_key(file) && now[file].contains_key(name) {
            if file == f.file_name && name == f.name {
                assert(next[done.len() as int].file_name == file);
            } else {
                assert(held.contains_key(file) && held[file].contains_key(name));
                let i = choose|i: int|
                    0 <= i < done.len() && (#[trigger] done[i]).file_name == file && done[i].name
                        == name;
                assert(next[i].file_name == file);
            }
        }
        if exists|i: int|
            0 <= i < next.len() && (#[trigger] next[i]).file_name == file && next[i].name == name {
            let i = choose|i: int|
                0 <= i < next.len() && (#[trigger] next[i]).file_name == file && next[i].name
                    == name;
            if i < done.len() {
                assert(done[i].file_name == file);
                assert(held.contains_key(file) && held[file].contains_key(name));
            }
        }
    }
    assert forall|i: int| 0 <= i < next.len() implies covers(
        now[(#[trigger] next[i]).file_name][next[i].name],
        next[i],
    ) by {
        if i < done.len() {
            assert(next[i] == done[i]);
            assert(covers(held[done[i].file_name][done[i].name], done[i]));
            assert(held.contains_key(done[i].file_name) && held[done[i].file_name].contains_key(
                done[i].name,
            ));
        }
    }
}

} // verus!
