//! Coverage only grows: folding data in never lowers a block's count, and a later
//! snapshot of the same sessions covers no fewer blocks.

use vstd::prelude::*;
use crate::builder::{
    data_record, data_records, fold_counters, fold_data, lemma_data_record_shrinks, BuilderView,
    GCOV_TAG_COUNTER_ARCS,
};
use crate::balance::lemma_reconciled_is_closed;
use crate::coverage::{
    count_executed, lemma_count_executed_bound, merged_file, merged_files, BlockCoverage, FileView,
    FnView, LineCoverage, ProgView,
};
use crate::driver::{
    absorbed, after_delivery, built_from, composes, merged_all, Delivery, SessionsView,
};
use crate::finish::{accounted, covers, emits, finished, lists_lines, tally, tally_block};
use crate::flow::reconciled;
use crate::graph::{
    lemma_same_shape_wf, lemma_with_function_at_wf, notes_roomy, roomy, same_shape, BlockView,
    FunctionView, GcnoView,
};
use crate::ipc::{behind_frame, first_payload, holds_frame, postcard_decoding};
use crate::laws::lemma_merged_finite;
use crate::summary::{covered_in, covered_in_file, finite, lemma_sum_values_le};
use crate::note::GCOV_TAG_FUNCTION;
use crate::reader::{take_magic, take_quad, take_version, take_word};

verus! {

/// `g` is `f` with more data folded in: the same function, whose blocks and edges have
/// counted no less.
pub open spec fn grown(f: FunctionView, g: FunctionView) -> bool {
    &&& same_shape(f, g)
    &&& g.name == f.name
    &&& g.file_name == f.file_name
    &&& g.line_chksum == f.line_chksum
    &&& g.cfg_chksum == f.cfg_chksum
    &&& g.start_line == f.start_line
    &&& g.start_col == f.start_col
    &&& g.end_line == f.end_line
    &&& g.end_col == f.end_col
    &&& g.lines == f.lines
    &&& forall|b: int|
        0 <= b < f.blocks.len() ==> (#[trigger] g.blocks[b]).counter >= f.blocks[b].counter
            && g.blocks[b].lines == f.blocks[b].lines
}

/// `b` is `a` with more data folded in.
pub open spec fn notes_grown(a: GcnoView, b: GcnoView) -> bool {
    &&& b.version == a.version
    &&& b.chksum == a.chksum
    &&& b.cwd == a.cwd
    &&& b.ident_fn_idx == a.ident_fn_idx
    &&& b.functions.len() == a.functions.len()
    &&& forall|i: int|
        0 <= i < a.functions.len() ==> grown(a.functions[i], #[trigger] b.functions[i])
}

/// Growth goes on: what has grown from what has grown has grown.
pub proof fn lemma_grown_on(f: FunctionView, g: FunctionView, h: FunctionView)
    requires
        grown(f, g),
        grown(g, h),
    ensures
        grown(f, h),
{
    assert forall|b: int| 0 <= b < f.blocks.len() implies (#[trigger] h.blocks[b]).src
        == f.blocks[b].src && h.blocks[b].dst == f.blocks[b].dst && h.blocks[b].counter
        >= f.blocks[b].counter && h.blocks[b].lines == f.blocks[b].lines by {
        assert(g.blocks[b].src == f.blocks[b].src);
    }
    assert forall|e: int| 0 <= e < f.edges.len() implies (#[trigger] h.edges[e]).src
        == f.edges[e].src && h.edges[e].dst == f.edges[e].dst && h.edges[e].flags
        == f.edges[e].flags && (f.edges[e].on_tree() ==> h.edges[e].counter
        == f.edges[e].counter) by {
        assert(g.edges[e].src == f.edges[e].src);
    }
}

/// Growth of notes goes on.
pub proof fn lemma_notes_grown_on(a: GcnoView, b: GcnoView, c: GcnoView)
    requires
        notes_grown(a, b),
        notes_grown(b, c),
    ensures
        notes_grown(a, c),
{
    assert forall|i: int| 0 <= i < a.functions.len() implies grown(
        a.functions[i],
        #[trigger] c.functions[i],
    ) by {
        assert(grown(a.functions[i], b.functions[i]));
        assert(grown(b.functions[i], c.functions[i]));
        lemma_grown_on(a.functions[i], b.functions[i], c.functions[i]);
    }
}

/// Reading counters into a function makes it grow.
pub proof fn lemma_fold_counters_grown(s: Seq<u8>, f: FunctionView, from: int)
    requires
        f.wf(),
    ensures
        grown(f, fold_counters(s, f, from).0),
    decreases f.edges.len() - from,
{
    if from < 0 || from >= f.edges.len() {
    } else if f.edges[from].on_tree() {
        lemma_fold_counters_grown(s, f, from + 1);
    } else {
        if let Ok((count, rest)) = take_quad(s) {
            let g = f.counted(from, count);
            assert(f.edges[from].src < f.blocks.len());
            assert(grown(f, g));
            lemma_same_shape_wf(f, g);
            lemma_fold_counters_grown(rest, g, from + 1);
            lemma_grown_on(f, g, fold_counters(rest, g, from + 1).0);
        }
    }
}

/// A record of data makes the notes of a builder grow, and leaves the builder well
/// formed.
pub proof fn lemma_data_record_grown(s: Seq<u8>, tag: u32, st: BuilderView)
    requires
        st.wf(),
    ensures
        data_record(s, tag, st).0.wf(),
        notes_grown(st.gcno, data_record(s, tag, st).0.gcno),
{
    let next = data_record(s, tag, st).0;
    assert forall|i: int| 0 <= i < st.gcno.functions.len() implies grown(
        #[trigger] st.gcno.functions[i],
        st.gcno.functions[i],
    ) by {}
    if tag == GCOV_TAG_FUNCTION {
    } else if tag == GCOV_TAG_COUNTER_ARCS {
        if let Ok((length, s1)) = take_word(s) {
            if let Some(i) = st.current_fn_idx {
                let f = st.gcno.functions[i as int];
                if f.real_edge_cnt == length / 2 {
                    assert(f.wf());
                    let g = fold_counters(s1, f, 0).0;
                    lemma_fold_counters_grown(s1, f, 0);
                    lemma_with_function_at_wf(st.gcno, i as int, g);
                    assert forall|j: int| 0 <= j < st.gcno.functions.len() implies grown(
                        st.gcno.functions[j],
                        #[trigger] next.gcno.functions[j],
                    ) by {}
                }
            }
        }
    }
}

/// The records of data make the notes of a builder grow, and leave the builder well
/// formed.
pub proof fn lemma_data_records_grown(s: Seq<u8>, st: BuilderView)
    requires
        st.wf(),
    ensures
        data_records(s, st).0.wf(),
        notes_grown(st.gcno, data_records(s, st).0.gcno),
    decreases s.len(),
{
    assert forall|i: int| 0 <= i < st.gcno.functions.len() implies grown(
        #[trigger] st.gcno.functions[i],
        st.gcno.functions[i],
    ) by {}
    if s.len() != 0 {
        if let Ok((tag, s1)) = take_word(s) {
            if tag != 0 {
                lemma_data_record_grown(s1, tag, st);
                lemma_data_record_shrinks(s1, tag, st);
                let (next, left) = data_record(s1, tag, st);
                if let Ok(rest) = left {
                    lemma_data_records_grown(rest, next);
                    lemma_notes_grown_on(st.gcno, next.gcno, data_records(rest, next).0.gcno);
                }
            }
        }
    }
}

/// Folding data into a well-formed builder leaves it well formed and makes its notes
/// grow: no block counts less than before, whether the data could be read to its end
/// or not.
pub proof fn lemma_fold_data_grown(input: Seq<u8>, st: BuilderView)
    requires
        st.wf(),
    ensures
        fold_data(input, st).0.wf(),
        notes_grown(st.gcno, fold_data(input, st).0.gcno),
{
    assert forall|i: int| 0 <= i < st.gcno.functions.len() implies grown(
        #[trigger] st.gcno.functions[i],
        st.gcno.functions[i],
    ) by {}
    if let Ok((magic, s1)) = take_magic(input) {
        if let Ok((version, s2)) = take_version(s1) {
            if let Ok((chksum, s3)) = take_word(s2) {
                lemma_data_records_grown(s3, st);
            }
        }
    }
}

/// `b` is coverage of the function that `a` covers, of the same size, with no block
/// counted less.
pub open spec fn dominated(a: FnView, b: FnView) -> bool {
    &&& a.wf()
    &&& b.wf()
    &&& a.total_blocks == b.total_blocks
    &&& a.lines.len() == b.lines.len()
    &&& forall|i: int|
        0 <= i < a.blocks.len() ==> (#[trigger] a.blocks[i]).executions <= b.blocks[i].executions
}

/// `y` holds the files and functions of `x`, each dominating its counterpart.
pub open spec fn files_dominated(x: Map<Seq<char>, FileView>, y: Map<Seq<char>, FileView>) -> bool {
    &&& x.dom() == y.dom()
    &&& forall|file: Seq<char>| #[trigger] x.contains_key(file) ==> x[file].dom() == y[file].dom()
    &&& forall|file: Seq<char>, name: Seq<char>|
        x.contains_key(file) && #[trigger] x[file].contains_key(name) ==> dominated(
            x[file][name],
            y[file][name],
        )
}

/// Where no block counts less, no fewer blocks are executed.
pub proof fn lemma_count_executed_le(a: Seq<BlockCoverage>, b: Seq<BlockCoverage>)
    requires
        a.len() == b.len(),
        forall|i: int| 0 <= i < a.len() ==> (#[trigger] a[i]).executions <= b[i].executions,
    ensures
        count_executed(a) <= count_executed(b),
    decreases a.len(),
{
    if a.len() > 0 {
        assert(a[a.len() - 1].executions <= b[b.len() - 1].executions);
        assert forall|i: int| 0 <= i < a.drop_last().len() implies (#[trigger] a.drop_last()[i]).executions
            <= b.drop_last()[i].executions by {
            assert(a[i].executions <= b[i].executions);
        }
        lemma_count_executed_le(a.drop_last(), b.drop_last());
    }
}

/// Merging keeps domination: where each of two observations dominates its counterpart,
/// so does their merge.
pub proof fn lemma_merged_dominated(a: FnView, b: FnView, c: FnView, d: FnView)
    requires
        dominated(a, b),
        dominated(c, d),
    ensures
        dominated(a.merged(c), b.merged(d)),
{
    if a.same_size(c) {
        let x = a.merged_blocks(c);
        let y = b.merged_blocks(d);
        lemma_count_executed_bound(x);
        lemma_count_executed_bound(y);
        assert forall|i: int| 0 <= i < x.len() implies (#[trigger] x[i]).executions
            <= y[i].executions by {
            assert(a.blocks[i].executions <= b.blocks[i].executions);
            assert(c.blocks[i].executions <= d.blocks[i].executions);
        }
        assert(a.merged(c).blocks == x);
        assert(b.merged(d).blocks == y);
    }
}

/// Merging keeps domination of files.
pub proof fn lemma_merged_files_dominated(
    a: Map<Seq<char>, FileView>,
    b: Map<Seq<char>, FileView>,
    c: Map<Seq<char>, FileView>,
    d: Map<Seq<char>, FileView>,
)
    requires
        files_dominated(a, b),
        files_dominated(c, d),
    ensures
        files_dominated(merged_files(a, c), merged_files(b, d)),
{
    let x = merged_files(a, c);
    let y = merged_files(b, d);
    assert(x.dom() =~= y.dom());
    assert forall|file: Seq<char>| #[trigger] x.contains_key(file) implies x[file].dom()
        == y[file].dom() by {
        if a.contains_key(file) && c.contains_key(file) {
            assert(merged_file(a[file], c[file]).dom() =~= merged_file(b[file], d[file]).dom());
        }
    }
    assert forall|file: Seq<char>, name: Seq<char>|
        x.contains_key(file) && #[trigger] x[file].contains_key(name) implies dominated(
        x[file][name],
        y[file][name],
    ) by {
        if a.contains_key(file) && c.contains_key(file) {
            if a[file].contains_key(name) && c[file].contains_key(name) {
                lemma_merged_dominated(
                    a[file][name],
                    b[file][name],
                    c[file][name],
                    d[file][name],
                );
            } else if a[file].contains_key(name) {
                assert(dominated(a[file][name], b[file][name]));
            } else {
                assert(dominated(c[file][name], d[file][name]));
            }
        } else if a.contains_key(file) {
            assert(dominated(a[file][name], b[file][name]));
        } else {
            assert(dominated(c[file][name], d[file][name]));
        }
    }
}

/// Coverage that dominates covers no fewer blocks.
pub proof fn lemma_covered_le(x: Map<Seq<char>, FileView>, y: Map<Seq<char>, FileView>)
    requires
        files_dominated(x, y),
        finite(x),
    ensures
        covered_in(x) <= covered_in(y),
{
    let g = |c: FnView| c.executed_blocks as nat;
    let h = |file: FileView| covered_in_file(file);
    assert forall|file: Seq<char>| x.contains_key(file) implies #[trigger] h(x[file]) <= h(
        y[file],
    ) by {
        assert forall|name: Seq<char>| x[file].contains_key(name) implies #[trigger] g(
            x[file][name],
        ) <= g(y[file][name]) by {
            let a = x[file][name];
            let b = y[file][name];
            assert(dominated(a, b));
            lemma_count_executed_le(a.blocks, b.blocks);
        }
        lemma_sum_values_le(x[file], g, y[file], g);
    }
    lemma_sum_values_le(x, h, y, h);
}

/// Which lines a tally holds depends on the lines that the blocks list, not on counts.
proof fn lemma_tally_block_lines(
    a: Map<u32, u64>,
    b: Map<u32, u64>,
    lines: Seq<u32>,
    c: u64,
    d: u64,
    upto: int,
)
    requires
        a.dom() == b.dom(),
    ensures
        tally_block(a, lines, c, upto).dom() == tally_block(b, lines, d, upto).dom(),
    decreases upto,
{
    if upto <= 0 || upto > lines.len() {
    } else {
        lemma_tally_block_lines(a, b, lines, c, d, upto - 1);
        assert(tally_block(a, lines, c, upto).dom() =~= tally_block(b, lines, d, upto).dom());
    }
}

proof fn lemma_tally_lines(a: Seq<BlockView>, b: Seq<BlockView>, upto: int)
    requires
        a.len() == b.len(),
        forall|k: int| 0 <= k < a.len() ==> (#[trigger] a[k]).lines == b[k].lines,
    ensures
        tally(a, upto).dom() == tally(b, upto).dom(),
    decreases upto,
{
    if upto <= 0 || upto > a.len() {
    } else {
        lemma_tally_lines(a, b, upto - 1);
        assert(a[upto - 1].lines == b[upto - 1].lines);
        lemma_tally_block_lines(
            tally(a, upto - 1),
            tally(b, upto - 1),
            a[upto - 1].lines,
            a[upto - 1].counter,
            b[upto - 1].counter,
            a[upto - 1].lines.len() as int,
        );
    }
}

/// Lists of the lines of tables with the same lines are of one length.
proof fn lemma_listed_lines_len(
    x: Seq<LineCoverage>,
    a: Map<u32, u64>,
    y: Seq<LineCoverage>,
    b: Map<u32, u64>,
)
    requires
        lists_lines(x, a),
        lists_lines(y, b),
        a.dom() == b.dom(),
    ensures
        x.len() == y.len(),
{
    let p = x.map_values(|l: LineCoverage| l.lineno);
    let q = y.map_values(|l: LineCoverage| l.lineno);
    assert(p.no_duplicates()) by {
        assert forall|i: int, j: int| 0 <= i < p.len() && 0 <= j < p.len() && i != j implies p[i]
            != p[j] by {
            if i < j {
                assert(x[i].lineno != x[j].lineno);
            } else {
                assert(x[j].lineno != x[i].lineno);
            }
        }
    }
    assert(q.no_duplicates()) by {
        assert forall|i: int, j: int| 0 <= i < q.len() && 0 <= j < q.len() && i != j implies q[i]
            != q[j] by {
            if i < j {
                assert(y[i].lineno != y[j].lineno);
            } else {
                assert(y[j].lineno != y[i].lineno);
            }
        }
    }
    assert(p.to_set() =~= a.dom()) by {
        assert forall|l: u32| p.to_set().contains(l) <==> a.dom().contains(l) by {
            if p.to_set().contains(l) {
                let i = choose|i: int| 0 <= i < p.len() && p[i] == l;
                assert(a.contains_key(x[i].lineno));
            }
            if a.dom().contains(l) {
                let i = choose|i: int| 0 <= i < x.len() && (#[trigger] x[i]).lineno == l;
                assert(p[i] == l);
            }
        }
    }
    assert(q.to_set() =~= b.dom()) by {
        assert forall|l: u32| q.to_set().contains(l) <==> b.dom().contains(l) by {
            if q.to_set().contains(l) {
                let i = choose|i: int| 0 <= i < q.len() && q[i] == l;
                assert(b.contains_key(y[i].lineno));
            }
            if b.dom().contains(l) {
                let i = choose|i: int| 0 <= i < y.len() && (#[trigger] y[i]).lineno == l;
                assert(q[i] == l);
            }
        }
    }
    p.unique_seq_to_set();
    q.unique_seq_to_set();
}

/// The coverage of a function that has grown dominates the coverage of the function as
/// it was.
pub proof fn lemma_cover_dominated(
    f: FunctionView,
    g: FunctionView,
    version: u32,
    c: FnView,
    d: FnView,
)
    requires
        f.wf(),
        g.wf(),
        roomy(f),
        grown(f, g),
        covers(c, accounted(reconciled(f, version))),
        covers(d, accounted(reconciled(g, version))),
    ensures
        dominated(c, d),
{
    lemma_reconciled_is_closed(f, version);
    lemma_reconciled_is_closed(g, version);
    let rf = reconciled(f, version);
    let rg = reconciled(g, version);
    assert(rf.blocks.len() == f.blocks.len());
    assert(rg.blocks.len() == g.blocks.len());
    assert forall|b: int| 0 <= b < f.blocks.len() implies (#[trigger] rf.blocks[b]).counter
        == f.blocks[b].counter && rg.blocks[b].counter == g.blocks[b].counter
        && rf.blocks[b].lines == rg.blocks[b].lines by {
        assert(g.blocks[b].lines == f.blocks[b].lines);
    }
    lemma_count_executed_bound(c.blocks);
    lemma_count_executed_bound(d.blocks);
    assert(c.blocks.len() == d.blocks.len());
    assert forall|i: int| 0 <= i < c.blocks.len() implies (#[trigger] c.blocks[i]).executions
        <= d.blocks[i].executions by {
        assert(rf.blocks[i].counter == f.blocks[i].counter);
        assert(g.blocks[i].counter >= f.blocks[i].counter);
    }
    lemma_tally_lines(rf.blocks, rg.blocks, rf.blocks.len() as int);
    assert(accounted(rf).lines.dom() =~= accounted(rg).lines.dom());
    lemma_listed_lines_len(c.lines, accounted(rf).lines, d.lines, accounted(rg).lines);
}

/// Coverage that holds that of functions is finite.
pub proof fn lemma_emits_finite(files: Map<Seq<char>, FileView>, functions: Seq<FunctionView>)
    requires
        emits(files, functions),
    ensures
        finite(files),
{
    let file_names = functions.map_values(|f: FunctionView| f.file_name);
    let names = functions.map_values(|f: FunctionView| f.name);
    assert(files.dom().subset_of(file_names.to_set())) by {
        assert forall|file: Seq<char>| files.dom().contains(file) implies file_names.to_set().contains(
            file,
        ) by {
            assert(files.contains_key(file));
            let i = choose|i: int|
                0 <= i < functions.len() && (#[trigger] functions[i]).file_name == file;
            assert(file_names[i] == file);
        }
    }
    vstd::seq_lib::seq_to_set_is_finite(file_names);
    vstd::set_lib::lemma_len_subset(files.dom(), file_names.to_set());
    vstd::seq_lib::seq_to_set_is_finite(names);
    assert forall|file: Seq<char>| #[trigger] files.contains_key(file) implies files[file].dom().finite() by {
        assert(files[file].dom().subset_of(names.to_set())) by {
            assert forall|name: Seq<char>| files[file].dom().contains(name) implies names.to_set().contains(
                name,
            ) by {
                assert(files.contains_key(file) && files[file].contains_key(name));
                let i = choose|i: int|
                    0 <= i < functions.len() && (#[trigger] functions[i]).file_name == file
                        && functions[i].name == name;
                assert(names[i] == name);
            }
        }
        vstd::set_lib::lemma_len_subset(files[file].dom(), names.to_set());
    }
}

/// The coverage built from notes that have grown dominates the coverage built from the
/// notes as they were.
pub proof fn lemma_built_dominated(
    a: GcnoView,
    b: GcnoView,
    p: Map<Seq<char>, FileView>,
    q: Map<Seq<char>, FileView>,
)
    requires
        a.wf(),
        b.wf(),
        notes_roomy(a),
        notes_grown(a, b),
        emits(p, finished(a)),
        emits(q, finished(b)),
    ensures
        files_dominated(p, q),
{
    let fa = finished(a);
    let fb = finished(b);
    assert forall|i: int| 0 <= i < fa.len() implies (#[trigger] fa[i]).file_name
        == fb[i].file_name && fa[i].name == fb[i].name by {
        assert(grown(a.functions[i], b.functions[i]));
        lemma_finished_names(a.functions[i], a.version);
        lemma_finished_names(b.functions[i], b.version);
    }
    assert forall|file: Seq<char>| p.contains_key(file) <==> q.contains_key(file) by {
        if p.contains_key(file) {
            let i = choose|i: int| 0 <= i < fa.len() && (#[trigger] fa[i]).file_name == file;
            assert(fb[i].file_name == file);
        }
        if q.contains_key(file) {
            let i = choose|i: int| 0 <= i < fb.len() && (#[trigger] fb[i]).file_name == file;
            assert(fa[i].file_name == file);
        }
    }
    assert(p.dom() =~= q.dom());
    assert forall|file: Seq<char>, name: Seq<char>|
        p.contains_key(file) && p[file].contains_key(name) <==> q.contains_key(file)
            && q[file].contains_key(name) by {
        if p.contains_key(file) && p[file].contains_key(name) {
            let i = choose|i: int|
                0 <= i < fa.len() && (#[trigger] fa[i]).file_name == file && fa[i].name == name;
            assert(fb[i].file_name == file && fb[i].name == name);
        }
        if q.contains_key(file) && q[file].contains_key(name) {
            let i = choose|i: int|
                0 <= i < fb.len() && (#[trigger] fb[i]).file_name == file && fb[i].name == name;
            assert(fa[i].file_name == file && fa[i].name == name);
        }
    }
    assert forall|file: Seq<char>| #[trigger] p.contains_key(file) implies p[file].dom()
        == q[file].dom() by {
        assert(q.contains_key(file));
        assert forall|name: Seq<char>| p[file].contains_key(name) <==> q[file].contains_key(
            name,
        ) by {
            if p[file].contains_key(name) {
                assert(p.contains_key(file) && p[file].contains_key(name));
            }
            if q[file].contains_key(name) {
                assert(q.contains_key(file) && q[file].contains_key(name));
            }
        }
        assert(p[file].dom() =~= q[file].dom());
    }
    assert forall|file: Seq<char>, name: Seq<char>|
        p.contains_key(file) && #[trigger] p[file].contains_key(name) implies dominated(
        p[file][name],
        q[file][name],
    ) by {
        let i = choose|i: int|
            0 <= i < fa.len() && (#[trigger] fa[i]).file_name == file && fa[i].name == name;
        assert(fb[i].file_name == file && fb[i].name == name);
        assert(covers(p[fa[i].file_name][fa[i].name], fa[i]));
        assert(covers(q[fb[i].file_name][fb[i].name], fb[i]));
        assert(a.functions[i].wf() && b.functions[i].wf());
        assert(roomy(a.functions[i]));
        assert(grown(a.functions[i], b.functions[i]));
        lemma_cover_dominated(
            a.functions[i],
            b.functions[i],
            a.version,
            p[file][name],
            q[file][name],
        );
    }
}

/// Finding counters and accounting for lines leaves the names of a function alone.
proof fn lemma_finished_names(f: FunctionView, version: u32)
    ensures
        accounted(reconciled(f, version)).name == f.name,
        accounted(reconciled(f, version)).file_name == f.file_name,
{
}

/// Every session is well formed.
pub open spec fn sessions_sound(sessions: SessionsView) -> bool {
    forall|n: Seq<char>| #[trigger] sessions.contains_key(n) ==> sessions[n].wf()
}

/// `after` holds the sessions of `before`, each with more data folded in.
pub open spec fn sessions_grown(before: SessionsView, after: SessionsView) -> bool {
    &&& after.dom() == before.dom()
    &&& forall|n: Seq<char>| #[trigger]
        before.contains_key(n) ==> notes_grown(before[n].gcno, after[n].gcno)
}

proof fn lemma_notes_grown_self(g: GcnoView)
    ensures
        notes_grown(g, g),
{
    assert forall|i: int| 0 <= i < g.functions.len() implies grown(
        g.functions[i],
        #[trigger] g.functions[i],
    ) by {}
}

/// The data of a message makes the sessions grow.
pub proof fn lemma_delivery_grown(sessions: SessionsView, path: Seq<char>, data: Seq<u8>)
    requires
        sessions_sound(sessions),
    ensures
        sessions_sound(after_delivery(sessions, path, data).0),
        sessions_grown(sessions, after_delivery(sessions, path, data).0),
{
    let next = after_delivery(sessions, path, data).0;
    assert forall|n: Seq<char>| #[trigger] sessions.contains_key(n) implies notes_grown(
        sessions[n].gcno,
        sessions[n].gcno,
    ) by {
        lemma_notes_grown_self(sessions[n].gcno);
    }
    if sessions.contains_key(path) {
        lemma_fold_data_grown(data, sessions[path]);
        assert(next.dom() =~= sessions.dom());
    }
}

/// A stream of frames makes the sessions grow, however it ends.
pub proof fn lemma_absorbed_grown(sessions: SessionsView, stream: Seq<u8>, log: Seq<Delivery>)
    requires
        sessions_sound(sessions),
    ensures
        sessions_sound(absorbed(sessions, stream, log).0),
        sessions_grown(sessions, absorbed(sessions, stream, log).0),
    decreases stream.len(),
{
    assert forall|n: Seq<char>| #[trigger] sessions.contains_key(n) implies notes_grown(
        sessions[n].gcno,
        sessions[n].gcno,
    ) by {
        lemma_notes_grown_self(sessions[n].gcno);
    }
    if stream.len() != 0 && holds_frame(stream) {
        if let Some((path, data)) = postcard_decoding(first_payload(stream)) {
            let (next, delivery) = after_delivery(sessions, path, data);
            lemma_delivery_grown(sessions, path, data);
            lemma_absorbed_grown(next, behind_frame(stream), log.push(delivery));
            let last = absorbed(next, behind_frame(stream), log.push(delivery)).0;
            assert forall|n: Seq<char>| #[trigger] sessions.contains_key(n) implies notes_grown(
                sessions[n].gcno,
                last[n].gcno,
            ) by {
                assert(next.contains_key(n));
                lemma_notes_grown_on(sessions[n].gcno, next[n].gcno, last[n].gcno);
            }
        }
    }
}

/// Merging observations in one order keeps domination.
proof fn lemma_merged_all_dominated(p: Seq<ProgView>, q: Seq<ProgView>, upto: int)
    requires
        0 < upto <= p.len(),
        upto <= q.len(),
        forall|k: int| 0 <= k < upto ==> files_dominated((#[trigger] p[k]).files, q[k].files),
    ensures
        files_dominated(merged_all(p, upto), merged_all(q, upto)),
    decreases upto,
{
    if upto > 1 {
        lemma_merged_all_dominated(p, q, upto - 1);
        assert(files_dominated(p[upto - 1].files, q[upto - 1].files));
        lemma_merged_files_dominated(
            merged_all(p, upto - 1),
            merged_all(q, upto - 1),
            p[upto - 1].files,
            q[upto - 1].files,
        );
    } else {
        assert(files_dominated(p[0].files, q[0].files));
    }
}

/// Merged observations are finite where each is.
proof fn lemma_merged_all_finite(p: Seq<ProgView>, upto: int)
    requires
        0 < upto <= p.len(),
        forall|k: int| 0 <= k < upto ==> finite((#[trigger] p[k]).files),
    ensures
        finite(merged_all(p, upto)),
    decreases upto,
{
    if upto > 1 {
        lemma_merged_all_finite(p, upto - 1);
        assert(finite(p[upto - 1].files));
        lemma_merged_finite(merged_all(p, upto - 1), p[upto - 1].files);
    } else {
        assert(finite(p[0].files));
    }
}

/// The coverage of one session only grows: what is built after more data was folded in
/// holds the same files and functions and covers no fewer blocks.
pub proof fn lemma_build_grows(before: BuilderView, after: BuilderView, p: ProgView, q: ProgView)
    requires
        before.wf(),
        after.wf(),
        notes_grown(before.gcno, after.gcno),
        built_from(p, before),
        built_from(q, after),
    ensures
        files_dominated(p.files, q.files),
        covered_in(p.files) <= covered_in(q.files),
{
    lemma_built_dominated(before.gcno, after.gcno, p.files, q.files);
    lemma_emits_finite(p.files, finished(before.gcno));
    lemma_covered_le(p.files, q.files);
}

/// Coverage only grows. Of two snapshots of the same sessions in the same order, the one
/// taken after more data was folded in covers no fewer blocks.
pub proof fn lemma_coverage_grows(
    names: Seq<Seq<char>>,
    before: SessionsView,
    after: SessionsView,
    p: ProgView,
    p_parts: Seq<ProgView>,
    q: ProgView,
    q_parts: Seq<ProgView>,
)
    requires
        names.len() > 0,
        forall|i: int| 0 <= i < names.len() ==> before.contains_key(#[trigger] names[i]),
        sessions_sound(before),
        sessions_sound(after),
        sessions_grown(before, after),
        composes(p, p_parts, names, before),
        composes(q, q_parts, names, after),
    ensures
        covered_in(p.files) <= covered_in(q.files),
{
    assert forall|k: int| 0 <= k < names.len() implies files_dominated(
        (#[trigger] p_parts[k]).files,
        q_parts[k].files,
    ) && finite(p_parts[k].files) by {
        let n = names[k];
        assert(before.contains_key(n));
        assert(after.contains_key(n));
        assert(built_from(p_parts[k], before[n]));
        assert(built_from(q_parts[k], after[n]));
        lemma_built_dominated(before[n].gcno, after[n].gcno, p_parts[k].files, q_parts[k].files);
        lemma_emits_finite(p_parts[k].files, finished(before[n].gcno));
    }
    lemma_merged_all_dominated(p_parts, q_parts, names.len() as int);
    lemma_merged_all_finite(p_parts, names.len() as int);
    lemma_covered_le(p.files, q.files);
}

} // verus!
