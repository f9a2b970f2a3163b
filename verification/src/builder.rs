//! The builder of one note file: folding data files into the notes, and building the
//! coverage from them.

use vstd::prelude::*;
use crate::balance::lemma_reconciled_is_closed;
use crate::coverage::ProgCoverage;
use crate::error::Error;
use crate::finish::{
    account_lines, block_counts, covers, emit, emits, finished, names_collide, MSG_NAME_COLLISION,
};
use crate::flow::account_on_tree_arcs;
use crate::graph::{
    function_views, lemma_same_shape_wf, lemma_with_function_at_wf, notes_roomy, roomy, same_shape,
    FunctionView, Gcno, GcnoFunction, GcnoView,
};
use crate::note::{
    discard_scaled, skip_scaled, take_optional_word, GCOV_TAG_FUNCTION, VERSION_CFG_CHECKSUM,
};
use crate::reader::{
    delivered, scaled_length, take_bytes, take_magic, take_quad, take_version, take_word,
    ByteReader, Magic, VERSION_BYTE_LENGTHS,
};
use crate::tables::table_get;

verus! {

pub const GCOV_TAG_COUNTER_ARCS: u32 = 0x01a1_0000;

pub const GCOV_TAG_OBJECT_SUMMARY: u32 = 0xa100_0000;

pub const GCOV_TAG_PROGRAM_SUMMARY: u32 = 0xa300_0000;

pub const MSG_WANT_GCDA: &'static str = "file type gcda needed but gcno found";

pub const MSG_UNKNOWN_FUNCTION: &'static str =
    "invalid function identifier--does not map to any function in corresponding gcno file";

pub const MSG_EDGE_COUNT: &'static str = "incorrect number of edges found for function in gcda";

/// One note file with the data folded into it so far.
pub struct FileCovBuilder {
    gcno: Gcno,
    current_fn_idx: Option<usize>,
    run_counts: u32,
    program_counts: u32,
}

/// What a builder holds.
#[verifier::ext_equal]
pub struct BuilderView {
    pub gcno: GcnoView,
    pub current_fn_idx: Option<usize>,
    pub run_counts: u32,
    pub program_counts: u32,
}

impl View for FileCovBuilder {
    type V = BuilderView;

    closed spec fn view(&self) -> BuilderView {
        BuilderView {
            gcno: self.gcno@,
            current_fn_idx: self.current_fn_idx,
            run_counts: self.run_counts,
            program_counts: self.program_counts,
        }
    }
}

impl BuilderView {
    /// The notes are well formed, and the function that counters go to is one of them.
    pub open spec fn wf(self) -> bool {
        &&& self.gcno.wf()
        &&& self.current_fn_idx matches Some(i) ==> i < self.gcno.functions.len()
    }

    /// A builder that has seen no data.
    pub open spec fn fresh(gcno: GcnoView) -> BuilderView {
        BuilderView { gcno, current_fn_idx: None, run_counts: 0, program_counts: 0 }
    }
}

/// Reading one counter for each edge off the tree, from edge `from` on, into `f`: what `f`
/// has become, and what is left or why reading stopped. Counters read before a failure
/// stay added.
pub open spec fn fold_counters(s: Seq<u8>, f: FunctionView, from: int) -> (
    FunctionView,
    Result<Seq<u8>, Error>,
)
    decreases f.edges.len() - from,
{
    if from < 0 || from >= f.edges.len() {
        (f, Ok(s))
    } else if f.edges[from].on_tree() {
        fold_counters(s, f, from + 1)
    } else {
        match take_quad(s) {
            Err(e) => (f, Err(e)),
            Ok((count, rest)) => fold_counters(rest, f.counted(from, count), from + 1),
        }
    }
}

/// Reading a function record of a data file behind its tag: the function that the
/// counters after it belong to, or none where the record is empty. The record must name
/// a function of the notes, with its checksums.
pub open spec fn take_data_function(s: Seq<u8>, g: GcnoView) -> Result<
    (Option<usize>, Seq<u8>),
    Error,
> {
    match take_word(s) {
        Err(e) => Err(e),
        Ok((length, s1)) => if length == 0 {
            Ok((None, s1))
        } else if length != 3 {
            Err(Error::Length)
        } else {
            match take_word(s1) {
                Err(e) => Err(e),
                Ok((ident, s2)) => match take_word(s2) {
                    Err(e) => Err(e),
                    Ok((line_chksum, s3)) => match take_optional_word(
                        s3,
                        g.version >= VERSION_CFG_CHECKSUM,
                    ) {
                        Err(e) => Err(e),
                        Ok((cfg_chksum, s4)) => if !g.ident_fn_idx.contains_key(ident) {
                            Err(Error::Value(MSG_UNKNOWN_FUNCTION))
                        } else {
                            let i = g.ident_fn_idx[ident];
                            if line_chksum != g.functions[i as int].line_chksum || cfg_chksum
                                != g.functions[i as int].cfg_chksum {
                                Err(Error::Checksum)
                            } else {
                                Ok((Some(i), s4))
                            }
                        },
                    },
                },
            }
        },
    }
}

/// Reading a summary record behind its tag: the run count it reports, or none where the
/// record is empty. The count is the third word of the record; in an object summary
/// whose length is not 9, the first. Two words must be there in any case.
pub open spec fn take_summary(s: Seq<u8>, version: u32, object: bool) -> Result<
    (Option<u32>, Seq<u8>),
    Error,
> {
    match take_word(s) {
        Err(e) => Err(e),
        Ok((word, s1)) => if scaled_length(word, version) == 0 {
            Ok((None, s1))
        } else {
            match take_bytes(s1, scaled_length(word, version)) {
                Err(e) => Err(e),
                Ok((body, rest)) => match take_word(body) {
                    Err(e) => Err(e),
                    Ok((first, b1)) => match take_word(b1) {
                        Err(e) => Err(e),
                        Ok((second, b2)) => if object && scaled_length(word, version) != 9 {
                            Ok((Some(first), rest))
                        } else {
                            match take_word(b2) {
                                Err(e) => Err(e),
                                Ok((third, b3)) => Ok((Some(third), rest)),
                            }
                        },
                    },
                },
            }
        },
    }
}

/// The builder after one record with the nonzero tag `tag`, whose content starts `s`, and
/// what is left or why reading stopped.
pub open spec fn data_record(s: Seq<u8>, tag: u32, st: BuilderView) -> (
    BuilderView,
    Result<Seq<u8>, Error>,
) {
    if tag == GCOV_TAG_FUNCTION {
        match take_data_function(s, st.gcno) {
            Err(e) => (st, Err(e)),
            Ok((None, rest)) => (st, Ok(rest)),
            Ok((Some(i), rest)) => (BuilderView { current_fn_idx: Some(i), ..st }, Ok(rest)),
        }
    } else if tag == GCOV_TAG_COUNTER_ARCS {
        match take_word(s) {
            Err(e) => (st, Err(e)),
            Ok((length, s1)) => match st.current_fn_idx {
                None => (st, Ok(s1)),
                Some(i) => if st.gcno.functions[i as int].real_edge_cnt != length / 2 {
                    (st, Err(Error::Value(MSG_EDGE_COUNT)))
                } else {
                    let (f, left) = fold_counters(s1, st.gcno.functions[i as int], 0);
                    (BuilderView { gcno: st.gcno.with_function_at(i as int, f), ..st }, left)
                },
            },
        }
    } else if tag == GCOV_TAG_OBJECT_SUMMARY {
        match take_summary(s, st.gcno.version, true) {
            Err(e) => (st, Err(e)),
            Ok((None, rest)) => (st, Ok(rest)),
            Ok((Some(runs), rest)) => (
                BuilderView { run_counts: st.run_counts.saturating_add(runs), ..st },
                Ok(rest),
            ),
        }
    } else if tag == GCOV_TAG_PROGRAM_SUMMARY {
        match take_summary(s, st.gcno.version, false) {
            Err(e) => (st, Err(e)),
            Ok((None, rest)) => (st, Ok(rest)),
            Ok((Some(runs), rest)) => (
                BuilderView {
                    run_counts: st.run_counts.saturating_add(runs),
                    program_counts: st.program_counts.saturating_add(1),
                    ..st
                },
                Ok(rest),
            ),
        }
    } else {
        match take_word(s) {
            Err(e) => (st, Err(e)),
            Ok((word, s1)) => match skip_scaled(s1, word, st.gcno.version) {
                Err(e) => (st, Err(e)),
                Ok(rest) => (st, Ok(rest)),
            },
        }
    }
}

/// The builder after the records of `s`, and whether all of them could be read. A record
/// starts with its tag; tag 0 must end the input.
pub open spec fn data_records(s: Seq<u8>, st: BuilderView) -> (BuilderView, Result<(), Error>)
    decreases s.len(),
    via data_records_decreases
{
    if s.len() == 0 {
        (st, Ok(()))
    } else {
        match take_word(s) {
            Err(e) => (st, Err(e)),
            Ok((tag, s1)) => if tag == 0 {
                if s1.len() != 0 {
                    (st, Err(Error::TrailingBytes))
                } else {
                    (st, Ok(()))
                }
            } else {
                match data_record(s1, tag, st) {
                    (next, Err(e)) => (next, Err(e)),
                    (next, Ok(rest)) => data_records(rest, next),
                }
            },
        }
    }
}

#[via_fn]
proof fn data_records_decreases(s: Seq<u8>, st: BuilderView) {
    if let Ok((tag, s1)) = take_word(s) {
        lemma_data_record_shrinks(s1, tag, st);
    }
}

/// Reading counters leaves no more than it was given, and keeps the function's shape.
pub proof fn lemma_fold_counters(s: Seq<u8>, f: FunctionView, from: int)
    requires
        f.wf(),
    ensures
        same_shape(f, fold_counters(s, f, from).0),
        fold_counters(s, f, from).1 matches Ok(rest) ==> rest.len() <= s.len(),
    decreases f.edges.len() - from,
{
    if from < 0 || from >= f.edges.len() {
    } else if f.edges[from].on_tree() {
        lemma_fold_counters(s, f, from + 1);
    } else {
        if let Ok((count, rest)) = take_quad(s) {
            let g = f.counted(from, count);
            assert(f.edges[from].src < f.blocks.len());
            assert(same_shape(f, g));
            lemma_same_shape_wf(f, g);
            lemma_fold_counters(rest, g, from + 1);
            let h = fold_counters(rest, g, from + 1).0;
            assert(same_shape(f, h)) by {
                assert forall|b: int| 0 <= b < f.blocks.len() implies (#[trigger] h.blocks[b]).src
                    == f.blocks[b].src && h.blocks[b].dst == f.blocks[b].dst by {
                    assert(g.blocks[b].src == f.blocks[b].src);
                }
                assert forall|e: int| 0 <= e < f.edges.len() implies (#[trigger] h.edges[e]).src
                    == f.edges[e].src && h.edges[e].dst == f.edges[e].dst && h.edges[e].flags
                    == f.edges[e].flags by {
                    assert(g.edges[e].src == f.edges[e].src);
                }
            }
        }
    }
}

/// A record leaves no more than it was given.
pub proof fn lemma_data_record_shrinks(s: Seq<u8>, tag: u32, st: BuilderView)
    ensures
        data_record(s, tag, st).1 matches Ok(rest) ==> rest.len() <= s.len(),
{
    if tag == GCOV_TAG_COUNTER_ARCS {
        if let Ok((length, s1)) = take_word(s) {
            if let Some(i) = st.current_fn_idx {
                lemma_fold_counters_shrinks(s1, st.gcno.functions[i as int], 0);
            }
        }
    }
}

/// Reading counters leaves no more than it was given.
pub proof fn lemma_fold_counters_shrinks(s: Seq<u8>, f: FunctionView, from: int)
    ensures
        fold_counters(s, f, from).1 matches Ok(rest) ==> rest.len() <= s.len(),
        fold_counters(s, f, from).0.edges.len() == f.edges.len(),
    decreases f.edges.len() - from,
{
    if from < 0 || from >= f.edges.len() {
    } else if f.edges[from].on_tree() {
        lemma_fold_counters_shrinks(s, f, from + 1);
    } else {
        if let Ok((count, rest)) = take_quad(s) {
            lemma_fold_counters_shrinks(rest, f.counted(from, count), from + 1);
        }
    }
}

/// What a data file does to a builder: the builder afterwards, and whether the file
/// could be read to its end. The file must be a data file of the notes' version and
/// checksum, or the builder stays as it is.
pub open spec fn fold_data(input: Seq<u8>, st: BuilderView) -> (BuilderView, Result<(), Error>) {
    match take_magic(input) {
        Err(e) => (st, Err(e)),
        Ok((magic, s1)) => if magic != Magic::Gcda {
            (st, Err(Error::Value(MSG_WANT_GCDA)))
        } else {
            match take_version(s1) {
                Err(e) => (st, Err(e)),
                Ok((version, s2)) => match take_word(s2) {
                    Err(e) => (st, Err(e)),
                    Ok((chksum, s3)) => if version != st.gcno.version {
                        (st, Err(Error::VersionMismatch))
                    } else if chksum != st.gcno.chksum {
                        (st, Err(Error::Checksum))
                    } else {
                        data_records(s3, st)
                    },
                },
            }
        },
    }
}

/// A read of a record with the result `got`, which left the builder as `st` and `after`
/// of the input, did what `want` says.
pub open spec fn record_read(
    want: (BuilderView, Result<Seq<u8>, Error>),
    st: BuilderView,
    got: Result<(), Error>,
    after: Seq<u8>,
) -> bool {
    &&& st == want.0
    &&& match want.1 {
        Ok(rest) => got is Ok && after == rest,
        Err(e) => got == Err::<(), Error>(e),
    }
}

/// Reads one counter for each edge off the tree into `function`.
fn read_counters(reader: &mut ByteReader<'_>, function: &mut GcnoFunction) -> (r: Result<(), Error>)
    requires
        old(function)@.wf(),
    ensures
        final(function)@ == fold_counters(old(reader)@, old(function)@, 0).0,
        match fold_counters(old(reader)@, old(function)@, 0).1 {
            Ok(rest) => r is Ok && final(reader)@ == rest,
            Err(e) => r == Err::<(), Error>(e),
        },
        same_shape(old(function)@, final(function)@),
{
    let ghost before = function@;
    let ghost start = reader@;
    let count = function.edges.len();
    let mut i: usize = 0;
    proof {
        lemma_fold_counters(start, before, 0);
    }
    while i < count
        invariant
            i <= count == function.edges@.len(),
            function@.wf(),
            same_shape(before, function@),
            fold_counters(reader@, function@, i as int) == fold_counters(start, before, 0),
            before == old(function)@,
            start == old(reader)@,
        decreases count - i,
    {
        if !function.edges[i].is_on_tree() {
            let ghost f = function@;
            let counter = match reader.get_u64() {
                Ok(counter) => counter,
                Err(e) => {
                    return Err(e);
                },
            };
            let src = function.edges[i].src;
            assert(f.edges[i as int].src < f.blocks.len());
            let in_block = function.blocks[src].counter.saturating_add(counter);
            function.blocks[src].counter = in_block;
            let in_edge = function.edges[i].counter.saturating_add(counter);
            function.edges[i].counter = in_edge;
            proof {
                assert(function@.blocks =~= f.counted(i as int, counter).blocks);
                assert(function@.edges =~= f.counted(i as int, counter).edges);
                assert(function@ =~= f.counted(i as int, counter));
                assert(same_shape(f, function@));
                lemma_same_shape_wf(f, function@);
            }
        }
        i += 1;
    }
    Ok(())
}

impl FileCovBuilder {
    /// The notes are well formed, and the function that counters go to is one of them.
    pub open spec fn wf(&self) -> bool {
        self@.wf()
    }

    /// A builder for well-formed notes, such as `Gcno::from_slice` returns.
    pub fn new(gcno: Gcno) -> (r: Self)
        requires
            gcno.wf(),
        ensures
            r@ == BuilderView::fresh(gcno@),
            r.wf(),
    {
        Self { gcno, current_fn_idx: None, run_counts: 0, program_counts: 0 }
    }

    /// The coverage that the notes and the data folded in so far describe. The counters
    /// of all edges and blocks are found, the lines accounted for, and the coverage of
    /// each function is entered under its file and its name. This fails where two
    /// functions bear the same name in one file. No function has more executed blocks
    /// than blocks, and every block is reported with the count that the data gave it.
    /// Every function had room for the edge that closes its cycle.
    pub fn build(self) -> (r: Result<ProgCoverage, Error>)
        requires
            self.wf(),
        ensures
            match r {
                Ok(p) => !names_collide(finished(self@.gcno)) && p@.cwd == self@.gcno.cwd
                    && emits(p@.files, finished(self@.gcno)) && notes_roomy(self@.gcno),
                Err(e) => names_collide(finished(self@.gcno)) && e == Error::Value(
                    MSG_NAME_COLLISION,
                ),
            },
            r matches Ok(p) ==> forall|file: Seq<char>, name: Seq<char>|
                p@.files.contains_key(file) && #[trigger] p@.files[file].contains_key(name)
                    ==> p@.files[file][name].executed_blocks <= p@.files[file][name].total_blocks,
            r matches Ok(p) ==> forall|i: int|
                0 <= i < self@.gcno.functions.len() ==> p@.files[(
                #[trigger] self@.gcno.functions[i]).file_name][self@.gcno.functions[i].name].blocks
                    == block_counts(self@.gcno.functions[i].blocks),
    {
        let mut this = self;
        account_on_tree_arcs(&mut this.gcno);
        account_lines(&mut this.gcno);
        assert(function_views(this.gcno.functions@) =~= finished(self@.gcno));
        let files = emit(&this.gcno.functions)?;
        let coverage = ProgCoverage { cwd: this.gcno.cwd, files };
        proof {
            lemma_emitted_within(coverage@.files, finished(self@.gcno));
            assert forall|i: int| 0 <= i < self@.gcno.functions.len() implies coverage@.files[(
            #[trigger] self@.gcno.functions[i]).file_name][self@.gcno.functions[i].name].blocks
                == block_counts(self@.gcno.functions[i].blocks) by {
                let f = self@.gcno.functions[i];
                let done = finished(self@.gcno)[i];
                assert(f.wf());
                assert(roomy(f));
                lemma_reconciled_is_closed(f, self@.gcno.version);
                assert(covers(coverage@.files[done.file_name][done.name], done));
                assert(block_counts(done.blocks) =~= block_counts(f.blocks));
            }
        }
        Ok(coverage)
    }

    /// Folds a data file into the builder. Where the file cannot be read to its end, what
    /// was read before stays folded in.
    pub fn add_gcda(&mut self, input: &[u8]) -> (r: Result<(), Error>)
        requires
            old(self).wf(),
        ensures
            (final(self)@, r) == fold_data(input@, old(self)@),
            final(self).wf(),
    {
        let mut reader = ByteReader::new(input);
        let magic = reader.get_magic_number()?;
        match magic {
            Magic::Gcda => {},
            Magic::Gcno => {
                return Err(Error::Value(MSG_WANT_GCDA));
            },
        }
        let version = reader.get_version()?;
        let chksum = reader.get_u32()?;
        if version != self.gcno.version {
            return Err(Error::VersionMismatch);
        }
        if chksum != self.gcno.chksum {
            return Err(Error::Checksum);
        }
        while !reader.is_empty()
            invariant
                fold_data(input@, old(self)@) == data_records(reader@, self@),
                self.wf(),
            decreases reader@.len(),
        {
            let tag = reader.get_u32()?;
            if tag == 0 {
                if !reader.is_empty() {
                    return Err(Error::TrailingBytes);
                }
                return Ok(());
            }
            proof {
                lemma_data_record_shrinks(reader@, tag, self@);
            }
            self.read_record(&mut reader, tag)?;
        }
        Ok(())
    }

    /// Reads the record with the nonzero tag `tag` into the builder.
    fn read_record(&mut self, reader: &mut ByteReader<'_>, tag: u32) -> (r: Result<(), Error>)
        requires
            old(self).wf(),
            tag != 0,
        ensures
            record_read(data_record(old(reader)@, tag, old(self)@), final(self)@, r, final(reader)@),
            final(self).wf(),
    {
        if tag == GCOV_TAG_FUNCTION {
            self.read_function(reader)
        } else if tag == GCOV_TAG_COUNTER_ARCS {
            self.read_arcs(reader)
        } else if tag == GCOV_TAG_OBJECT_SUMMARY {
            match read_summary(reader, self.gcno.version, true)? {
                Some(runs) => {
                    self.run_counts = self.run_counts.saturating_add(runs);
                },
                None => {},
            }
            Ok(())
        } else if tag == GCOV_TAG_PROGRAM_SUMMARY {
            match read_summary(reader, self.gcno.version, false)? {
                Some(runs) => {
                    self.run_counts = self.run_counts.saturating_add(runs);
                    self.program_counts = self.program_counts.saturating_add(1);
                },
                None => {},
            }
            Ok(())
        } else {
            let word = reader.get_u32()?;
            discard_scaled(reader, word, self.gcno.version)
        }
    }

    fn read_function(&mut self, reader: &mut ByteReader<'_>) -> (r: Result<(), Error>)
        requires
            old(self).wf(),
        ensures
            record_read(
                data_record(old(reader)@, GCOV_TAG_FUNCTION, old(self)@),
                final(self)@,
                r,
                final(reader)@,
            ),
            final(self).wf(),
    {
        let length = reader.get_u32()?;
        if length == 0 {
            return Ok(());
        }
        if length != 3 {
            return Err(Error::Length);
        }
        let function_id = reader.get_u32()?;
        let line_chksum = reader.get_u32()?;
        let cfg_chksum = if self.gcno.version >= VERSION_CFG_CHECKSUM {
            Some(reader.get_u32()?)
        } else {
            None
        };
        broadcast use vstd::std_specs::hash::axiom_u32_obeys_hash_table_key_model;

        let function_idx = match table_get(&self.gcno.ident_fn_idx, &function_id) {
            Some(idx) => *idx,
            None => {
                return Err(Error::Value(MSG_UNKNOWN_FUNCTION));
            },
        };
        assert(self@.gcno.ident_fn_idx.contains_key(function_id));
        assert(function_idx < self.gcno.functions@.len());
        let function = &self.gcno.functions[function_idx];
        assert(function@ == self@.gcno.functions[function_idx as int]);
        let same_cfg = match (cfg_chksum, function.cfg_chksum) {
            (Some(a), Some(b)) => a == b,
            (None, None) => true,
            _ => false,
        };
        if line_chksum != function.line_chksum || !same_cfg {
            return Err(Error::Checksum);
        }
        self.current_fn_idx = Some(function_idx);
        Ok(())
    }

    fn read_arcs(&mut self, reader: &mut ByteReader<'_>) -> (r: Result<(), Error>)
        requires
            old(self).wf(),
        ensures
            record_read(
                data_record(old(reader)@, GCOV_TAG_COUNTER_ARCS, old(self)@),
                final(self)@,
                r,
                final(reader)@,
            ),
            final(self).wf(),
    {
        let ghost st = self@;
        let length = reader.get_u32()?;
        let function_idx = match self.current_fn_idx {
            Some(idx) => idx,
            None => {
                return Ok(());
            },
        };
        assert(st.gcno.functions[function_idx as int] == self.gcno.functions@[function_idx as int]@);
        assert(st.gcno.functions[function_idx as int].wf());
        if self.gcno.functions[function_idx].real_edge_cnt != (length / 2) as usize {
            return Err(Error::Value(MSG_EDGE_COUNT));
        }
        let r = read_counters(reader, &mut self.gcno.functions[function_idx]);
        proof {
            let f = self.gcno.functions@[function_idx as int]@;
            assert(function_views(self.gcno.functions@) =~= st.gcno.functions.update(
                function_idx as int,
                f,
            ));
            assert(self@.gcno =~= st.gcno.with_function_at(function_idx as int, f));
            lemma_with_function_at_wf(st.gcno, function_idx as int, f);
        }
        r
    }
}

impl Clone for FileCovBuilder {
    fn clone(&self) -> (r: Self)
        ensures
            r@ == self@,
    {
        Self {
            gcno: self.gcno.clone(),
            current_fn_idx: self.current_fn_idx,
            run_counts: self.run_counts,
            program_counts: self.program_counts,
        }
    }
}

/// Coverage that holds that of functions reports no more executed blocks than blocks.
pub proof fn lemma_emitted_within(files: Map<Seq<char>, crate::coverage::FileView>, functions: Seq<FunctionView>)
    requires
        emits(files, functions),
    ensures
        forall|file: Seq<char>, name: Seq<char>|
            files.contains_key(file) && #[trigger] files[file].contains_key(name)
                ==> files[file][name].wf(),
        forall|file: Seq<char>, name: Seq<char>|
            files.contains_key(file) && #[trigger] files[file].contains_key(name)
                ==> files[file][name].executed_blocks <= files[file][name].total_blocks,
{
    assert forall|file: Seq<char>, name: Seq<char>|
        files.contains_key(file) && #[trigger] files[file].contains_key(name) implies files[file][name].wf()
        && files[file][name].executed_blocks <= files[file][name].total_blocks by {
        let i = choose|i: int|
            0 <= i < functions.len() && (#[trigger] functions[i]).file_name == file
                && functions[i].name == name;
        assert(covers(files[file][name], functions[i]));
        crate::coverage::lemma_count_executed_bound(files[file][name].blocks);
        assert(block_counts(functions[i].blocks).len() == functions[i].blocks.len());
    }
}

/// Reads a summary record behind its tag.
fn read_summary(reader: &mut ByteReader<'_>, version: u32, object: bool) -> (r: Result<
    Option<u32>,
    Error,
>)
    ensures
        delivered(take_summary(old(reader)@, version, object), r, final(reader)@),
{
    let word = reader.get_u32()?;
    let length: u64 = if version < VERSION_BYTE_LENGTHS {
        (word as u64) * 4
    } else {
        word as u64
    };
    if length == 0 {
        return Ok(None);
    }
    if length > reader.remainder().len() as u64 {
        return Err(Error::InsufficientBytes);
    }
    let body = reader.get_bytes(length as usize)?;
    let mut summary = ByteReader::new(body);
    let first = summary.get_u32()?;
    let _second = summary.get_u32()?;
    if object && length != 9 {
        Ok(Some(first))
    } else {
        Ok(Some(summary.get_u32()?))
    }
}

} // verus!
