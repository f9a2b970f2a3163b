//! Decoding a note file.

use vstd::prelude::*;
use std::collections::HashMap;
use fxhash::FxHashMap;
use crate::error::Error;
use crate::graph::{
    block_views, first_beyond, function_views, lemma_first_beyond_is, lemma_with_arc_wf,
    lemma_with_blocks_wf, lemma_with_line_wf, sorted_by_destination, BlockView,
    FunctionView, Gcno, GcnoBlock, GcnoEdge, GcnoFunction, GcnoView, GCOV_ARC_ON_TREE,
};
use crate::reader::{
    delivered, scaled_length, take_bytes, take_magic, take_string, take_version, take_word,
    ByteReader, Magic, VERSION_BYTE_LENGTHS,
};
use crate::tables::table_insert;

verus! {

pub const GCOV_TAG_FUNCTION: u32 = 0x0100_0000;

pub const GCOV_TAG_BLOCKS: u32 = 0x0141_0000;

pub const GCOV_TAG_ARCS: u32 = 0x0143_0000;

pub const GCOV_TAG_LINES: u32 = 0x0145_0000;

/// From this version on a function record holds the checksum of its control-flow graph.
pub const VERSION_CFG_CHECKSUM: u32 = 47;

/// From this version on a function record holds columns, an end line and the artificial
/// flag, and the header a flag for unexecuted blocks.
pub const VERSION_EXTENT: u32 = 80;

/// From this version on the header holds the working directory.
pub const VERSION_CWD: u32 = 90;

/// From this version on the header holds a stamp before the checksum.
pub const VERSION_STAMP: u32 = 113;

pub const MSG_WANT_GCNO: &'static str = ".gcda magic number where .gcno was expected";

pub const MSG_ARCS_BLOCK: &'static str = "block id exceeded total block count in arcs";

pub const MSG_ARCS_TARGET: &'static str = "destination block id exceeded total block count in arcs";

pub const MSG_LINES_BLOCK: &'static str = "block id exceeded total block count in lines";

pub const MSG_NO_END_LINE: &'static str = "missing end line despite version indicating presence";

/// Reading a word that is there only if `present`.
pub open spec fn take_optional_word(s: Seq<u8>, present: bool) -> Result<
    (Option<u32>, Seq<u8>),
    Error,
> {
    if present {
        match take_word(s) {
            Ok((w, rest)) => Ok((Some(w), rest)),
            Err(e) => Err(e),
        }
    } else {
        Ok((None, s))
    }
}

/// Skipping a field of `word` length units, scaled by the version.
pub open spec fn skip_scaled(s: Seq<u8>, word: u32, version: u32) -> Result<Seq<u8>, Error> {
    if scaled_length(word, version) <= s.len() {
        Ok(s.skip(scaled_length(word, version)))
    } else {
        Err(Error::InsufficientBytes)
    }
}

/// The first five fields of a function record.
pub struct FunctionHead {
    pub ident: u32,
    pub line_chksum: u32,
    pub cfg_chksum: Option<u32>,
    pub name: Seq<char>,
    pub artificial: Option<u32>,
}

/// Reading the first five fields of a function record.
pub open spec fn take_function_head(s: Seq<u8>, version: u32) -> Result<
    (FunctionHead, Seq<u8>),
    Error,
> {
    match take_word(s) {
        Err(e) => Err(e),
        Ok((ident, s1)) => match take_word(s1) {
            Err(e) => Err(e),
            Ok((line_chksum, s2)) => match take_optional_word(s2, version >= VERSION_CFG_CHECKSUM) {
                Err(e) => Err(e),
                Ok((cfg_chksum, s3)) => match take_string(s3, version) {
                    Err(e) => Err(e),
                    Ok((name, s4)) => match take_optional_word(s4, version >= VERSION_EXTENT) {
                        Err(e) => Err(e),
                        Ok((artificial, s5)) => Ok(
                            (
                                FunctionHead { ident, line_chksum, cfg_chksum, name, artificial },
                                s5,
                            ),
                        ),
                    },
                },
            },
        },
    }
}

/// The function that the body of a function record describes, still without blocks,
/// edges and lines. The body must hold the fields and nothing more.
pub open spec fn function_of(body: Seq<u8>, version: u32) -> Result<FunctionView, Error> {
    match take_function_head(body, version) {
        Err(e) => Err(e),
        Ok((head, s5)) => match take_string(s5, version) {
            Err(e) => Err(e),
            Ok((file_name, s6)) => match take_word(s6) {
                Err(e) => Err(e),
                Ok((start_line, s7)) => match take_optional_word(s7, version >= VERSION_EXTENT) {
                    Err(e) => Err(e),
                    Ok((start_col, s8)) => match take_optional_word(s8, version >= VERSION_EXTENT) {
                        Err(e) => Err(e),
                        Ok((end_line, s9)) => match take_optional_word(
                            s9,
                            version >= VERSION_EXTENT,
                        ) {
                            Err(e) => Err(e),
                            Ok((end_col, s10)) => if s10.len() != 0 {
                                Err(Error::TrailingBytes)
                            } else {
                                Ok(
                                    FunctionView {
                                        ident: head.ident,
                                        line_chksum: head.line_chksum,
                                        cfg_chksum: head.cfg_chksum,
                                        name: head.name,
                                        artificial: head.artificial,
                                        file_name,
                                        start_line,
                                        start_col,
                                        end_line,
                                        end_col,
                                        lines: Map::empty(),
                                        blocks: Seq::empty(),
                                        edges: Seq::empty(),
                                        real_edge_cnt: 0,
                                        executed: false,
                                    },
                                )
                            },
                        },
                    },
                },
            },
        },
    }
}

/// Reading a function record behind its tag: a length, then a body of that length.
pub open spec fn take_function(s: Seq<u8>, version: u32) -> Result<(FunctionView, Seq<u8>), Error> {
    match take_word(s) {
        Err(e) => Err(e),
        Ok((word, s1)) => match take_bytes(s1, scaled_length(word, version)) {
            Err(e) => Err(e),
            Ok((body, rest)) => match function_of(body, version) {
                Err(e) => Err(e),
                Ok(f) => Ok((f, rest)),
            },
        },
    }
}

/// Reading a blocks record behind its tag into `f`: what `f` has become, and what is left
/// or why reading stopped. From version 80 on the count of blocks follows the length;
/// before, the length is the count and a flag word follows for each block. Where reading
/// stops, `f` is as it was.
pub open spec fn take_blocks(s: Seq<u8>, f: FunctionView, version: u32) -> (
    FunctionView,
    Result<Seq<u8>, Error>,
) {
    match take_word(s) {
        Err(e) => (f, Err(e)),
        Ok((length, s1)) => if version >= VERSION_EXTENT {
            match take_word(s1) {
                Err(e) => (f, Err(e)),
                Ok((count, s2)) => (f.with_blocks(count as nat), Ok(s2)),
            }
        } else {
            match take_bytes(s1, 4 * length) {
                Err(e) => (f, Err(e)),
                Ok((flags, s2)) => (f.with_blocks(length as nat), Ok(s2)),
            }
        },
    }
}

/// The number of edges that an arcs record of the given length holds, if it can hold
/// the source block at all.
pub open spec fn arc_count(length: u32) -> Option<nat> {
    if length / 4 < 1 {
        None
    } else {
        Some((((length / 4) - 1) / 2) as nat)
    }
}

/// Reading `count` edges that leave block `b` into `f`, for each a destination and flags:
/// what `f` has become, and what is left or why reading stopped. Edges read before a
/// failure stay.
pub open spec fn take_arc_list(s: Seq<u8>, f: FunctionView, b: usize, count: nat) -> (
    FunctionView,
    Result<Seq<u8>, Error>,
)
    decreases count,
{
    if count == 0 {
        (f, Ok(s))
    } else {
        match take_word(s) {
            Err(e) => (f, Err(e)),
            Ok((dst, s1)) => match take_word(s1) {
                Err(e) => (f, Err(e)),
                Ok((flags, s2)) => if dst >= f.blocks.len() {
                    (f, Err(Error::Value(MSG_ARCS_TARGET)))
                } else {
                    take_arc_list(s2, f.with_arc(b, dst as usize, flags), b, (count - 1) as nat)
                },
            },
        }
    }
}

/// Reading an arcs record behind its tag into `f`: what `f` has become, and what is left
/// or why reading stopped. Where reading stops before the first edge, at a length too
/// short or a source block that is not declared, `f` is as it was.
pub open spec fn take_arcs(s: Seq<u8>, f: FunctionView) -> (FunctionView, Result<Seq<u8>, Error>) {
    match take_word(s) {
        Err(e) => (f, Err(e)),
        Ok((length, s1)) => match arc_count(length) {
            None => (f, Err(Error::InsufficientBytes)),
            Some(count) => match take_word(s1) {
                Err(e) => (f, Err(e)),
                Ok((b, s2)) => if b >= f.blocks.len() {
                    (f, Err(Error::Value(MSG_ARCS_BLOCK)))
                } else {
                    take_arc_list(s2, f, b as usize, count)
                },
            },
        },
    }
}

/// Reading the entries of a lines record for block `b` into `f`: what `f` has become, and
/// what is left or why reading stopped. A nonzero word is a line; a zero word is followed
/// by a file name, and the empty name ends the record. `in_file` says whether the last
/// name was the function's own file: only then lines count, and from version 80 on only
/// those within the function's extent. Lines read before a failure stay.
pub open spec fn take_line_list(
    s: Seq<u8>,
    f: FunctionView,
    b: usize,
    version: u32,
    in_file: bool,
) -> (FunctionView, Result<Seq<u8>, Error>)
    decreases s.len(),
{
    match take_word(s) {
        Err(e) => (f, Err(e)),
        Ok((line, s1)) => if line == 0 {
            match take_string(s1, version) {
                Err(e) => (f, Err(e)),
                Ok((name, s2)) => if name.len() == 0 {
                    (f, Ok(s2))
                } else {
                    take_line_list(s2, f, b, version, name == f.file_name)
                },
            }
        } else if !in_file || (version >= VERSION_EXTENT && line < f.start_line) {
            take_line_list(s1, f, b, version, in_file)
        } else if version >= VERSION_EXTENT && f.end_line is None {
            (f, Err(Error::Value(MSG_NO_END_LINE)))
        } else if version >= VERSION_EXTENT && line > f.end_line->Some_0 {
            take_line_list(s1, f, b, version, in_file)
        } else {
            take_line_list(s1, f.with_line(b, line), b, version, in_file)
        },
    }
}

/// Reading a lines record behind its tag into `f`: what `f` has become, and what is left
/// or why reading stopped.
pub open spec fn take_lines(s: Seq<u8>, f: FunctionView, version: u32) -> (
    FunctionView,
    Result<Seq<u8>, Error>,
) {
    match take_word(s) {
        Err(e) => (f, Err(e)),
        Ok((length, s1)) => match take_word(s1) {
            Err(e) => (f, Err(e)),
            Ok((b, s2)) => if b >= f.blocks.len() {
                (f, Err(Error::Value(MSG_LINES_BLOCK)))
            } else {
                take_line_list(s2, f, b as usize, version, false)
            },
        },
    }
}

/// Skipping a record behind its tag: a length word, then that many length units.
pub open spec fn skip_record(s: Seq<u8>, version: u32) -> Result<Seq<u8>, Error> {
    match take_word(s) {
        Err(e) => Err(e),
        Ok((word, s1)) => skip_scaled(s1, word, version),
    }
}

/// The notes after one record with the nonzero tag `tag`, whose content starts `s`. A
/// function record opens a function; blocks, arcs and lines records fill the function
/// opened last; before the first function they are skipped by their length, as any
/// other record is.
pub open spec fn note_record(s: Seq<u8>, tag: u32, g: GcnoView) -> Result<(GcnoView, Seq<u8>), Error> {
    if tag == GCOV_TAG_FUNCTION {
        match take_function(s, g.version) {
            Err(e) => Err(e),
            Ok((f, rest)) => Ok((g.with_function(f), rest)),
        }
    } else if (tag == GCOV_TAG_BLOCKS || tag == GCOV_TAG_ARCS || tag == GCOV_TAG_LINES)
        && g.functions.len() > 0 {
        let (f, left) = if tag == GCOV_TAG_BLOCKS {
            take_blocks(s, g.functions.last(), g.version)
        } else if tag == GCOV_TAG_ARCS {
            take_arcs(s, g.functions.last())
        } else {
            take_lines(s, g.functions.last(), g.version)
        };
        match left {
            Err(e) => Err(e),
            Ok(rest) => Ok((g.with_last(f), rest)),
        }
    } else {
        match skip_record(s, g.version) {
            Err(e) => Err(e),
            Ok(rest) => Ok((g, rest)),
        }
    }
}

/// The notes after the records of `s`. A record starts with its tag; tag 0 must end the
/// input.
pub open spec fn note_records(s: Seq<u8>, g: GcnoView) -> Result<GcnoView, Error>
    decreases s.len(),
    via note_records_decreases
{
    if s.len() == 0 {
        Ok(g)
    } else {
        match take_word(s) {
            Err(e) => Err(e),
            Ok((tag, s1)) => if tag == 0 {
                if s1.len() != 0 {
                    Err(Error::TrailingBytes)
                } else {
                    Ok(g)
                }
            } else {
                match note_record(s1, tag, g) {
                    Err(e) => Err(e),
                    Ok((next, rest)) => note_records(rest, next),
                }
            },
        }
    }
}

#[via_fn]
proof fn note_records_decreases(s: Seq<u8>, g: GcnoView) {
    if let Ok((tag, s1)) = take_word(s) {
        lemma_note_record_shrinks(s1, tag, g);
    }
}

/// A record leaves no more than it was given.
pub proof fn lemma_note_record_shrinks(s: Seq<u8>, tag: u32, g: GcnoView)
    ensures
        note_record(s, tag, g) matches Ok((next, rest)) ==> rest.len() <= s.len(),
{
    if g.functions.len() > 0 {
        lemma_take_arcs_shrinks(s, g.functions.last());
        lemma_take_lines_shrinks(s, g.functions.last(), g.version);
    }
}

/// An arc list leaves no more than it was given.
pub proof fn lemma_take_arc_list_shrinks(s: Seq<u8>, f: FunctionView, b: usize, count: nat)
    ensures
        take_arc_list(s, f, b, count).1 matches Ok(rest) ==> rest.len() <= s.len(),
    decreases count,
{
    if count > 0 {
        if let Ok((dst, s1)) = take_word(s) {
            if let Ok((flags, s2)) = take_word(s1) {
                lemma_take_arc_list_shrinks(
                    s2,
                    f.with_arc(b, dst as usize, flags),
                    b,
                    (count - 1) as nat,
                );
            }
        }
    }
}

/// An arcs record leaves less than it was given.
pub proof fn lemma_take_arcs_shrinks(s: Seq<u8>, f: FunctionView)
    ensures
        take_arcs(s, f).1 matches Ok(rest) ==> rest.len() < s.len(),
{
    if let Ok((length, s1)) = take_word(s) {
        if let Some(count) = arc_count(length) {
            if let Ok((b, s2)) = take_word(s1) {
                lemma_take_arc_list_shrinks(s2, f, b as usize, count);
            }
        }
    }
}

/// A list of lines leaves less than it was given.
pub proof fn lemma_take_line_list_shrinks(
    s: Seq<u8>,
    f: FunctionView,
    b: usize,
    version: u32,
    in_file: bool,
)
    ensures
        take_line_list(s, f, b, version, in_file).1 matches Ok(rest) ==> rest.len() < s.len(),
    decreases s.len(),
{
    if let Ok((line, s1)) = take_word(s) {
        if line == 0 {
            if let Ok((name, s2)) = take_string(s1, version) {
                if name.len() != 0 {
                    lemma_take_line_list_shrinks(s2, f, b, version, name == f.file_name);
                }
            }
        } else if !in_file || (version >= VERSION_EXTENT && line < f.start_line) {
            lemma_take_line_list_shrinks(s1, f, b, version, in_file);
        } else if version >= VERSION_EXTENT && f.end_line is None {
        } else if version >= VERSION_EXTENT && line > f.end_line->Some_0 {
            lemma_take_line_list_shrinks(s1, f, b, version, in_file);
        } else {
            lemma_take_line_list_shrinks(s1, f.with_line(b, line), b, version, in_file);
        }
    }
}

/// A lines record leaves less than it was given.
pub proof fn lemma_take_lines_shrinks(s: Seq<u8>, f: FunctionView, version: u32)
    ensures
        take_lines(s, f, version).1 matches Ok(rest) ==> rest.len() < s.len(),
{
    if let Ok((length, s1)) = take_word(s) {
        if let Ok((b, s2)) = take_word(s1) {
            if b < f.blocks.len() {
                lemma_take_line_list_shrinks(s2, f, b as usize, version, false);
            }
        }
    }
}

/// The header of a note file: version, checksum and working directory.
pub open spec fn take_note_header(s: Seq<u8>) -> Result<(GcnoView, Seq<u8>), Error> {
    match take_magic(s) {
        Err(e) => Err(e),
        Ok((magic, s1)) => if magic != Magic::Gcno {
            Err(Error::Value(MSG_WANT_GCNO))
        } else {
            match take_version(s1) {
                Err(e) => Err(e),
                Ok((version, s2)) => match take_optional_word(s2, version >= VERSION_STAMP) {
                    Err(e) => Err(e),
                    Ok((stamp, s3)) => match take_word(s3) {
                        Err(e) => Err(e),
                        Ok((chksum, s4)) => {
                            let cwd = if version >= VERSION_CWD {
                                match take_string(s4, version) {
                                    Err(e) => Err(e),
                                    Ok((text, s5)) => Ok((Some(text), s5)),
                                }
                            } else {
                                Ok((None, s4))
                            };
                            match cwd {
                                Err(e) => Err(e),
                                Ok((cwd, s5)) => match take_optional_word(
                                    s5,
                                    version >= VERSION_EXTENT,
                                ) {
                                    Err(e) => Err(e),
                                    Ok((unexecuted, s6)) => Ok(
                                        (
                                            GcnoView {
                                                version,
                                                chksum,
                                                cwd,
                                                ident_fn_idx: Map::empty(),
                                                functions: Seq::empty(),
                                            },
                                            s6,
                                        ),
                                    ),
                                },
                            }
                        },
                    },
                },
            }
        },
    }
}

/// The notes that a note file holds.
pub open spec fn parse_notes(input: Seq<u8>) -> Result<GcnoView, Error> {
    match take_note_header(input) {
        Err(e) => Err(e),
        Ok((g, rest)) => note_records(rest, g),
    }
}

/// A read with the result `got`, which left `after`, delivered a value whose view is the
/// one that `want` gives, and the same rest; or the same error.
pub open spec fn delivered_view<T: View>(
    want: Result<(T::V, Seq<u8>), Error>,
    got: Result<T, Error>,
    after: Seq<u8>,
) -> bool {
    match want {
        Ok((v, rest)) => got is Ok && got->Ok_0@ == v && after == rest,
        Err(e) => got == Err::<T, Error>(e),
    }
}

/// A read into a function with the result `got`, which left the function as `f` and
/// `after` of the input, did what `want` says: the function is what `want` gives, whether
/// the read failed or not, and the rest or the error is the same.
pub open spec fn updated(
    want: (FunctionView, Result<Seq<u8>, Error>),
    got: Result<(), Error>,
    f: FunctionView,
    after: Seq<u8>,
) -> bool {
    &&& f == want.0
    &&& match want.1 {
        Ok(rest) => got is Ok && after == rest,
        Err(e) => got == Err::<(), Error>(e),
    }
}

/// Reads a word that is there only if `present`.
fn get_optional_u32(reader: &mut ByteReader<'_>, present: bool) -> (r: Result<Option<u32>, Error>)
    ensures
        delivered(take_optional_word(old(reader)@, present), r, final(reader)@),
{
    if present {
        Ok(Some(reader.get_u32()?))
    } else {
        Ok(None)
    }
}

/// The number of bytes that a length field stands for.
fn scale_length(word: u32, version: u32) -> (r: u64)
    ensures
        r == scaled_length(word, version),
{
    if version < VERSION_BYTE_LENGTHS {
        (word as u64) * 4
    } else {
        word as u64
    }
}

/// Skips a field of `word` length units.
pub(crate) fn discard_scaled(reader: &mut ByteReader<'_>, word: u32, version: u32) -> (r: Result<
    (),
    Error,
>)
    ensures
        match skip_scaled(old(reader)@, word, version) {
            Ok(rest) => r is Ok && final(reader)@ == rest,
            Err(e) => r == Err::<(), Error>(e),
        },
{
    let length = scale_length(word, version);
    if length > reader.remainder().len() as u64 {
        return Err(Error::InsufficientBytes);
    }
    reader.discard(length as usize)
}

/// The place in the outgoing list `list` where an edge to block `dst` is entered.
pub(crate) fn insertion_point(list: &Vec<usize>, edges: &Vec<GcnoEdge>, dst: usize) -> (at: usize)
    requires
        forall|k: int| 0 <= k < list@.len() ==> list@[k] < edges@.len(),
        sorted_by_destination(list@, edges@),
    ensures
        at == first_beyond(list@, edges@, dst, 0),
        at <= list@.len(),
{
    let mut lo: usize = 0;
    let mut hi: usize = list.len();
    while lo < hi
        invariant
            lo <= hi <= list@.len(),
            forall|k: int| 0 <= k < list@.len() ==> list@[k] < edges@.len(),
            sorted_by_destination(list@, edges@),
            forall|j: int| 0 <= j < lo ==> edges@[list@[j] as int].dst <= dst,
            forall|j: int| hi <= j < list@.len() ==> edges@[list@[j] as int].dst > dst,
        decreases hi - lo,
    {
        let mid = lo + (hi - lo) / 2;
        if edges[list[mid]].dst <= dst {
            assert forall|j: int| 0 <= j < mid + 1 implies edges@[list@[j] as int].dst <= dst by {
                assert(edges@[list@[j] as int].dst <= edges@[list@[mid as int] as int].dst);
            }
            lo = mid + 1;
        } else {
            assert forall|j: int| mid <= j < list@.len() implies edges@[list@[j] as int].dst
                > dst by {
                assert(edges@[list@[mid as int] as int].dst <= edges@[list@[j] as int].dst);
            }
            hi = mid;
        }
    }
    proof {
        lemma_first_beyond_is(list@, edges@, dst, 0, lo as int);
    }
    lo
}

/// Adds an edge from block `b` to block `dst`.
fn add_arc(function: &mut GcnoFunction, b: usize, dst: usize, flags: u32)
    requires
        old(function)@.wf(),
        b < old(function).blocks@.len(),
        dst < old(function).blocks@.len(),
    ensures
        final(function)@ == old(function)@.with_arc(b, dst, flags),
        final(function)@.wf(),
        final(function).blocks@.len() == old(function).blocks@.len(),
{
    let ghost before = function@;
    let e = function.edges.len();
    proof {
        assert forall|k: int| 0 <= k < function.blocks@[b as int].dst@.len() implies function.blocks@[b as int].dst@[k]
            < function.edges@.len() by {
            assert(before.blocks[b as int].dst[k] < before.edges.len());
        }
        assert(before.lists_ordered());
        assert(sorted_by_destination(before.blocks[b as int].dst, before.edges));
    }
    let at = insertion_point(&function.blocks[b].dst, &function.edges, dst);
    function.edges.push(GcnoEdge { src: b, dst, flags, counter: 0, cycles: 0 });
    let edges = function.edges.len();
    assert(e + 1 == edges);
    function.blocks[b].dst.insert(at, e);
    function.blocks[b].src.push(e);
    proof {
        crate::graph::lemma_count_off_tree_bound(before.edges);
    }
    if (flags & GCOV_ARC_ON_TREE) == 0 {
        function.real_edge_cnt += 1;
    }
    proof {
        lemma_with_arc_wf(before, b, dst, flags);
        assert(function@.blocks =~= before.with_arc(b, dst, flags).blocks);
        assert(function@ =~= before.with_arc(b, dst, flags));
    }
}

/// Records `line` for block `b`.
fn add_line(function: &mut GcnoFunction, b: usize, line: u32)
    requires
        old(function)@.wf(),
        b < old(function).blocks@.len(),
    ensures
        final(function)@ == old(function)@.with_line(b, line),
        final(function)@.wf(),
        final(function).blocks@.len() == old(function).blocks@.len(),
{
    broadcast use vstd::std_specs::hash::group_hash_axioms;

    let ghost before = function@;
    function.lines.insert(line, 0);
    if function.blocks[b].line_max < line {
        function.blocks[b].line_max = line;
    }
    proof {
        lemma_with_line_wf(before, b, line);
        assert(function@.blocks =~= before.with_line(b, line).blocks);
        assert(function@ =~= before.with_line(b, line));
    }
}

impl Gcno {
    /// Decodes a note file: the header, then the records to the end of the input. The
    /// notes that come out are well formed: every edge joins two declared blocks and is
    /// listed once in the outgoing and once in the incoming list of the block it leaves,
    /// and every outgoing list is sorted by destination.
    pub fn from_slice(input: &[u8]) -> (r: Result<Self, Error>)
        ensures
            match r {
                Ok(g) => parse_notes(input@) == Ok::<GcnoView, Error>(g@) && g.wf(),
                Err(e) => parse_notes(input@) == Err::<GcnoView, Error>(e),
            },
    {
        let mut reader = ByteReader::new(input);
        let magic = reader.get_magic_number()?;
        match magic {
            Magic::Gcno => {},
            Magic::Gcda => {
                return Err(Error::Value(MSG_WANT_GCNO));
            },
        }
        let version = reader.get_version()?;
        let _stamp = get_optional_u32(&mut reader, version >= VERSION_STAMP)?;
        let chksum = reader.get_u32()?;
        let cwd = if version >= VERSION_CWD {
            Some(reader.get_string(version)?)
        } else {
            None
        };
        let _unexecuted = get_optional_u32(&mut reader, version >= VERSION_EXTENT)?;
        let mut gcno = Gcno {
            version,
            chksum,
            cwd,
            ident_fn_idx: FxHashMap::default(),
            functions: Vec::new(),
        };
        assert(gcno@ =~= take_note_header(input@)->Ok_0.0);
        while !reader.is_empty()
            invariant
                parse_notes(input@) == note_records(reader@, gcno@),
                gcno.wf(),
            decreases reader@.len(),
        {
            let tag = reader.get_u32()?;
            if tag == 0 {
                if !reader.is_empty() {
                    return Err(Error::TrailingBytes);
                }
                return Ok(gcno);
            }
            proof {
                lemma_note_record_shrinks(reader@, tag, gcno@);
            }
            gcno.read_record(&mut reader, tag)?;
        }
        Ok(gcno)
    }

    /// Reads the record with the nonzero tag `tag` into the notes.
    fn read_record(&mut self, reader: &mut ByteReader<'_>, tag: u32) -> (r: Result<(), Error>)
        requires
            old(self).wf(),
            tag != 0,
        ensures
            match note_record(old(reader)@, tag, old(self)@) {
                Ok((g, rest)) => r is Ok && final(self)@ == g && final(reader)@ == rest,
                Err(e) => r == Err::<(), Error>(e),
            },
            r is Ok ==> final(self).wf(),
    {
        if tag == GCOV_TAG_FUNCTION {
            self.open_function(reader)
        } else if (tag == GCOV_TAG_BLOCKS || tag == GCOV_TAG_ARCS || tag == GCOV_TAG_LINES)
            && self.functions.len() > 0 {
            self.fill_function(reader, tag)
        } else {
            let word = reader.get_u32()?;
            discard_scaled(reader, word, self.version)
        }
    }

    /// Reads a function record behind its tag and adds the function to the notes.
    fn open_function(&mut self, reader: &mut ByteReader<'_>) -> (r: Result<(), Error>)
        requires
            old(self).wf(),
        ensures
            match take_function(old(reader)@, old(self)@.version) {
                Ok((f, rest)) => r is Ok && final(self)@ == old(self)@.with_function(f)
                    && final(reader)@ == rest,
                Err(e) => r == Err::<(), Error>(e),
            },
            r is Ok ==> final(self).wf(),
    {
        let ghost g = self@;
        let function = Self::read_function(reader, self.version)?;
        let idx = self.functions.len();
        broadcast use vstd::std_specs::hash::axiom_u32_obeys_hash_table_key_model;

        table_insert(&mut self.ident_fn_idx, function.ident, idx);
        let ghost f = function@;
        self.functions.push(function);
        let count = self.functions.len();
        proof {
            assert(count == idx + 1);
            assert(function_views(self.functions@) =~= g.functions.push(f));
            assert(self@ =~= g.with_function(f));
            lemma_with_function_wf(g, f);
        }
        Ok(())
    }

    /// Reads a blocks, arcs or lines record behind its tag into the function opened last.
    fn fill_function(&mut self, reader: &mut ByteReader<'_>, tag: u32) -> (r: Result<(), Error>)
        requires
            old(self).wf(),
            old(self).functions@.len() > 0,
            tag == GCOV_TAG_BLOCKS || tag == GCOV_TAG_ARCS || tag == GCOV_TAG_LINES,
        ensures
            match note_record(old(reader)@, tag, old(self)@) {
                Ok((g, rest)) => r is Ok && final(self)@ == g && final(reader)@ == rest,
                Err(e) => r == Err::<(), Error>(e),
            },
            r is Ok ==> final(self).wf(),
    {
        let ghost g = self@;
        let version = self.version;
        let mut function = self.functions.pop().unwrap();
        assert(function@ == g.functions.last());
        assert(function@.wf());
        if tag == GCOV_TAG_BLOCKS {
            Self::read_blocks(reader, &mut function, version)?;
        } else if tag == GCOV_TAG_ARCS {
            Self::read_arcs(reader, &mut function)?;
        } else {
            Self::read_lines(reader, &mut function, version)?;
        }
        let ghost f = function@;
        self.functions.push(function);
        proof {
            assert(function_views(self.functions@) =~= g.functions.update(
                g.functions.len() - 1,
                f,
            ));
            assert(self@ =~= g.with_last(f));
            lemma_with_last_wf(g, f);
        }
        Ok(())
    }

    fn read_function(reader: &mut ByteReader<'_>, version: u32) -> (r: Result<GcnoFunction, Error>)
        ensures
            delivered_view(take_function(old(reader)@, version), r, final(reader)@),
            r matches Ok(f) ==> f@.wf(),
    {
        let word = reader.get_u32()?;
        let length = scale_length(word, version);
        if length > reader.remainder().len() as u64 {
            return Err(Error::InsufficientBytes);
        }
        let body = reader.get_bytes(length as usize)?;
        let mut reader = ByteReader::new(body);
        let ident = reader.get_u32()?;
        let line_chksum = reader.get_u32()?;
        let cfg_chksum = get_optional_u32(&mut reader, version >= VERSION_CFG_CHECKSUM)?;
        let name = reader.get_string(version)?;
        let artificial = get_optional_u32(&mut reader, version >= VERSION_EXTENT)?;
        let file_name = reader.get_string(version)?;
        let start_line = reader.get_u32()?;
        let start_col = get_optional_u32(&mut reader, version >= VERSION_EXTENT)?;
        let end_line = get_optional_u32(&mut reader, version >= VERSION_EXTENT)?;
        let end_col = get_optional_u32(&mut reader, version >= VERSION_EXTENT)?;
        reader.finish()?;
        let function = GcnoFunction {
            ident,
            line_chksum,
            cfg_chksum,
            name,
            artificial,
            file_name,
            start_line,
            start_col,
            end_line,
            end_col,
            real_edge_cnt: 0,
            edges: Vec::new(),
            blocks: Vec::new(),
            lines: HashMap::new(),
            executed: false,
        };
        proof {
            assert(function@.blocks =~= Seq::<BlockView>::empty());
            assert(function@ =~= function_of(body@, version)->Ok_0);
        }
        Ok(function)
    }

    fn read_blocks(reader: &mut ByteReader<'_>, function: &mut GcnoFunction, version: u32) -> (r:
        Result<(), Error>)
        requires
            old(function)@.wf(),
        ensures
            updated(
                take_blocks(old(reader)@, old(function)@, version),
                r,
                final(function)@,
                final(reader)@,
            ),
            final(function)@.wf(),
            final(function)@.ident == old(function)@.ident,
    {
        let ghost before = function@;
        let length = reader.get_u32()?;
        let count = if version >= VERSION_EXTENT {
            reader.get_u32()?
        } else {
            let flags = (length as u64) * 4;
            if flags > reader.remainder().len() as u64 {
                return Err(Error::InsufficientBytes);
            }
            reader.discard(flags as usize)?;
            length
        };
        let mut idx: u32 = 0;
        while idx < count
            invariant
                idx <= count,
                function@ =~= before.with_blocks(idx as nat),
            decreases count - idx,
        {
            let ghost blocks = function.blocks@;
            function.blocks.push(GcnoBlock::new(idx as usize));
            assert(block_views(function.blocks@) =~= block_views(blocks).push(
                BlockView::fresh(idx as usize),
            ));
            idx += 1;
            assert(function@.blocks =~= before.with_blocks(idx as nat).blocks);
        }
        proof {
            lemma_with_blocks_wf(before, count as nat);
        }
        Ok(())
    }

    fn read_arcs(reader: &mut ByteReader<'_>, function: &mut GcnoFunction) -> (r: Result<(), Error>)
        requires
            old(function)@.wf(),
        ensures
            updated(take_arcs(old(reader)@, old(function)@), r, final(function)@, final(reader)@),
            final(function)@.wf(),
            final(function)@.ident == old(function)@.ident,
    {
        let length = reader.get_u32()?;
        if length / 4 < 1 {
            return Err(Error::InsufficientBytes);
        }
        let count = (length / 4 - 1) / 2;
        let block_id = reader.get_u32()? as usize;
        if block_id >= function.blocks.len() {
            return Err(Error::Value(MSG_ARCS_BLOCK));
        }
        let ghost goal = take_arc_list(reader@, function@, block_id, count as nat);
        let mut k: u32 = 0;
        while k < count
            invariant
                k <= count,
                goal == take_arcs(old(reader)@, old(function)@),
                function@.ident == old(function)@.ident,
                function@.wf(),
                block_id < function.blocks@.len(),
                take_arc_list(reader@, function@, block_id, (count - k) as nat) == goal,
            decreases count - k,
        {
            let dst = reader.get_u32()? as usize;
            let flags = reader.get_u32()?;
            if dst >= function.blocks.len() {
                return Err(Error::Value(MSG_ARCS_TARGET));
            }
            add_arc(function, block_id, dst, flags);
            k += 1;
        }
        Ok(())
    }

    fn read_lines(reader: &mut ByteReader<'_>, function: &mut GcnoFunction, version: u32) -> (r:
        Result<(), Error>)
        requires
            old(function)@.wf(),
        ensures
            updated(
                take_lines(old(reader)@, old(function)@, version),
                r,
                final(function)@,
                final(reader)@,
            ),
            final(function)@.wf(),
            final(function)@.ident == old(function)@.ident,
    {
        let _length = reader.get_u32()?;
        let block_id = reader.get_u32()? as usize;
        if block_id >= function.blocks.len() {
            return Err(Error::Value(MSG_LINES_BLOCK));
        }
        let ghost goal = take_line_list(reader@, function@, block_id, version, false);
        let mut line_in_file = false;
        loop
            invariant
                goal == take_lines(old(reader)@, old(function)@, version),
                function@.ident == old(function)@.ident,
                function@.wf(),
                block_id < function.blocks@.len(),
                take_line_list(reader@, function@, block_id, version, line_in_file) == goal,
            decreases reader@.len(),
        {
            let line = reader.get_u32()?;
            if line == 0 {
                let filename = reader.get_string(version)?;
                if filename.as_str().is_empty() {
                    return Ok(());
                }
                line_in_file = filename == function.file_name;
            } else if !line_in_file || (version >= VERSION_EXTENT && line < function.start_line) {
            } else {
                let beyond = if version >= VERSION_EXTENT {
                    match function.end_line {
                        None => {
                            return Err(Error::Value(MSG_NO_END_LINE));
                        },
                        Some(end_line) => line > end_line,
                    }
                } else {
                    false
                };
                if !beyond {
                    add_line(function, block_id, line);
                }
            }
        }
    }
}

/// Adding a well-formed function keeps the notes well formed.
pub proof fn lemma_with_function_wf(g: GcnoView, f: FunctionView)
    requires
        g.wf(),
        f.wf(),
        g.functions.len() < usize::MAX,
    ensures
        g.with_function(f).wf(),
{
    let h = g.with_function(f);
    assert forall|i: int| 0 <= i < h.functions.len() implies (#[trigger] h.functions[i]).wf()
        && h.ident_fn_idx.contains_key(h.functions[i].ident) by {
        if i < g.functions.len() {
            assert(g.functions[i].wf());
        }
    }
}

/// Replacing the last function by a well-formed one of the same identifier keeps the
/// notes well formed.
pub proof fn lemma_with_last_wf(g: GcnoView, f: FunctionView)
    requires
        g.wf(),
        f.wf(),
        g.functions.len() > 0,
        f.ident == g.functions.last().ident,
    ensures
        g.with_last(f).wf(),
{
    let h = g.with_last(f);
    assert forall|i: int| 0 <= i < h.functions.len() implies (#[trigger] h.functions[i]).wf()
        && h.ident_fn_idx.contains_key(h.functions[i].ident) by {
        if i < g.functions.len() - 1 {
            assert(g.functions[i].wf());
        } else {
            assert(g.ident_fn_idx.contains_key(g.functions[i].ident));
        }
    }
}

} // verus!
