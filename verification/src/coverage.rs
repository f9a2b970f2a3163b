//! The coverage of functions, files and programs, and how observations are merged.

use vstd::prelude::*;
use crate::graph::option_text;
use crate::tables::{
    by_name, lemma_next_name, lists_keys, name_map_insert, name_map_names, name_map_remove,
    texts, NameMap,
};

verus! {

/// How often a line was executed.
#[derive(Debug, Clone, Copy, PartialEq, Eq)]
pub struct LineCoverage {
    pub lineno: u32,
    pub exec_count: u64,
}

/// How often a block was executed.
#[derive(Debug, Clone, Copy, PartialEq, Eq)]
pub struct BlockCoverage {
    pub executions: u64,
}

/// The coverage of one function.
#[derive(Debug)]
pub struct FnCoverage {
    pub start_line: u32,
    pub start_col: Option<u32>,
    pub end_line: Option<u32>,
    pub end_col: Option<u32>,
    pub executed_blocks: usize,
    pub total_blocks: usize,
    pub lines: Vec<LineCoverage>,
    pub blocks: Vec<BlockCoverage>,
}

/// What the coverage of a function holds.
#[verifier::ext_equal]
pub struct FnView {
    pub start_line: u32,
    pub start_col: Option<u32>,
    pub end_line: Option<u32>,
    pub end_col: Option<u32>,
    pub executed_blocks: usize,
    pub total_blocks: usize,
    pub lines: Seq<LineCoverage>,
    pub blocks: Seq<BlockCoverage>,
}

impl View for FnCoverage {
    type V = FnView;

    open spec fn view(&self) -> FnView {
        FnView {
            start_line: self.start_line,
            start_col: self.start_col,
            end_line: self.end_line,
            end_col: self.end_col,
            executed_blocks: self.executed_blocks,
            total_blocks: self.total_blocks,
            lines: self.lines@,
            blocks: self.blocks@,
        }
    }
}

/// The number of blocks of `blocks` that were executed.
pub open spec fn count_executed(blocks: Seq<BlockCoverage>) -> nat
    decreases blocks.len(),
{
    if blocks.len() == 0 {
        0
    } else {
        count_executed(blocks.drop_last()) + if blocks.last().executions > 0 {
            1nat
        } else {
            0nat
        }
    }
}

/// No more blocks were executed than there are.
pub proof fn lemma_count_executed_bound(blocks: Seq<BlockCoverage>)
    ensures
        count_executed(blocks) <= blocks.len(),
    decreases blocks.len(),
{
    if blocks.len() > 0 {
        lemma_count_executed_bound(blocks.drop_last());
    }
}

/// The larger of two counts.
pub open spec fn larger(a: u64, b: u64) -> u64 {
    if a >= b {
        a
    } else {
        b
    }
}

impl FnView {
    /// The counts agree with the blocks: `total_blocks` is their number and
    /// `executed_blocks` the number of those that were executed.
    pub open spec fn wf(self) -> bool {
        &&& self.total_blocks == self.blocks.len()
        &&& self.executed_blocks == count_executed(self.blocks)
    }

    /// `other` describes a function of the same size: as many blocks and as many lines.
    pub open spec fn same_size(self, other: FnView) -> bool {
        self.total_blocks == other.total_blocks && self.lines.len() == other.lines.len()
    }

    /// The blocks of `self`, each with the larger of its count and that of the block of
    /// `other` in the same place, if there is one.
    pub open spec fn merged_blocks(self, other: FnView) -> Seq<BlockCoverage> {
        Seq::new(
            self.blocks.len(),
            |i: int|
                if i < other.blocks.len() {
                    BlockCoverage {
                        executions: larger(self.blocks[i].executions, other.blocks[i].executions),
                    }
                } else {
                    self.blocks[i]
                },
        )
    }

    /// The lines of `self`, each with the larger of its count and that of the line of
    /// `other` in the same place, if there is one.
    pub open spec fn merged_lines(self, other: FnView) -> Seq<LineCoverage> {
        Seq::new(
            self.lines.len(),
            |i: int|
                if i < other.lines.len() {
                    LineCoverage {
                        lineno: self.lines[i].lineno,
                        exec_count: larger(self.lines[i].exec_count, other.lines[i].exec_count),
                    }
                } else {
                    self.lines[i]
                },
        )
    }

    /// Two observations of one function, merged: place by place the larger count, and the
    /// number of executed blocks counted anew. Where the sizes differ, `self` stands.
    pub open spec fn merged(self, other: FnView) -> FnView {
        if !self.same_size(other) {
            self
        } else {
            FnView {
                blocks: self.merged_blocks(other),
                lines: self.merged_lines(other),
                executed_blocks: count_executed(self.merged_blocks(other)) as usize,
                ..self
            }
        }
    }
}

/// The coverage of the functions of one source file, by name.
#[derive(Debug)]
pub struct FileCoverage {
    pub fns: NameMap<FnCoverage>,
}

/// What the coverage of a file holds: for each function's name, its coverage.
pub type FileView = Map<Seq<char>, FnView>;

impl View for FileCoverage {
    type V = FileView;

    open spec fn view(&self) -> FileView {
        Map::new(
            |n: Seq<char>| by_name(self.fns@).contains_key(n),
            |n: Seq<char>| by_name(self.fns@)[n]@,
        )
    }
}

/// Two observations of one file, merged: a function that both hold is merged, any other
/// is taken as it is.
pub open spec fn merged_file(a: FileView, b: FileView) -> FileView {
    Map::new(
        |n: Seq<char>| a.contains_key(n) || b.contains_key(n),
        |n: Seq<char>|
            if a.contains_key(n) {
                if b.contains_key(n) {
                    a[n].merged(b[n])
                } else {
                    a[n]
                }
            } else {
                b[n]
            },
    )
}

/// The coverage of a program: for each source file, that of its functions.
#[derive(Debug)]
pub struct ProgCoverage {
    pub cwd: Option<String>,
    pub files: NameMap<FileCoverage>,
}

/// What the coverage of a program holds.
#[verifier::ext_equal]
pub struct ProgView {
    pub cwd: Option<Seq<char>>,
    pub files: Map<Seq<char>, FileView>,
}

impl View for ProgCoverage {
    type V = ProgView;

    open spec fn view(&self) -> ProgView {
        ProgView {
            cwd: option_text(self.cwd),
            files: Map::new(
                |n: Seq<char>| by_name(self.files@).contains_key(n),
                |n: Seq<char>| by_name(self.files@)[n]@,
            ),
        }
    }
}

/// Two observations of a program's files, merged: a file that both hold is merged, any
/// other is taken as it is.
pub open spec fn merged_files(a: Map<Seq<char>, FileView>, b: Map<Seq<char>, FileView>) -> Map<
    Seq<char>,
    FileView,
> {
    Map::new(
        |n: Seq<char>| a.contains_key(n) || b.contains_key(n),
        |n: Seq<char>|
            if a.contains_key(n) {
                if b.contains_key(n) {
                    merged_file(a[n], b[n])
                } else {
                    a[n]
                }
            } else {
                b[n]
            },
    )
}

/// Both observations name a working directory, and not the same.
pub open spec fn cwd_conflict(a: Option<Seq<char>>, b: Option<Seq<char>>) -> bool {
    a is Some && b is Some && a != b
}

/// The message of a failed merge, made with `format!`. Nothing is claimed of the text.
#[verifier::external_body]
fn cwd_mismatch_message(mine: &Option<String>, theirs: &Option<String>) -> String {
    format!("cwd mismatch in program coverage during merge: `{:?}` vs `{:?}`", mine, theirs)
}

impl FnCoverage {
    /// Merges another observation of the same function into this one.
    pub fn merge(&mut self, other: &FnCoverage)
        ensures
            final(self)@ == old(self)@.merged(other@),
    {
        if self.total_blocks != other.total_blocks || self.lines.len() != other.lines.len() {
            return ;
        }
        let ghost before = self@;
        let mut executed: usize = 0;
        let mut i: usize = 0;
        while i < self.blocks.len()
            invariant
                i <= self.blocks@.len() == before.blocks.len(),
                executed == count_executed(self.blocks@.take(i as int)),
                forall|j: int| 0 <= j < i ==> self.blocks@[j] == before.merged_blocks(other@)[j],
                forall|j: int| i <= j < self.blocks@.len() ==> self.blocks@[j] == before.blocks[j],
                self.lines@ == before.lines,
                self.start_line == before.start_line,
                self.start_col == before.start_col,
                self.end_line == before.end_line,
                self.end_col == before.end_col,
                self.total_blocks == before.total_blocks,
            decreases self.blocks@.len() - i,
        {
            let ghost blocks = self.blocks@;
            if i < other.blocks.len() && other.blocks[i].executions > self.blocks[i].executions {
                self.blocks[i].executions = other.blocks[i].executions;
            }
            proof {
                assert(self.blocks@.take(i as int) == blocks.take(i as int));
                lemma_count_executed_bound(self.blocks@.take(i as int));
                assert(self.blocks@.take(i + 1).drop_last() == self.blocks@.take(i as int));
            }
            if self.blocks[i].executions > 0 {
                executed += 1;
            }
            i += 1;
        }
        assert(self.blocks@.take(i as int) == self.blocks@);
        assert(self.blocks@ == before.merged_blocks(other@));
        self.executed_blocks = executed;
        let mut k: usize = 0;
        while k < self.lines.len()
            invariant
                k <= self.lines@.len() == before.lines.len(),
                before.lines.len() == other.lines@.len(),
                forall|j: int| 0 <= j < k ==> self.lines@[j] == before.merged_lines(other@)[j],
                forall|j: int| k <= j < self.lines@.len() ==> self.lines@[j] == before.lines[j],
                self.blocks@ == before.merged_blocks(other@),
                self.executed_blocks == executed,
                self.start_line == before.start_line,
                self.start_col == before.start_col,
                self.end_line == before.end_line,
                self.end_col == before.end_col,
                self.total_blocks == before.total_blocks,
            decreases self.lines@.len() - k,
        {
            if other.lines[k].exec_count > self.lines[k].exec_count {
                self.lines[k].exec_count = other.lines[k].exec_count;
            }
            k += 1;
        }
        assert(self.lines@ == before.merged_lines(other@));
    }
}

impl FileCoverage {
    /// Merges another observation of the same file into this one.
    pub fn merge(&mut self, other: FileCoverage)
        ensures
            final(self)@ == merged_file(old(self)@, other@),
    {
        let ghost mine = by_name(self.fns@);
        let ghost theirs = by_name(other.fns@);
        let ghost incoming = other@;
        let mut other = other;
        let names = name_map_names(&other.fns);
        let mut i: usize = 0;
        while i < names.len()
            invariant
                i <= names@.len(),
                lists_keys(names@, theirs),
                forall|n: Seq<char>| #[trigger]
                    by_name(other.fns@).contains_key(n) <==> theirs.contains_key(n) && !texts(
                        names@,
                    ).take(i as int).contains(n),
                forall|n: Seq<char>| #[trigger]
                    by_name(other.fns@).contains_key(n) ==> by_name(other.fns@)[n] == theirs[n],
                forall|n: Seq<char>| #[trigger]
                    by_name(self.fns@).contains_key(n) <==> mine.contains_key(n) || texts(
                        names@,
                    ).take(i as int).contains(n),
                forall|n: Seq<char>| #[trigger]
                    by_name(self.fns@).contains_key(n) ==> by_name(self.fns@)[n]@ == (if texts(
                        names@,
                    ).take(i as int).contains(n) {
                        if mine.contains_key(n) {
                            mine[n]@.merged(theirs[n]@)
                        } else {
                            theirs[n]@
                        }
                    } else {
                        mine[n]@
                    }),
            decreases names@.len() - i,
        {
            let ghost done = texts(names@).take(i as int);
            let ghost name = names@[i as int]@;
            proof {
                lemma_next_name(names@, i as int);
            }
            let function = name_map_remove(&mut other.fns, names[i].as_str()).unwrap();
            match name_map_remove(&mut self.fns, names[i].as_str()) {
                Some(mut known) => {
                    known.merge(&function);
                    name_map_insert(&mut self.fns, names[i].clone(), known);
                },
                None => {
                    name_map_insert(&mut self.fns, names[i].clone(), function);
                },
            }
            i += 1;
        }
        proof {
            assert(texts(names@).take(i as int) == texts(names@));
            assert(self@ =~= merged_file(old(self)@, incoming));
        }
    }
}

impl ProgCoverage {
    /// Merges another observation of the program into this one. Where both name a
    /// working directory and the two differ, this fails and nothing is merged.
    pub fn merge(&mut self, other: ProgCoverage) -> (r: Result<(), String>)
        ensures
            cwd_conflict(old(self)@.cwd, other@.cwd) ==> r is Err && final(self)@ == old(self)@,
            !cwd_conflict(old(self)@.cwd, other@.cwd) ==> r is Ok
                && final(self)@.cwd == old(self)@.cwd
                && final(self)@.files == merged_files(old(self)@.files, other@.files),
    {
        let conflict = match (&self.cwd, &other.cwd) {
            (Some(mine), Some(theirs)) => !(*mine == *theirs),
            _ => false,
        };
        if conflict {
            return Err(cwd_mismatch_message(&self.cwd, &other.cwd));
        }
        let ghost mine = by_name(self.files@);
        let ghost theirs = by_name(other.files@);
        let ghost incoming = other@;
        let mut other = other;
        let names = name_map_names(&other.files);
        let mut i: usize = 0;
        while i < names.len()
            invariant
                i <= names@.len(),
                self.cwd == old(self).cwd,
                lists_keys(names@, theirs),
                forall|n: Seq<char>| #[trigger]
                    by_name(other.files@).contains_key(n) <==> theirs.contains_key(n) && !texts(
                        names@,
                    ).take(i as int).contains(n),
                forall|n: Seq<char>| #[trigger]
                    by_name(other.files@).contains_key(n) ==> by_name(other.files@)[n] == theirs[n],
                forall|n: Seq<char>| #[trigger]
                    by_name(self.files@).contains_key(n) <==> mine.contains_key(n) || texts(
                        names@,
                    ).take(i as int).contains(n),
                forall|n: Seq<char>| #[trigger]
                    by_name(self.files@).contains_key(n) ==> by_name(self.files@)[n]@ == (if texts(
                        names@,
                    ).take(i as int).contains(n) {
                        if mine.contains_key(n) {
                            merged_file(mine[n]@, theirs[n]@)
                        } else {
                            theirs[n]@
                        }
                    } else {
                        mine[n]@
                    }),
            decreases names@.len() - i,
        {
            let ghost done = texts(names@).take(i as int);
            let ghost name = names@[i as int]@;
            proof {
                lemma_next_name(names@, i as int);
            }
            let file = name_map_remove(&mut other.files, names[i].as_str()).unwrap();
            match name_map_remove(&mut self.files, names[i].as_str()) {
                Some(mut known) => {
                    known.merge(file);
                    name_map_insert(&mut self.files, names[i].clone(), known);
                },
                None => {
                    name_map_insert(&mut self.files, names[i].clone(), file);
                },
            }
            i += 1;
        }
        proof {
            assert(texts(names@).take(i as int) == texts(names@));
            assert(self@.files =~= merged_files(old(self)@.files, incoming.files));
        }
        Ok(())
    }
}

} // verus!
