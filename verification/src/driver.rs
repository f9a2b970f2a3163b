//! What the driver decides: paths, seeds, the sessions of a run and their snapshots.

use vstd::prelude::*;
use vstd::string::{StrSliceExecFns, StringExecFns};
use crate::builder::{fold_data, BuilderView, FileCovBuilder};
use crate::coverage::{cwd_conflict, merged_files, FileView, ProgCoverage, ProgView};
use crate::error::Error;
use crate::finish::{emits, finished, names_collide, MSG_NAME_COLLISION};
use crate::graph::{notes_roomy, Gcno};
use crate::ipc::{
    behind_frame, first_payload, framed, holds_frame, lemma_frame_read_back, postcard_decoding,
    read_frame, Frame, Gcda,
};
use crate::tables::{
    by_name, name_map_get, name_map_insert, name_map_names, name_map_new, name_map_remove, texts,
    NameMap,
};
use crate::text::{contains, ends_with, is_suffix, occurs_in, squeeze, squeezed};

verus! {

/// The path of the data file that belongs to a note file: the same path with `.gcda` in
/// place of a trailing `.gcno`.
pub open spec fn data_path_of(note_path: Seq<char>) -> Seq<char> {
    if is_suffix(".gcno"@, note_path) {
        note_path.take(note_path.len() - ".gcno"@.len()) + ".gcda"@
    } else {
        note_path
    }
}

/// The path of the data file that belongs to a note file.
pub fn data_path(note_path: &str) -> (r: String)
    ensures
        r@ == data_path_of(note_path@),
{
    if ends_with(note_path, ".gcno") {
        proof {
            reveal_strlit(".gcno");
        }
        let length = note_path.unicode_len();
        let stem = note_path.substring_char(0, length - 5);
        let mut out = String::from_str(stem);
        out.append(".gcda");
        assert(note_path@.take(note_path@.len() - 5) == note_path@.subrange(
            0,
            note_path@.len() - 5,
        ));
        out
    } else {
        String::from_str(note_path)
    }
}

/// The data path below the working directory of the notes: the two joined by a slash,
/// and every pair of slashes made one.
pub fn absolute_data_path(cwd: &str, data_path: &str) -> (r: String)
    ensures
        r@ == squeezed(cwd@ + "/"@ + data_path@),
{
    let mut joined = String::from_str(cwd);
    joined.append("/");
    joined.append(data_path);
    squeeze(joined.as_str())
}

/// A directory entry is a seed: no directory, no hidden file, and no README.
pub open spec fn seed(path: Seq<char>, file_name: Seq<char>, is_dir: bool) -> bool {
    !occurs_in("README.md"@, path) && !is_dir && !(file_name.len() > 0 && file_name[0] == '.')
}

/// Whether a directory entry is a seed.
pub fn is_seed(path: &str, file_name: &str, is_dir: bool) -> (r: bool)
    ensures
        r == seed(path@, file_name@, is_dir),
{
    if is_dir || contains(path, "README.md") {
        return false;
    }
    let name = crate::text::chars_of(file_name);
    !(name.len() > 0 && name[0] == '.')
}

/// The largest number of covered blocks that was reported so far.
pub struct Progress {
    pub best: usize,
}

impl Progress {
    /// Nothing was reported yet.
    pub fn new() -> (r: Self)
        ensures
            r.best == 0,
    {
        Self { best: 0 }
    }

    /// Takes the number of covered blocks after a seed and says whether to report it:
    /// it is reported where it is more than was reported before. What was reported
    /// never goes down.
    pub fn observe(&mut self, total_covered: usize) -> (report: bool)
        ensures
            report == (total_covered > old(self).best),
            final(self).best == (if report {
                total_covered
            } else {
                old(self).best
            }),
            final(self).best >= old(self).best,
    {
        if total_covered > self.best {
            self.best = total_covered;
            true
        } else {
            false
        }
    }
}

/// What became of the data of one message.
#[derive(Debug, Clone, Copy, PartialEq, Eq)]
pub enum Delivery {
    /// The data was folded into the session of its path.
    Folded,
    /// No session has that path.
    Unmatched,
    /// The session refused the data.
    Refused(Error),
}

/// Why the reading of a stream ended.
#[derive(Debug, Clone, Copy, PartialEq, Eq)]
pub enum StreamEnd {
    /// The stream ended behind a frame.
    Eof,
    /// The stream ended within a frame.
    Truncated,
    /// A payload could not be decoded.
    Undecodable,
}

/// The sessions of a run: for each data path, the builder of its notes.
pub struct Sessions {
    pub builders: NameMap<FileCovBuilder>,
}

/// What the sessions hold.
pub type SessionsView = Map<Seq<char>, BuilderView>;

impl View for Sessions {
    type V = SessionsView;

    open spec fn view(&self) -> SessionsView {
        Map::new(
            |n: Seq<char>| by_name(self.builders@).contains_key(n),
            |n: Seq<char>| by_name(self.builders@)[n]@,
        )
    }
}

/// The sessions after the data of one message arrived, and what became of it.
pub open spec fn after_delivery(sessions: SessionsView, path: Seq<char>, data: Seq<u8>) -> (
    SessionsView,
    Delivery,
) {
    if !sessions.contains_key(path) {
        (sessions, Delivery::Unmatched)
    } else {
        let (builder, result) = fold_data(data, sessions[path]);
        (
            sessions.insert(path, builder),
            match result {
                Ok(_) => Delivery::Folded,
                Err(e) => Delivery::Refused(e),
            },
        )
    }
}

/// The sessions after a stream of frames, what became of each message, added to `log`,
/// and why reading ended. Reading ends with the stream, or at the first frame that is
/// cut short or whose payload cannot be decoded.
pub open spec fn absorbed(sessions: SessionsView, stream: Seq<u8>, log: Seq<Delivery>) -> (
    SessionsView,
    Seq<Delivery>,
    StreamEnd,
)
    decreases stream.len(),
{
    if stream.len() == 0 {
        (sessions, log, StreamEnd::Eof)
    } else if !holds_frame(stream) {
        (sessions, log, StreamEnd::Truncated)
    } else {
        match postcard_decoding(first_payload(stream)) {
            None => (sessions, log, StreamEnd::Undecodable),
            Some((path, data)) => {
                let (next, delivery) = after_delivery(sessions, path, data);
                absorbed(next, behind_frame(stream), log.push(delivery))
            },
        }
    }
}

/// A stream that starts with the frame of a payload: the record that the payload holds
/// is delivered and the stream behind the frame read on, or reading ends where the
/// payload holds none.
pub proof fn lemma_absorbed_frame(
    sessions: SessionsView,
    payload: Seq<u8>,
    rest: Seq<u8>,
    log: Seq<Delivery>,
)
    requires
        payload.len() <= u32::MAX,
    ensures
        absorbed(sessions, framed(payload) + rest, log) == (match postcard_decoding(payload) {
            None => (sessions, log, StreamEnd::Undecodable),
            Some((path, data)) => absorbed(
                after_delivery(sessions, path, data).0,
                rest,
                log.push(after_delivery(sessions, path, data).1),
            ),
        }),
{
    lemma_frame_read_back(payload, rest);
}

/// One observation of the program, built from one session: what `build` gives.
pub open spec fn built_from(part: ProgView, builder: BuilderView) -> bool {
    &&& !names_collide(finished(builder.gcno))
    &&& part.cwd == builder.gcno.cwd
    &&& emits(part.files, finished(builder.gcno))
    &&& notes_roomy(builder.gcno)
}

/// The files of the first `upto` observations, merged in their order.
pub open spec fn merged_all(parts: Seq<ProgView>, upto: int) -> Map<Seq<char>, FileView>
    decreases upto,
{
    if upto <= 1 {
        parts[0].files
    } else {
        merged_files(merged_all(parts, upto - 1), parts[upto - 1].files)
    }
}

/// `snapshot` is the coverage of the sessions named by `names`: an observation is built
/// from each, and they are merged in that order into the first.
pub open spec fn composes(
    snapshot: ProgView,
    parts: Seq<ProgView>,
    names: Seq<Seq<char>>,
    sessions: SessionsView,
) -> bool {
    &&& parts.len() == names.len()
    &&& forall|i: int| 0 <= i < names.len() ==> built_from(#[trigger] parts[i], sessions[names[i]])
    &&& snapshot.cwd == parts[0].cwd
    &&& snapshot.files == merged_all(parts, names.len() as int)
}

/// The session named in place `i` has two functions of one name in one file.
pub open spec fn build_fails_at(names: Seq<Seq<char>>, sessions: SessionsView, i: int) -> bool {
    names_collide(finished(sessions[names[i]].gcno))
}

/// The session named in place `i` names another working directory than the first.
pub open spec fn merge_fails_at(names: Seq<Seq<char>>, sessions: SessionsView, i: int) -> bool {
    i > 0 && cwd_conflict(sessions[names[0]].gcno.cwd, sessions[names[i]].gcno.cwd)
}

/// Why no snapshot could be made.
#[derive(Debug)]
pub enum SnapshotError {
    /// There are no sessions.
    NoNotes,
    /// The coverage of a session could not be built.
    Build(Error),
    /// Two sessions could not be merged; the message says why.
    Merge(String),
}

impl Sessions {
    /// Every builder is well formed.
    pub open spec fn wf(&self) -> bool {
        forall|n: Seq<char>| #[trigger]
            by_name(self.builders@).contains_key(n) ==> by_name(self.builders@)[n].wf()
    }

    /// No sessions.
    pub fn new() -> (r: Self)
        ensures
            r@ == Map::<Seq<char>, BuilderView>::empty(),
            r.wf(),
    {
        let r = Self { builders: name_map_new() };
        assert(r@ =~= Map::<Seq<char>, BuilderView>::empty());
        r
    }

    /// Opens a session for well-formed notes under the path of their data file.
    pub fn register(&mut self, data_path: String, gcno: Gcno)
        requires
            old(self).wf(),
            gcno.wf(),
        ensures
            final(self)@ == old(self)@.insert(data_path@, BuilderView::fresh(gcno@)),
            final(self).wf(),
    {
        name_map_insert(&mut self.builders, data_path, FileCovBuilder::new(gcno));
        assert(self@ =~= old(self)@.insert(data_path@, BuilderView::fresh(gcno@)));
    }

    /// Folds the data of one message into the session of its path.
    pub fn deliver(&mut self, gcda: &Gcda) -> (r: Delivery)
        requires
            old(self).wf(),
        ensures
            (final(self)@, r) == after_delivery(old(self)@, gcda.filepath@, gcda.data@),
            final(self).wf(),
    {
        match name_map_remove(&mut self.builders, gcda.filepath.as_str()) {
            None => {
                assert(self@ =~= old(self)@);
                Delivery::Unmatched
            },
            Some(builder) => {
                let mut builder = builder;
                let result = builder.add_gcda(gcda.data.as_slice());
                name_map_insert(&mut self.builders, gcda.filepath.clone(), builder);
                assert(self@ =~= after_delivery(old(self)@, gcda.filepath@, gcda.data@).0);
                match result {
                    Ok(_) => Delivery::Folded,
                    Err(e) => Delivery::Refused(e),
                }
            },
        }
    }

    /// Reads a stream of frames and folds the data of each message into its session.
    /// The result tells what became of each message and why reading ended.
    pub fn absorb(&mut self, stream: &[u8]) -> (r: (Vec<Delivery>, StreamEnd))
        requires
            old(self).wf(),
        ensures
            (final(self)@, r.0@, r.1) == absorbed(old(self)@, stream@, Seq::empty()),
            final(self).wf(),
    {
        let mut log: Vec<Delivery> = Vec::new();
        let mut left = stream;
        loop
            invariant
                self.wf(),
                absorbed(self@, left@, log@) == absorbed(old(self)@, stream@, Seq::empty()),
            decreases left@.len(),
        {
            match read_frame(left) {
                Frame::End => {
                    return (log, StreamEnd::Eof);
                },
                Frame::Broken => {
                    return (log, StreamEnd::Truncated);
                },
                Frame::Message { payload, rest } => {
                    match Gcda::from_payload(payload) {
                        None => {
                            return (log, StreamEnd::Undecodable);
                        },
                        Some(gcda) => {
                            let delivery = self.deliver(&gcda);
                            log.push(delivery);
                            left = rest;
                        },
                    }
                },
            }
        }
    }

    /// The coverage of the sessions named by `names`, merged in that order. An
    /// observation is built from a copy of each session, so the sessions stay as they
    /// are. This fails at the first session that cannot be built or merged.
    pub fn snapshot_in_order(&self, names: &Vec<String>) -> (r: Result<ProgCoverage, SnapshotError>)
        requires
            self.wf(),
            forall|i: int| 0 <= i < names@.len() ==> self@.contains_key(#[trigger] texts(names@)[i]),
        ensures
            match r {
                Ok(p) => names@.len() > 0 && (forall|i: int|
                    0 <= i < names@.len() ==> !build_fails_at(texts(names@), self@, i)
                        && !merge_fails_at(texts(names@), self@, i)) && exists|parts: Seq<ProgView>|
                    composes(p@, parts, texts(names@), self@),
                Err(SnapshotError::NoNotes) => names@.len() == 0,
                Err(SnapshotError::Build(e)) => e == Error::Value(MSG_NAME_COLLISION) && exists|
                    i: int,
                |
                    0 <= i < names@.len() && build_fails_at(texts(names@), self@, i) && forall|
                        j: int,
                    |
                        0 <= j < i ==> !build_fails_at(texts(names@), self@, j) && !merge_fails_at(
                            texts(names@),
                            self@,
                            j,
                        ),
                Err(SnapshotError::Merge(_)) => exists|i: int|
                    0 <= i < names@.len() && !build_fails_at(texts(names@), self@, i)
                        && merge_fails_at(texts(names@), self@, i) && forall|j: int|
                        0 <= j < i ==> !build_fails_at(texts(names@), self@, j) && !merge_fails_at(
                            texts(names@),
                            self@,
                            j,
                        ),
            },
    {
        if names.len() == 0 {
            return Err(SnapshotError::NoNotes);
        }
        let ghost all = texts(names@);
        assert(all[0] == names@[0]@);
        assert(self@.contains_key(all[0]));
        let first = match self.build_one(names[0].as_str()) {
            Ok(first) => first,
            Err(e) => {
                assert(all[0] == names@[0]@);
                assert(build_fails_at(all, self@, 0));
                return Err(SnapshotError::Build(e));
            },
        };
        assert(all[0] == names@[0]@);
        let mut snapshot = first;
        let ghost mut parts: Seq<ProgView> = seq![snapshot@];
        let mut i: usize = 1;
        while i < names.len()
            invariant
                1 <= i <= names@.len(),
                all == texts(names@),
                self.wf(),
                forall|k: int| 0 <= k < names@.len() ==> self@.contains_key(#[trigger] all[k]),
                parts.len() == i,
                forall|k: int| 0 <= k < i ==> built_from(#[trigger] parts[k], self@[all[k]]),
                forall|k: int|
                    0 <= k < i ==> !build_fails_at(all, self@, k) && !merge_fails_at(all, self@, k),
                snapshot@.cwd == parts[0].cwd,
                snapshot@.files == merged_all(parts, i as int),
            decreases names@.len() - i,
        {
            assert(all[i as int] == names@[i as int]@);
            assert(self@.contains_key(all[i as int]));
            let next = match self.build_one(names[i].as_str()) {
                Ok(next) => next,
                Err(e) => {
                    assert(build_fails_at(all, self@, i as int));
                    return Err(SnapshotError::Build(e));
                },
            };
            let ghost part = next@;
            let ghost before = parts;
            proof {
                parts = parts.push(part);
                assert(parts[0] == before[0]);
                assert(self@[all[0]].gcno.cwd == parts[0].cwd);
                lemma_merged_all_same(before, parts, i as int);
            }
            match snapshot.merge(next) {
                Ok(_) => {},
                Err(message) => {
                    assert(merge_fails_at(all, self@, i as int));
                    return Err(SnapshotError::Merge(message));
                },
            }
            i += 1;
        }
        proof {
            assert(composes(snapshot@, parts, all, self@));
        }
        Ok(snapshot)
    }

    /// The coverage of the session of one path, built from a copy.
    fn build_one(&self, name: &str) -> (r: Result<ProgCoverage, Error>)
        requires
            self.wf(),
            self@.contains_key(name@),
        ensures
            match r {
                Ok(p) => built_from(p@, self@[name@]),
                Err(e) => names_collide(finished(self@[name@].gcno)) && e == Error::Value(
                    MSG_NAME_COLLISION,
                ),
            },
    {
        let builder = name_map_get(&self.builders, name).unwrap();
        builder.clone().build()
    }

    /// The coverage of all sessions, merged in the order in which the table hands them
    /// out: that of `snapshot_in_order` for some list of all sessions.
    pub fn snapshot(&self) -> (r: Result<ProgCoverage, SnapshotError>)
        requires
            self.wf(),
        ensures
            r matches Ok(p) ==> exists|names: Seq<Seq<char>>, parts: Seq<ProgView>|
                names.no_duplicates() && (forall|n: Seq<char>|
                    names.contains(n) <==> self@.contains_key(n)) && composes(
                    p@,
                    parts,
                    names,
                    self@,
                ),
            r matches Err(SnapshotError::NoNotes) ==> self@ == Map::<
                Seq<char>,
                BuilderView,
            >::empty(),
            r matches Err(SnapshotError::Build(e)) ==> e == Error::Value(MSG_NAME_COLLISION)
                && exists|n: Seq<char>|
                self@.contains_key(n) && names_collide(finished(self@[n].gcno)),
            r matches Err(SnapshotError::Merge(_)) ==> exists|n: Seq<char>, m: Seq<char>|
                self@.contains_key(n) && self@.contains_key(m) && cwd_conflict(
                    self@[n].gcno.cwd,
                    self@[m].gcno.cwd,
                ),
    {
        let names = name_map_names(&self.builders);
        let ghost all = texts(names@);
        proof {
            assert forall|i: int| 0 <= i < names@.len() implies self@.contains_key(
                #[trigger] texts(names@)[i],
            ) by {
                assert(all.contains(all[i]));
            }
        }
        let r = self.snapshot_in_order(&names);
        proof {
            match &r {
                Ok(p) => {
                    let parts = choose|parts: Seq<ProgView>| composes(p@, parts, all, self@);
                    assert(composes(p@, parts, all, self@));
                },
                Err(SnapshotError::NoNotes) => {
                    assert forall|n: Seq<char>| !self@.contains_key(n) by {
                        if self@.contains_key(n) {
                            assert(all.contains(n));
                        }
                    }
                    assert(self@ =~= Map::<Seq<char>, BuilderView>::empty());
                },
                Err(SnapshotError::Build(e)) => {
                    let i = choose|i: int|
                        0 <= i < names@.len() && build_fails_at(all, self@, i);
                    assert(self@.contains_key(all[i]));
                },
                Err(SnapshotError::Merge(_)) => {
                    let i = choose|i: int|
                        0 <= i < names@.len() && !build_fails_at(all, self@, i) && merge_fails_at(
                            all,
                            self@,
                            i,
                        );
                    assert(self@.contains_key(all[i]));
                    assert(self@.contains_key(all[0]));
                },
            }
        }
        r
    }
}

/// The merge of the first observations does not depend on those that follow.
proof fn lemma_merged_all_same(a: Seq<ProgView>, b: Seq<ProgView>, upto: int)
    requires
        0 < upto <= a.len(),
        upto <= b.len(),
        forall|k: int| 0 <= k < upto ==> a[k] == b[k],
    ensures
        merged_all(a, upto) == merged_all(b, upto),
    decreases upto,
{
    if upto > 1 {
        lemma_merged_all_same(a, b, upto - 1);
    }
}

} // verus!
