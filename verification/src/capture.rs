//! What the preload library keeps of the target's data files between `open` and `close`.

use vstd::prelude::*;
use vstd::string::{StrSliceExecFns, StringExecFns};
use fxhash::FxHashMap;
use crate::ipc::{Gcda, GcdaView};
use crate::tables::{table_get, table_insert, table_remove};
use crate::text::{ends_with, is_prefix, is_suffix, starts_with};

verus! {

/// What the target has open: the data files by their descriptors, each with its path and
/// what was written to it so far, and the streams by their addresses, each with its
/// descriptor.
pub struct Capture {
    pub files: FxHashMap<i32, Gcda>,
    pub streams: FxHashMap<usize, i32>,
}

/// What a capture holds.
#[verifier::ext_equal]
pub struct CaptureView {
    pub files: Map<i32, GcdaView>,
    pub streams: Map<usize, i32>,
}

impl View for Capture {
    type V = CaptureView;

    open spec fn view(&self) -> CaptureView {
        CaptureView {
            files: Map::new(|fd: i32| self.files@.contains_key(fd), |fd: i32| self.files@[fd]@),
            streams: self.streams@,
        }
    }
}

/// The path is that of a data file.
pub open spec fn is_data_path(path: Seq<char>) -> bool {
    is_suffix(".gcda"@, path)
}

/// The path with the working directory `cwd` in place of a leading `/proc/self/cwd`.
pub open spec fn resolved(path: Seq<char>, cwd: Seq<char>) -> Seq<char> {
    if is_prefix("/proc/self/cwd/"@, path) {
        cwd + "/"@ + path.skip("/proc/self/cwd/"@.len() as int)
    } else {
        path
    }
}

/// The path with the working directory in place of a leading `/proc/self/cwd`.
pub fn resolve(path: &str, cwd: &str) -> (r: String)
    ensures
        r@ == resolved(path@, cwd@),
{
    if starts_with(path, "/proc/self/cwd/") {
        proof {
            reveal_strlit("/proc/self/cwd/");
        }
        let length = path.unicode_len();
        let rest = path.substring_char(15, length);
        let mut out = String::from_str(cwd);
        out.append("/");
        out.append(rest);
        assert(path@.skip(15) == path@.subrange(15, path@.len() as int));
        out
    } else {
        String::from_str(path)
    }
}

/// An `open` that returned `fd` for `path` can be recorded only with the working
/// directory at hand: a data file was opened below `/proc/self/cwd`.
pub open spec fn asks_cwd(fd: i32, path: Seq<char>) -> bool {
    fd >= 0 && is_data_path(path) && is_prefix("/proc/self/cwd/"@, path)
}

/// Whether an `open` that returned `fd` for `path` can be recorded only with the working
/// directory at hand. Where it is not so, `opened` makes no use of it.
pub fn needs_cwd(fd: i32, path: &str) -> (r: bool)
    ensures
        r == asks_cwd(fd, path@),
{
    fd >= 0 && ends_with(path, ".gcda") && starts_with(path, "/proc/self/cwd/")
}

/// Without need of the working directory, an `open` is recorded alike whatever is given
/// for it.
pub proof fn lemma_cwd_unused(v: CaptureView, fd: i32, path: Seq<char>, a: Seq<char>, b: Seq<char>)
    requires
        !asks_cwd(fd, path),
    ensures
        v.opened(fd, path, a) == v.opened(fd, path, b),
{
}

impl CaptureView {
    /// After `open` returned `fd` for `path`: a data file that was opened is tracked
    /// from now on, with nothing written.
    pub open spec fn opened(self, fd: i32, path: Seq<char>, cwd: Seq<char>) -> CaptureView {
        if fd >= 0 && is_data_path(path) {
            CaptureView {
                files: self.files.insert(
                    fd,
                    GcdaView { filepath: resolved(path, cwd), data: Seq::empty() },
                ),
                ..self
            }
        } else {
            self
        }
    }

    /// After `fdopen` returned the stream at `stream` for `fd`.
    pub open spec fn stream_opened(self, stream: usize, fd: i32) -> CaptureView {
        if stream != 0 {
            CaptureView { streams: self.streams.insert(stream, fd), ..self }
        } else {
            self
        }
    }

    /// After `bytes` were written to `fd`: a tracked file keeps them.
    pub open spec fn written(self, fd: i32, bytes: Seq<u8>) -> CaptureView {
        if self.files.contains_key(fd) {
            CaptureView {
                files: self.files.insert(
                    fd,
                    GcdaView { data: self.files[fd].data + bytes, ..self.files[fd] },
                ),
                ..self
            }
        } else {
            self
        }
    }

    /// After `fd` was closed: it is tracked no longer.
    pub open spec fn closed(self, fd: i32) -> CaptureView {
        CaptureView { files: self.files.remove(fd), ..self }
    }

    /// What is to be sent when `fd` is closed: the file's record, if the file is tracked
    /// and anything was written to it.
    pub open spec fn parting(self, fd: i32) -> Option<GcdaView> {
        if self.files.contains_key(fd) && self.files[fd].data.len() > 0 {
            Some(self.files[fd])
        } else {
            None
        }
    }
}

/// The view of an optional record.
pub open spec fn record_view(r: Option<Gcda>) -> Option<GcdaView> {
    match r {
        Some(gcda) => Some(gcda@),
        None => None,
    }
}

impl Capture {
    /// A capture that tracks nothing.
    pub fn new() -> (r: Self)
        ensures
            r@ == (CaptureView { files: Map::empty(), streams: Map::empty() }),
    {
        let r = Self { files: FxHashMap::default(), streams: FxHashMap::default() };
        assert(r@.files =~= Map::<i32, GcdaView>::empty());
        r
    }

    /// Whether `fd` is a tracked file.
    pub fn tracks(&self, fd: i32) -> (r: bool)
        ensures
            r == self@.files.contains_key(fd),
    {
        broadcast use vstd::std_specs::hash::axiom_i32_obeys_hash_table_key_model;

        table_get(&self.files, &fd).is_some()
    }

    /// Whether the stream at `stream` belongs to a tracked file.
    pub fn tracks_stream(&self, stream: usize) -> (r: bool)
        ensures
            r == (self@.streams.contains_key(stream) && self@.files.contains_key(
                self@.streams[stream],
            )),
    {
        broadcast use vstd::std_specs::hash::axiom_usize_obeys_hash_table_key_model;

        match table_get(&self.streams, &stream) {
            Some(fd) => self.tracks(*fd),
            None => false,
        }
    }

    /// Records that `open` returned `fd` for `path`, with `cwd` the working directory.
    pub fn opened(&mut self, fd: i32, path: &str, cwd: &str)
        ensures
            final(self)@ == old(self)@.opened(fd, path@, cwd@),
    {
        broadcast use vstd::std_specs::hash::axiom_i32_obeys_hash_table_key_model;

        if fd >= 0 && ends_with(path, ".gcda") {
            let filepath = resolve(path, cwd);
            table_insert(&mut self.files, fd, Gcda { filepath, data: Vec::new() });
            assert(self@.files =~= old(self)@.opened(fd, path@, cwd@).files);
        }
    }

    /// Records that `fdopen` returned the stream at address `stream` for `fd`.
    pub fn stream_opened(&mut self, stream: usize, fd: i32)
        ensures
            final(self)@ == old(self)@.stream_opened(stream, fd),
    {
        broadcast use vstd::std_specs::hash::axiom_usize_obeys_hash_table_key_model;

        if stream != 0 {
            table_insert(&mut self.streams, stream, fd);
        }
    }

    /// Takes what is written to `fd`, if `fd` is a tracked file. The result says whether
    /// it did: then the write is not to reach the file.
    pub fn written(&mut self, fd: i32, bytes: &[u8]) -> (r: bool)
        ensures
            r == old(self)@.files.contains_key(fd),
            final(self)@ == old(self)@.written(fd, bytes@),
    {
        broadcast use vstd::std_specs::hash::axiom_i32_obeys_hash_table_key_model;

        match table_remove(&mut self.files, &fd) {
            Some(gcda) => {
                let mut gcda = gcda;
                let ghost before = gcda.data@;
                gcda.data.extend_from_slice(bytes);
                assert(gcda.data@ =~= before + bytes@);
                table_insert(&mut self.files, fd, gcda);
                assert(self@.files =~= old(self)@.written(fd, bytes@).files);
                true
            },
            None => {
                assert(self@.files =~= old(self)@.files);
                false
            },
        }
    }

    /// Takes what is written to the stream at `stream`, if the stream belongs to a
    /// tracked file.
    pub fn stream_written(&mut self, stream: usize, bytes: &[u8]) -> (r: bool)
        ensures
            r == (old(self)@.streams.contains_key(stream) && old(self)@.files.contains_key(
                old(self)@.streams[stream],
            )),
            final(self)@ == (if old(self)@.streams.contains_key(stream) {
                old(self)@.written(old(self)@.streams[stream], bytes@)
            } else {
                old(self)@
            }),
    {
        broadcast use vstd::std_specs::hash::axiom_usize_obeys_hash_table_key_model;

        let fd = match table_get(&self.streams, &stream) {
            Some(fd) => *fd,
            None => {
                return false;
            },
        };
        self.written(fd, bytes)
    }

    /// Records that `fd` is closed, and hands out the record to send, if any.
    pub fn closed(&mut self, fd: i32) -> (r: Option<Gcda>)
        ensures
            final(self)@ == old(self)@.closed(fd),
            record_view(r) == old(self)@.parting(fd),
    {
        broadcast use vstd::std_specs::hash::axiom_i32_obeys_hash_table_key_model;

        let r = match table_remove(&mut self.files, &fd) {
            Some(gcda) => {
                if gcda.data.len() > 0 {
                    Some(gcda)
                } else {
                    None
                }
            },
            None => None,
        };
        assert(self@.files =~= old(self)@.closed(fd).files);
        r
    }

    /// Records that the stream at `stream` is closed, and with it its file, and hands
    /// out the record to send, if any.
    pub fn stream_closed(&mut self, stream: usize) -> (r: Option<Gcda>)
        ensures
            final(self)@ == (if old(self)@.streams.contains_key(stream) {
                CaptureView {
                    streams: old(self)@.streams.remove(stream),
                    ..old(self)@.closed(old(self)@.streams[stream])
                }
            } else {
                old(self)@
            }),
            record_view(r) == (if old(self)@.streams.contains_key(stream) {
                old(self)@.parting(old(self)@.streams[stream])
            } else {
                None
            }),
    {
        broadcast use vstd::std_specs::hash::axiom_usize_obeys_hash_table_key_model;

        match table_remove(&mut self.streams, &stream) {
            Some(fd) => self.closed(fd),
            None => {
                assert(self.streams@ =~= old(self).streams@);
                None
            },
        }
    }
}

} // verus!
