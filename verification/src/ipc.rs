//! The messages between the preload library and the driver, and their frames.

use vstd::prelude::*;
use vstd::slice::slice_subrange;
use vstd::utf8::encode_utf8;

verus! {

/// The data that a target wrote to one data file.
#[derive(Debug)]
pub struct Gcda {
    pub filepath: String,
    pub data: Vec<u8>,
}

/// What such a record holds.
#[verifier::ext_equal]
pub struct GcdaView {
    pub filepath: Seq<char>,
    pub data: Seq<u8>,
}

impl View for Gcda {
    type V = GcdaView;

    open spec fn view(&self) -> GcdaView {
        GcdaView { filepath: self.filepath@, data: self.data@ }
    }
}

/// The variable-length encoding of a length: seven bits to a byte, the low ones first,
/// and the high bit set on every byte but the last.
pub open spec fn varint(n: nat) -> Seq<u8>
    decreases n,
{
    if n < 128 {
        seq![n as u8]
    } else {
        seq![(n % 128 + 128) as u8] + varint(n / 128)
    }
}

/// The payload of a message: the path and the data, each behind its length.
pub open spec fn message_bytes(filepath: Seq<char>, data: Seq<u8>) -> Seq<u8> {
    varint(encode_utf8(filepath).len()) + encode_utf8(filepath) + varint(data.len()) + data
}

/// What `postcard::from_bytes` makes of a payload, read as a string and a byte vector:
/// the two, or nothing where the payload is malformed.
pub uninterp spec fn postcard_decoding(payload: Seq<u8>) -> Option<(Seq<char>, Seq<u8>)>;

/// `postcard::to_stdvec` on a pair of a string and a byte slice. Postcard writes a pair
/// as its two parts in turn, a string as the length of its UTF-8 bytes and the bytes, a
/// slice of bytes as its length and the bytes, and a length as a varint. It fails only
/// where its buffer is full or a length unknown, and neither is so of a vector and a slice.
/// What it writes, `postcard::from_bytes` reads back as the same string and bytes: it
/// reads a length as a varint, then that many bytes, and takes the string's for text.
#[verifier::external_body]
fn postcard_encode(filepath: &str, data: &[u8]) -> (r: Option<Vec<u8>>)
    ensures
        r is Some && r->Some_0@ == message_bytes(filepath@, data@),
        postcard_decoding(r->Some_0@) == Some((filepath@, data@)),
{
    postcard::to_stdvec(&(filepath, data)).ok()
}

/// `postcard::from_bytes` for a pair of a `String` and a `Vec<u8>`, which reads what
/// `postcard_encode` writes. The result is a function of the payload alone, named
/// `postcard_decoding`.
#[verifier::external_body]
fn postcard_decode(payload: &[u8]) -> (r: Option<Gcda>)
    ensures
        match r {
            Some(gcda) => postcard_decoding(payload@) == Some((gcda.filepath@, gcda.data@)),
            None => postcard_decoding(payload@) is None,
        },
{
    match postcard::from_bytes::<(String, Vec<u8>)>(payload) {
        Ok((filepath, data)) => Some(Gcda { filepath, data }),
        Err(_) => None,
    }
}

/// The four bytes of a word, most significant first.
pub open spec fn be_word(n: u32) -> Seq<u8> {
    seq![
        (n / 0x100_0000) as u8,
        (n / 0x1_0000 % 0x100) as u8,
        (n / 0x100 % 0x100) as u8,
        (n % 0x100) as u8,
    ]
}

/// The word that the first four bytes of `s` hold, most significant first.
pub open spec fn be_value(s: Seq<u8>) -> u32
    recommends
        s.len() >= 4,
{
    (0x100_0000 * (s[0] as int) + 0x1_0000 * (s[1] as int) + 0x100 * (s[2] as int) + (s[3] as int)) as u32
}

/// The byte that starts a frame.
pub const FRAME_MARK: u8 = 0;

/// A payload as it travels: the mark, the payload's length as a big-endian word, and the
/// payload.
pub open spec fn framed(payload: Seq<u8>) -> Seq<u8> {
    seq![FRAME_MARK] + be_word(payload.len() as u32) + payload
}

/// Frames a payload.
pub fn frame(payload: &[u8]) -> (r: Vec<u8>)
    requires
        payload@.len() <= u32::MAX,
    ensures
        r@ == framed(payload@),
{
    let length = payload.len() as u32;
    let mut out: Vec<u8> = Vec::new();
    out.push(FRAME_MARK);
    out.push((length / 0x100_0000) as u8);
    out.push((length / 0x1_0000 % 0x100) as u8);
    out.push((length / 0x100 % 0x100) as u8);
    out.push((length % 0x100) as u8);
    let mut i: usize = 0;
    while i < payload.len()
        invariant
            i <= payload@.len(),
            out@ == seq![FRAME_MARK] + be_word(payload@.len() as u32) + payload@.take(i as int),
        decreases payload@.len() - i,
    {
        out.push(payload[i]);
        i += 1;
    }
    assert(payload@.take(i as int) == payload@);
    out
}

impl Gcda {
    /// The frame that carries this record: its payload, framed. There is none where
    /// the payload is longer than the length word of a frame can say. The frame is read
    /// back as a whole frame with that payload, and the payload as this record.
    pub fn to_frame(&self) -> (r: Option<Vec<u8>>)
        ensures
            match r {
                Some(bytes) => message_bytes(self.filepath@, self.data@).len() <= u32::MAX
                    && bytes@ == framed(message_bytes(self.filepath@, self.data@)),
                None => message_bytes(self.filepath@, self.data@).len() > u32::MAX,
            },
            r matches Some(bytes) ==> holds_frame(bytes@) && behind_frame(bytes@).len() == 0
                && postcard_decoding(first_payload(bytes@)) == Some((self.filepath@, self.data@)),
    {
        match postcard_encode(self.filepath.as_str(), self.data.as_slice()) {
            Some(payload) => {
                if payload.len() > u32::MAX as usize {
                    None
                } else {
                    proof {
                        lemma_frame_read_back(payload@, Seq::empty());
                        assert(framed(payload@) + Seq::<u8>::empty() == framed(payload@));
                    }
                    Some(frame(payload.as_slice()))
                }
            },
            None => None,
        }
    }

    /// The record that a payload holds, if it holds one.
    pub fn from_payload(payload: &[u8]) -> (r: Option<Gcda>)
        ensures
            match r {
                Some(gcda) => postcard_decoding(payload@) == Some((gcda.filepath@, gcda.data@)),
                None => postcard_decoding(payload@) is None,
            },
    {
        postcard_decode(payload)
    }
}

/// What stands at the front of a stream of frames.
pub enum Frame<'a> {
    /// The stream has ended.
    End,
    /// The stream ends within a frame.
    Broken,
    /// A frame with its payload, and the stream behind it.
    Message { payload: &'a [u8], rest: &'a [u8] },
}

/// A whole frame stands at the front of `s`.
pub open spec fn holds_frame(s: Seq<u8>) -> bool {
    s.len() >= 5 && be_value(s.skip(1)) <= s.len() - 5
}

/// The payload of the frame at the front of `s`.
pub open spec fn first_payload(s: Seq<u8>) -> Seq<u8> {
    s.subrange(5, 5 + be_value(s.skip(1)))
}

/// The stream behind the frame at the front of `s`.
pub open spec fn behind_frame(s: Seq<u8>) -> Seq<u8> {
    s.skip(5 + be_value(s.skip(1)))
}

/// A word is read back from its four bytes.
pub proof fn lemma_word_read_back(n: u32, rest: Seq<u8>)
    ensures
        be_value(be_word(n) + rest) == n,
{
    let s = be_word(n) + rest;
    assert(s[0] == (n / 0x100_0000) as u8);
    assert(s[1] == (n / 0x1_0000 % 0x100) as u8);
    assert(s[2] == (n / 0x100 % 0x100) as u8);
    assert(s[3] == (n % 0x100) as u8);
    assert(0x100_0000 * (n / 0x100_0000) + 0x1_0000 * (n / 0x1_0000 % 0x100) + 0x100 * (n / 0x100
        % 0x100) + n % 0x100 == n) by (bit_vector);
}

/// A frame is read back: a stream that starts with the frame of a payload holds a whole
/// frame, with that payload, and behind it what follows the frame.
pub proof fn lemma_frame_read_back(payload: Seq<u8>, rest: Seq<u8>)
    requires
        payload.len() <= u32::MAX,
    ensures
        holds_frame(framed(payload) + rest),
        first_payload(framed(payload) + rest) == payload,
        behind_frame(framed(payload) + rest) == rest,
{
    let s = framed(payload) + rest;
    let n = payload.len() as u32;
    assert(s.skip(1) =~= be_word(n) + (payload + rest));
    lemma_word_read_back(n, payload + rest);
    assert(s.len() == 5 + payload.len() + rest.len());
    assert(first_payload(s) =~= payload);
    assert(behind_frame(s) =~= rest);
}

/// Reads the frame at the front of a stream: one byte, whatever it holds, the
/// payload's length as a big-endian word, and the payload.
pub fn read_frame<'a>(stream: &'a [u8]) -> (r: Frame<'a>)
    ensures
        stream@.len() == 0 <==> r is End,
        stream@.len() > 0 && !holds_frame(stream@) <==> r is Broken,
        holds_frame(stream@) <==> r is Message,
        r matches Frame::Message { payload, rest } ==> payload@ == first_payload(stream@) && rest@
            == behind_frame(stream@),
{
    if stream.len() == 0 {
        return Frame::End;
    }
    if stream.len() < 5 {
        return Frame::Broken;
    }
    let length: u32 = 0x100_0000 * (stream[1] as u32) + 0x1_0000 * (stream[2] as u32) + 0x100 * (
    stream[3] as u32) + (stream[4] as u32);
    assert(length == be_value(stream@.skip(1)));
    if length as usize > stream.len() - 5 {
        return Frame::Broken;
    }
    let payload = slice_subrange(stream, 5, 5 + length as usize);
    let rest = slice_subrange(stream, 5 + length as usize, stream.len());
    Frame::Message { payload, rest }
}

/// What a step of sending a frame leads to.
#[derive(Debug, Clone, Copy, PartialEq, Eq)]
pub enum Sending {
    /// All of the frame was written.
    Done,
    /// More is to be written, from the given place on.
    Continue(usize),
    /// The reader is gone or the pipe failed: the target is to abort.
    Abort,
}

/// What follows a call of `write` that was to send a frame of `length` bytes from place
/// `written` on: a positive result advances by that many bytes, an interrupted call
/// is made again, and a result of 0 or any other failure gives up.
pub fn after_write(length: usize, written: usize, result: isize, interrupted: bool) -> (r: Sending)
    requires
        written < length,
    ensures
        r == (if result < 0 {
            if interrupted {
                Sending::Continue(written)
            } else {
                Sending::Abort
            }
        } else if result == 0 {
            Sending::Abort
        } else if written + result >= length {
            Sending::Done
        } else {
            Sending::Continue((written + result) as usize)
        }),
{
    if result < 0 {
        if interrupted {
            Sending::Continue(written)
        } else {
            Sending::Abort
        }
    } else if result == 0 {
        Sending::Abort
    } else if result as usize >= length - written {
        Sending::Done
    } else {
        Sending::Continue(written + result as usize)
    }
}

} // verus!
