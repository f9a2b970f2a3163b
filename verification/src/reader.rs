//! A cursor over bytes, with the primitive reads of the two file formats.

use vstd::prelude::*;
use vstd::slice::slice_subrange;
use vstd::utf8::{decode_utf8, valid_utf8};
use crate::error::Error;

verus! {

/// The kind of file that a magic number announces.
#[derive(Debug, Clone, Copy, PartialEq, Eq)]
pub enum Magic {
    Gcda,
    Gcno,
}

/// The word `gcno`, most significant byte first.
pub const MAGIC_GCNO: u32 = 0x6763_6e6f;

/// The word `gcda`, most significant byte first.
pub const MAGIC_GCDA: u32 = 0x6763_6461;

/// `gcno` as a host of the opposite byte order reads it.
pub const MAGIC_GCNO_SWAPPED: u32 = 0x6f6e_6367;

/// `gcda` as a host of the opposite byte order reads it.
pub const MAGIC_GCDA_SWAPPED: u32 = 0x6164_6367;

/// From this version on, lengths of records and strings count bytes; before it, 32-bit words.
pub const VERSION_BYTE_LENGTHS: u32 = 130;

pub const MSG_BAD_MAGIC: &'static str = "invalid magic number at start of file";

pub const MSG_NO_NUL: &'static str = "missing null-terminating byte in string";

/// The word that the first four bytes of `s` hold, least significant byte first.
pub open spec fn le_word(s: Seq<u8>) -> u32
    recommends
        s.len() >= 4,
{
    (s[0] as int + 0x100 * (s[1] as int) + 0x1_0000 * (s[2] as int) + 0x100_0000 * (s[3] as int)) as u32
}

/// The 64-bit value that the first eight bytes of `s` hold: two words, the low half first.
pub open spec fn le_quad(s: Seq<u8>) -> u64
    recommends
        s.len() >= 8,
{
    (le_word(s) as int + 0x1_0000_0000 * (le_word(s.skip(4)) as int)) as u64
}

/// Reading `n` bytes from `s`: the bytes and what is left.
pub open spec fn take_bytes(s: Seq<u8>, n: int) -> Result<(Seq<u8>, Seq<u8>), Error> {
    if 0 <= n <= s.len() {
        Ok((s.take(n), s.skip(n)))
    } else {
        Err(Error::InsufficientBytes)
    }
}

/// Reading one word from `s`.
pub open spec fn take_word(s: Seq<u8>) -> Result<(u32, Seq<u8>), Error> {
    if s.len() >= 4 {
        Ok((le_word(s), s.skip(4)))
    } else {
        Err(Error::InsufficientBytes)
    }
}

/// Reading a 64-bit value from `s`.
pub open spec fn take_quad(s: Seq<u8>) -> Result<(u64, Seq<u8>), Error> {
    if s.len() >= 8 {
        Ok((le_quad(s), s.skip(8)))
    } else {
        Err(Error::InsufficientBytes)
    }
}

/// What a magic number says of the file.
pub open spec fn magic_of(word: u32) -> Result<Magic, Error> {
    if word == MAGIC_GCDA {
        Ok(Magic::Gcda)
    } else if word == MAGIC_GCNO {
        Ok(Magic::Gcno)
    } else if word == MAGIC_GCDA_SWAPPED || word == MAGIC_GCNO_SWAPPED {
        Err(Error::Endianness)
    } else {
        Err(Error::Value(MSG_BAD_MAGIC))
    }
}

/// Reading the magic number from `s`.
pub open spec fn take_magic(s: Seq<u8>) -> Result<(Magic, Seq<u8>), Error> {
    match take_word(s) {
        Ok((word, rest)) => match magic_of(word) {
            Ok(magic) => Ok((magic, rest)),
            Err(e) => Err(e),
        },
        Err(e) => Err(e),
    }
}

/// The version that a four-byte tag encodes. The tag starts with `*`; the digits follow,
/// least significant first, and a letter in the last place counts hundreds from `A`.
pub open spec fn version_of(tag: Seq<u8>) -> Result<u32, Error>
    recommends
        tag.len() >= 4,
{
    if tag[0] != 0x2a {
        Err(Error::Version)
    } else if tag[3] >= 0x41 {
        if tag[2] >= 0x30 && tag[1] >= 0x30 {
            Ok((100 * (tag[3] - 0x41) + 10 * (tag[2] - 0x30) + (tag[1] - 0x30)) as u32)
        } else {
            Err(Error::Version)
        }
    } else {
        if tag[1] >= 0x30 && tag[3] >= 0x30 {
            Ok((10 * (tag[3] - 0x30) + (tag[1] - 0x30)) as u32)
        } else {
            Err(Error::Version)
        }
    }
}

/// Reading the version tag from `s`.
pub open spec fn take_version(s: Seq<u8>) -> Result<(u32, Seq<u8>), Error> {
    if s.len() >= 4 {
        match version_of(s) {
            Ok(v) => Ok((v, s.skip(4))),
            Err(e) => Err(e),
        }
    } else {
        Err(Error::InsufficientBytes)
    }
}

/// The number of bytes that a length field stands for in a file of the given version.
pub open spec fn scaled_length(word: u32, version: u32) -> int {
    if version < VERSION_BYTE_LENGTHS {
        4 * word
    } else {
        word as int
    }
}

/// `i` is the place of the first zero byte of `s`.
pub open spec fn is_first_nul(s: Seq<u8>, i: int) -> bool {
    &&& 0 <= i < s.len()
    &&& s[i] == 0
    &&& forall|j: int| 0 <= j < i ==> s[j] != 0
}

/// The text that a padded string field holds: the bytes before the first zero byte, as UTF-8.
pub open spec fn text_of(field: Seq<u8>) -> Result<Seq<char>, Error> {
    if !(exists|i: int| is_first_nul(field, i)) {
        Err(Error::Value(MSG_NO_NUL))
    } else {
        let n = choose|i: int| is_first_nul(field, i);
        if valid_utf8(field.take(n)) {
            Ok(decode_utf8(field.take(n)))
        } else {
            Err(Error::Utf8)
        }
    }
}

/// Reading a string from `s`: a length word, scaled by the version, then that many bytes.
pub open spec fn take_string(s: Seq<u8>, version: u32) -> Result<(Seq<char>, Seq<u8>), Error> {
    match take_word(s) {
        Err(e) => Err(e),
        Ok((word, rest)) => {
            let length = scaled_length(word, version);
            if length == 0 {
                Ok((Seq::<char>::empty(), rest))
            } else {
                match take_bytes(rest, length) {
                    Err(e) => Err(e),
                    Ok((field, tail)) => match text_of(field) {
                        Err(e) => Err(e),
                        Ok(text) => Ok((text, tail)),
                    },
                }
            }
        },
    }
}

/// A read with the result `got`, which left `after`, did what `want` says: the same value
/// and rest, or the same error.
pub open spec fn delivered<T>(
    want: Result<(T, Seq<u8>), Error>,
    got: Result<T, Error>,
    after: Seq<u8>,
) -> bool {
    match want {
        Ok((v, rest)) => got == Ok::<T, Error>(v) && after == rest,
        Err(e) => got == Err::<T, Error>(e),
    }
}

/// As `delivered`, for a string.
pub open spec fn delivered_text(
    want: Result<(Seq<char>, Seq<u8>), Error>,
    got: Result<String, Error>,
    after: Seq<u8>,
) -> bool {
    match want {
        Ok((v, rest)) => got is Ok && got->Ok_0@ == v && after == rest,
        Err(e) => got == Err::<String, Error>(e),
    }
}

/// What is left of `s` after a read of one word's worth that failed later or not at all.
pub open spec fn after_word(s: Seq<u8>) -> Seq<u8> {
    if s.len() >= 4 {
        s.skip(4)
    } else {
        s
    }
}

/// What is left of `s` after a string was read or the attempt failed: the length word is
/// gone if it was there, and the field behind it if all of it was there.
pub open spec fn after_string(s: Seq<u8>, version: u32) -> Seq<u8> {
    match take_word(s) {
        Err(_) => s,
        Ok((word, rest)) => if scaled_length(word, version) <= rest.len() {
            rest.skip(scaled_length(word, version))
        } else {
            rest
        },
    }
}

/// `std::str::from_utf8`, with the text copied into a `String`. The contract claims what the
/// function's documentation says: it succeeds on exactly the valid UTF-8 inputs, and the
/// text it returns is the one that these bytes encode.
#[verifier::external_body]
fn utf8_text(bytes: &[u8]) -> (r: Option<String>)
    ensures
        r is Some <==> valid_utf8(bytes@),
        r matches Some(s) ==> s@ == decode_utf8(bytes@),
{
    match std::str::from_utf8(bytes) {
        Ok(s) => Some(s.to_string()),
        Err(_) => None,
    }
}

/// A cursor over a byte slice. Every read takes bytes from the front; the view is what is left.
pub struct ByteReader<'a> {
    slice: &'a [u8],
}

impl<'a> View for ByteReader<'a> {
    type V = Seq<u8>;

    closed spec fn view(&self) -> Seq<u8> {
        self.slice@
    }
}

impl<'a> ByteReader<'a> {
    #[inline]
    pub fn new(input: &'a [u8]) -> (r: Self)
        ensures
            r@ == input@,
    {
        Self { slice: input }
    }

    #[inline]
    pub fn is_empty(&self) -> (r: bool)
        ensures
            r == (self@.len() == 0),
    {
        self.slice.len() == 0
    }

    /// Drops `amount` bytes, or fails and leaves the reader as it was.
    #[inline]
    pub fn discard(&mut self, amount: usize) -> (r: Result<(), Error>)
        ensures
            amount <= old(self)@.len() ==> r == Ok::<(), Error>(())
                && final(self)@ == old(self)@.skip(amount as int),
            amount > old(self)@.len() ==> r == Err::<(), Error>(Error::InsufficientBytes)
                && final(self)@ == old(self)@,
    {
        if amount > self.slice.len() {
            return Err(Error::InsufficientBytes);
        }
        self.slice = slice_subrange(self.slice, amount, self.slice.len());
        Ok(())
    }

    /// Succeeds if nothing is left.
    #[inline]
    pub fn finish(self) -> (r: Result<(), Error>)
        ensures
            self@.len() == 0 ==> r == Ok::<(), Error>(()),
            self@.len() != 0 ==> r == Err::<(), Error>(Error::TrailingBytes),
    {
        if self.is_empty() {
            Ok(())
        } else {
            Err(Error::TrailingBytes)
        }
    }

    #[inline]
    pub fn remainder(&self) -> (r: &'a [u8])
        ensures
            r@ == self@,
    {
        self.slice
    }

    /// Reads the magic number. A word that was read is consumed, whatever it says.
    #[inline]
    pub fn get_magic_number(&mut self) -> (r: Result<Magic, Error>)
        ensures
            delivered(take_magic(old(self)@), r, final(self)@),
            final(self)@ == after_word(old(self)@),
    {
        let word = self.get_u32()?;
        if word == MAGIC_GCDA {
            Ok(Magic::Gcda)
        } else if word == MAGIC_GCNO {
            Ok(Magic::Gcno)
        } else if word == MAGIC_GCDA_SWAPPED || word == MAGIC_GCNO_SWAPPED {
            Err(Error::Endianness)
        } else {
            Err(Error::Value(MSG_BAD_MAGIC))
        }
    }

    /// Reads a string. The length word is consumed if it could be read; the field after it
    /// only if all of it is there.
    pub fn get_string(&mut self, version: u32) -> (r: Result<String, Error>)
        ensures
            delivered_text(take_string(old(self)@, version), r, final(self)@),
            final(self)@ == after_string(old(self)@, version),
    {
        let word = self.get_u32()?;
        let ghost rest = self@;
        let length: u64 = if version < VERSION_BYTE_LENGTHS {
            (word as u64) * 4
        } else {
            word as u64
        };
        if length == 0 {
            return Ok(String::new());
        }
        if length > self.slice.len() as u64 {
            return Err(Error::InsufficientBytes);
        }
        let field = self.get_bytes(length as usize)?;
        let mut n: usize = 0;
        while n < field.len() && field[n] != 0
            invariant
                n <= field@.len(),
                forall|j: int| 0 <= j < n ==> field@[j] != 0,
            decreases field@.len() - n,
        {
            n += 1;
        }
        if n == field.len() {
            assert(!(exists|i: int| is_first_nul(field@, i)));
            return Err(Error::Value(MSG_NO_NUL));
        }
        assert(is_first_nul(field@, n as int));
        proof {
            let m = choose|i: int| is_first_nul(field@, i);
            assert(m == n) by {
                if m < n {
                    assert(field@[m] != 0);
                } else if n < m {
                    assert(field@[n as int] != 0);
                }
            }
        }
        match utf8_text(slice_subrange(field, 0, n)) {
            Some(text) => Ok(text),
            None => Err(Error::Utf8),
        }
    }

    /// Reads a 64-bit value, stored as two words with the low half first.
    #[inline]
    pub fn get_u64(&mut self) -> (r: Result<u64, Error>)
        ensures
            delivered(take_quad(old(self)@), r, final(self)@),
            r is Err ==> final(self)@ == after_word(old(self)@),
    {
        let low = self.get_u32()?;
        let high = self.get_u32()?;
        assert(old(self)@.skip(4).skip(4) == old(self)@.skip(8));
        Ok((high as u64) * 0x1_0000_0000 + (low as u64))
    }

    /// Reads the version tag. The four bytes are consumed if they are there.
    #[inline]
    pub fn get_version(&mut self) -> (r: Result<u32, Error>)
        ensures
            delivered(take_version(old(self)@), r, final(self)@),
            final(self)@ == after_word(old(self)@),
    {
        let tag = self.get_array::<4>()?;
        let b0 = tag[0];
        let b1 = tag[1];
        let b2 = tag[2];
        let b3 = tag[3];
        if b0 != 0x2a {
            return Err(Error::Version);
        }
        if b3 >= 0x41 {
            if b2 >= 0x30 && b1 >= 0x30 {
                Ok(100 * ((b3 - 0x41) as u32) + 10 * ((b2 - 0x30) as u32) + ((b1 - 0x30) as u32))
            } else {
                Err(Error::Version)
            }
        } else {
            if b1 >= 0x30 && b3 >= 0x30 {
                Ok(10 * ((b3 - 0x30) as u32) + ((b1 - 0x30) as u32))
            } else {
                Err(Error::Version)
            }
        }
    }

    /// Reads exactly `len` bytes, or fails and leaves the reader as it was.
    #[inline]
    pub fn get_bytes(&mut self, len: usize) -> (r: Result<&'a [u8], Error>)
        ensures
            match r {
                Ok(bytes) => take_bytes(old(self)@, len as int) == Ok::<
                    (Seq<u8>, Seq<u8>),
                    Error,
                >((bytes@, final(self)@)),
                Err(e) => take_bytes(old(self)@, len as int) == Err::<(Seq<u8>, Seq<u8>), Error>(e)
                    && final(self)@ == old(self)@,
            },
    {
        if len > self.slice.len() {
            return Err(Error::InsufficientBytes);
        }
        let bytes = slice_subrange(self.slice, 0, len);
        self.slice = slice_subrange(self.slice, len, self.slice.len());
        Ok(bytes)
    }

    /// Reads one word, least significant byte first, or fails and leaves the reader as it was.
    #[inline]
    pub fn get_u32(&mut self) -> (r: Result<u32, Error>)
        ensures
            delivered(take_word(old(self)@), r, final(self)@),
            r is Err ==> final(self)@ == old(self)@,
    {
        let bytes = self.get_array::<4>()?;
        Ok(
            (bytes[0] as u32) + 0x100 * (bytes[1] as u32) + 0x1_0000 * (bytes[2] as u32)
                + 0x100_0000 * (bytes[3] as u32),
        )
    }

    /// Reads `N` bytes into an array, or fails and leaves the reader as it was.
    #[inline]
    pub fn get_array<const N: usize>(&mut self) -> (r: Result<[u8; N], Error>)
        ensures
            match r {
                Ok(bytes) => take_bytes(old(self)@, N as int) == Ok::<(Seq<u8>, Seq<u8>), Error>(
                    (bytes@, final(self)@),
                ),
                Err(e) => take_bytes(old(self)@, N as int) == Err::<(Seq<u8>, Seq<u8>), Error>(e)
                    && final(self)@ == old(self)@,
            },
    {
        if N > self.slice.len() {
            return Err(Error::InsufficientBytes);
        }
        let mut bytes = [0u8; N];
        let mut i: usize = 0;
        while i < N
            invariant
                i <= N <= self.slice@.len(),
                forall|j: int| 0 <= j < i ==> bytes@[j] == self.slice@[j],
            decreases N - i,
        {
            bytes[i] = self.slice[i];
            i += 1;
        }
        assert(bytes@ == self.slice@.take(N as int));
        self.slice = slice_subrange(self.slice, N, self.slice.len());
        Ok(bytes)
    }
}

} // verus!
