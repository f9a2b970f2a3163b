use quikcov::{ByteReader, Error, Magic};

#[test]
fn reads_little_endian_word() {
    let bytes = [0x78u8, 0x56, 0x34, 0x12, 0xff];
    let mut r = ByteReader::new(&bytes);
    assert_eq!(r.get_u32(), Ok(0x1234_5678));
    assert_eq!(r.remainder(), &[0xffu8][..]);
    assert_eq!(r.get_u32(), Err(Error::InsufficientBytes));
    assert_eq!(r.remainder(), &[0xffu8][..]);
}

#[test]
fn reads_quad_low_half_first() {
    let bytes = [1u8, 0, 0, 0, 2, 0, 0, 0];
    let mut r = ByteReader::new(&bytes);
    assert_eq!(r.get_u64(), Ok(0x0000_0002_0000_0001));
    assert!(r.is_empty());
    let short = [1u8, 0, 0, 0, 2, 0];
    let mut r = ByteReader::new(&short);
    assert_eq!(r.get_u64(), Err(Error::InsufficientBytes));
}

#[test]
fn reads_exact_bytes_and_arrays() {
    let bytes = [1u8, 2, 3, 4, 5];
    let mut r = ByteReader::new(&bytes);
    assert_eq!(r.get_bytes(2), Ok(&[1u8, 2][..]));
    assert_eq!(r.get_array::<2>(), Ok([3u8, 4]));
    assert_eq!(r.get_bytes(2), Err(Error::InsufficientBytes));
    assert_eq!(r.get_array::<2>(), Err(Error::InsufficientBytes));
    assert_eq!(r.get_bytes(0), Ok(&[][..]));
    assert_eq!(r.remainder(), &[5u8][..]);
}

#[test]
fn discards_or_leaves_untouched() {
    let bytes = [1u8, 2, 3];
    let mut r = ByteReader::new(&bytes);
    assert_eq!(r.discard(2), Ok(()));
    assert_eq!(r.remainder(), &[3u8][..]);
    assert_eq!(r.discard(2), Err(Error::InsufficientBytes));
    assert_eq!(r.remainder(), &[3u8][..]);
    assert_eq!(r.discard(1), Ok(()));
    assert!(r.is_empty());
    assert_eq!(r.discard(0), Ok(()));
}

#[test]
fn finish_wants_an_empty_reader() {
    assert_eq!(ByteReader::new(&[]).finish(), Ok(()));
    assert_eq!(ByteReader::new(&[0]).finish(), Err(Error::TrailingBytes));
}

#[test]
fn tells_the_magic_numbers_apart() {
    let mut r = ByteReader::new(b"oncg");
    assert_eq!(r.get_magic_number(), Ok(Magic::Gcno));
    let mut r = ByteReader::new(b"adcg");
    assert_eq!(r.get_magic_number(), Ok(Magic::Gcda));
    let mut r = ByteReader::new(b"gcno");
    assert_eq!(r.get_magic_number(), Err(Error::Endianness));
    let mut r = ByteReader::new(b"gcda");
    assert_eq!(r.get_magic_number(), Err(Error::Endianness));
    let mut r = ByteReader::new(b"abcd");
    assert!(matches!(r.get_magic_number(), Err(Error::Value(_))));
    assert!(r.is_empty());
    let mut r = ByteReader::new(b"onc");
    assert_eq!(r.get_magic_number(), Err(Error::InsufficientBytes));
}

#[test]
fn decodes_version_tags() {
    let mut r = ByteReader::new(b"*02B");
    assert_eq!(r.get_version(), Ok(120));
    let mut r = ByteReader::new(b"*39A");
    assert_eq!(r.get_version(), Ok(93));
    let mut r = ByteReader::new(b"*13B");
    assert_eq!(r.get_version(), Ok(131));
    let mut r = ByteReader::new(b"*7x4");
    assert_eq!(r.get_version(), Ok(47));
    let mut r = ByteReader::new(b"+02B");
    assert_eq!(r.get_version(), Err(Error::Version));
    let mut r = ByteReader::new(b"*0/B");
    assert_eq!(r.get_version(), Err(Error::Version));
    let mut r = ByteReader::new(b"*/04");
    assert_eq!(r.get_version(), Err(Error::Version));
    let mut r = ByteReader::new(b"*00/");
    assert_eq!(r.get_version(), Err(Error::Version));
    let mut r = ByteReader::new(b"*02");
    assert_eq!(r.get_version(), Err(Error::InsufficientBytes));
}

#[test]
fn reads_strings_by_words_before_version_130() {
    let bytes = [2u8, 0, 0, 0, b'm', b'a', b'i', b'n', 0, 0, 0, 0, 9];
    let mut r = ByteReader::new(&bytes);
    assert_eq!(r.get_string(120), Ok("main".to_string()));
    assert_eq!(r.remainder(), &[9u8][..]);
}

#[test]
fn reads_strings_by_bytes_from_version_130() {
    let bytes = [3u8, 0, 0, 0, b'a', b'b', 0, 9];
    let mut r = ByteReader::new(&bytes);
    assert_eq!(r.get_string(130), Ok("ab".to_string()));
    assert_eq!(r.remainder(), &[9u8][..]);
}

#[test]
fn string_of_length_zero_is_empty() {
    let bytes = [0u8, 0, 0, 0, 7];
    let mut r = ByteReader::new(&bytes);
    assert_eq!(r.get_string(120), Ok(String::new()));
    assert_eq!(r.remainder(), &[7u8][..]);
}

#[test]
fn string_is_cut_at_the_first_nul() {
    let bytes = [1u8, 0, 0, 0, b'a', 0, b'b', 0];
    let mut r = ByteReader::new(&bytes);
    assert_eq!(r.get_string(120), Ok("a".to_string()));
    let bytes = [1u8, 0, 0, 0, 0, b'a', b'b', 0];
    let mut r = ByteReader::new(&bytes);
    assert_eq!(r.get_string(120), Ok(String::new()));
}

#[test]
fn string_without_nul_is_refused() {
    let bytes = [1u8, 0, 0, 0, b'a', b'b', b'c', b'd'];
    let mut r = ByteReader::new(&bytes);
    assert!(matches!(r.get_string(120), Err(Error::Value(_))));
}

#[test]
fn string_must_be_utf8() {
    let bytes = [1u8, 0, 0, 0, 0xff, 0xfe, 0, 0];
    let mut r = ByteReader::new(&bytes);
    assert_eq!(r.get_string(120), Err(Error::Utf8));
    let bytes = [1u8, 0, 0, 0, 0xc3, 0xa9, 0, 0];
    let mut r = ByteReader::new(&bytes);
    assert_eq!(r.get_string(120), Ok("\u{e9}".to_string()));
}

#[test]
fn string_needs_all_its_bytes() {
    let bytes = [2u8, 0, 0, 0, b'a', 0, 0, 0];
    let mut r = ByteReader::new(&bytes);
    assert_eq!(r.get_string(120), Err(Error::InsufficientBytes));
    let bytes = [2u8, 0, 0];
    let mut r = ByteReader::new(&bytes);
    assert_eq!(r.get_string(120), Err(Error::InsufficientBytes));
}
