use rfc4648::base16::{decode, decode_result, encode, Base16, Base16Reader, Base16Writer};
use rfc4648::error::CodecError;
use rfc4648::util::{BinaryDecoder, BinaryEncoder, DecodeResult};

#[test]
fn base16_test_encode() {
    let source = "foo".as_bytes().to_vec();
    let expect = "666F6F".as_bytes().to_vec();

    let actual = encode(&source);

    assert_eq!(expect, actual);
}

#[test]
fn base16_test_decode() {
    let source = "\t66 6f\r\n 6f".as_bytes().to_vec();
    let expect = "foo".as_bytes().to_vec();

    let actual = decode(&source).unwrap();

    assert_eq!(expect, actual);
}

#[test]
fn base16_test_base16_writer() {
    let source1 = "fo".as_bytes().to_vec();
    let source2 = "o".as_bytes().to_vec();
    let expect = "666F6F".as_bytes().to_vec();

    let mut actual: Vec<u8> = Vec::new();
    let mut writer = Base16Writer::new(Base16::new());
    writer.write(&source1, &mut actual).unwrap();
    writer.write(&source2, &mut actual).unwrap();

    assert_eq!(expect, actual);
}

fn read_all(source: &[u8], step: usize) -> Result<Vec<u8>, CodecError> {
    let mut reader = Base16Reader::new(Base16::new());
    let mut pos = 0;
    let mut out: Vec<u8> = Vec::new();
    while !reader.eof() {
        let want = reader.wanted(step);
        let end = if source.len() - pos < want { source.len() } else { pos + want };
        let chunk = &source[pos..end];
        pos = end;
        let buf = reader.read(step, chunk, pos == source.len())?;
        assert!(buf.len() <= step);
        out.extend_from_slice(&buf);
    }
    Ok(out)
}

#[test]
fn base16_test_base16_reader() {
    let source = "666f6f".as_bytes().to_vec();
    let expect = "foo".as_bytes().to_vec();

    let actual = read_all(&source, 1).unwrap();

    assert_eq!(expect, actual);
}

#[test]
fn test_base16_encode() {
    let source = b"foo";
    let expect = b"666F6F";

    let actual = encode(source);

    assert_eq!(expect, actual.as_slice());
}

#[test]
fn test_base16_decode() {
    let source = b"666f6f";
    let expect = b"foo";

    let actual = decode(source).unwrap();

    assert_eq!(expect, actual.as_slice());
}

#[test]
fn base16_encode_every_byte() {
    let digits = b"0123456789ABCDEF";
    for b in 0..=255u8 {
        let actual = encode(&[b]);
        assert_eq!(actual, vec![digits[(b >> 4) as usize], digits[(b & 15) as usize]]);
        assert_eq!(decode(&actual), Ok(vec![b]));
    }
}

#[test]
fn base16_decode_takes_both_cases() {
    assert_eq!(decode(b"abcdefABCDEF"), Ok(vec![0xab, 0xcd, 0xef, 0xab, 0xcd, 0xef]));
    assert_eq!(decode_result(b"0aF9"), Ok(vec![0x0a, 0xf9]));
}

#[test]
fn base16_decode_skips_whitespace_between_pairs() {
    assert_eq!(decode(b" 66\t6f\n\r 6F \r"), Ok(b"foo".to_vec()));
    assert_eq!(decode(b" \t\r\n"), Ok(Vec::new()));
    assert_eq!(decode(b""), Ok(Vec::new()));
}

#[test]
fn base16_whitespace_inside_a_pair_is_no_digit() {
    assert_eq!(decode(b"6 6"), Err(CodecError::InvalidSymbol));
    assert_eq!(decode(b"6\n6"), Err(CodecError::InvalidSymbol));
    assert_eq!(decode(b"66 6 6f"), Err(CodecError::InvalidSymbol));
    assert_eq!(decode(b"6 "), Err(CodecError::InvalidSymbol));
    assert_eq!(decode(b"6 66"), Err(CodecError::InvalidSymbol));
    assert_eq!(decode_result(b"66 6\t"), Err(CodecError::InvalidSymbol));
    let mut reader = Base16Reader::new(Base16::new());
    assert_eq!(reader.read(4, b"66 6", false), Ok(b"f".to_vec()));
    assert_eq!(reader.read(4, b" 6", false), Err(CodecError::InvalidSymbol));
    assert_eq!(reader.read(4, b"f ", false), Ok(b"o".to_vec()));
    assert_eq!(reader.read(4, b" 6", false), Ok(Vec::new()));
    assert_eq!(reader.read(4, b"", true), Err(CodecError::TruncatedInput));
    assert_eq!(reader.read(4, b"F\n", true), Ok(b"o".to_vec()));
    assert!(reader.eof());
}

#[test]
fn base16_decode_odd_digits_is_truncated() {
    assert_eq!(decode(b"666"), Err(CodecError::TruncatedInput));
    assert_eq!(decode(b"6"), Err(CodecError::TruncatedInput));
    assert_eq!(decode(b"66 6f 6"), Err(CodecError::TruncatedInput));
    assert_eq!(decode_result(b"abc"), Err(CodecError::TruncatedInput));
}

#[test]
fn base16_decode_invalid_symbol() {
    assert_eq!(decode(b"6g"), Err(CodecError::InvalidSymbol));
    assert_eq!(decode(b"66=="), Err(CodecError::InvalidSymbol));
    assert_eq!(decode(b"\x0b66"), Err(CodecError::InvalidSymbol));
    assert_eq!(decode(b"6g6"), Err(CodecError::InvalidSymbol));
}

#[test]
fn base16_lengths() {
    let codec = Base16::new();
    assert_eq!(codec.encoded_len(0), 0);
    assert_eq!(codec.encoded_len(3), 6);
    assert_eq!(codec.decoded_len(7), 3);
    assert_eq!(codec.encode_bytes(b"foo").len(), 6);
}

#[test]
fn base16_decode_pass_appends_and_counts() {
    let codec = Base16::new();
    let mut dst = vec![1u8, 2];
    let res = codec.decode(&mut dst, b"66 6F");
    assert_eq!(res, Ok(DecodeResult { end: false, ndecoded: 2 }));
    assert_eq!(dst, vec![1u8, 2, 0x66, 0x6f]);
    let res = codec.decode(&mut dst, b"66 6");
    assert_eq!(res, Err(CodecError::TruncatedInput));
    assert_eq!(dst, vec![1u8, 2, 0x66, 0x6f]);
    let mut out = vec![9u8];
    codec.encode(&mut out, b"\x00\xff");
    assert_eq!(out, b"\x0900FF".to_vec());
}

#[test]
fn base16_writer_close_and_closed() {
    let mut sink: Vec<u8> = Vec::new();
    let mut writer = Base16Writer::new(Base16::new());
    assert_eq!(writer.write(b"", &mut sink), Ok(()));
    assert_eq!(writer.write(b"\x01\x02\x03", &mut sink), Ok(()));
    assert_eq!(writer.close(&mut sink), Ok(()));
    assert_eq!(sink, b"010203".to_vec());
    assert_eq!(writer.write(b"x", &mut sink), Err(CodecError::WriterClosed));
    assert_eq!(writer.close(&mut sink), Err(CodecError::WriterClosed));
    assert_eq!(sink, b"010203".to_vec());
}

#[test]
fn base16_reader_matches_decode() {
    let source = b"00 01\n02 fF".to_vec();
    for step in 1..6 {
        assert_eq!(read_all(&source, step), decode(&source));
    }
    assert_eq!(read_all(b"", 4), Ok(Vec::new()));
    assert_eq!(read_all(b"123", 4), Err(CodecError::TruncatedInput));
    assert_eq!(read_all(b"12zz", 4), Err(CodecError::InvalidSymbol));
}

#[test]
fn base16_reader_wanted() {
    let mut reader = Base16Reader::new(Base16::new());
    assert_eq!(reader.wanted(0), 2);
    assert_eq!(reader.wanted(1), 2);
    assert_eq!(reader.wanted(5), 10);
    assert_eq!(reader.wanted(usize::MAX), usize::MAX / 2 * 2);
    assert!(!reader.eof());
    assert_eq!(reader.read(1, b"6162", false), Ok(vec![0x61]));
    assert_eq!(reader.wanted(5), 0);
    assert!(!reader.eof());
    assert_eq!(reader.read(5, b"", true), Ok(vec![0x62]));
    assert!(reader.eof());
}

#[test]
fn test_base16_writer() {
    let source1 = "fo".as_bytes().to_vec();
    let source2 = "o".as_bytes().to_vec();
    let expect = "666F6F".as_bytes().to_vec();

    let mut actual: Vec<u8> = Vec::new();
    let mut writer = Base16Writer::new(Base16::new());
    writer.write(&source1, &mut actual).unwrap();
    writer.write(&source2, &mut actual).unwrap();

    assert!(expect == actual);
}

#[test]
fn test_base16_reader() {
    let source = "666f6f".as_bytes().to_vec();
    let expect = "foo".as_bytes().to_vec();

    let actual = read_all(&source, 1).unwrap();

    assert!(expect == actual);
}
