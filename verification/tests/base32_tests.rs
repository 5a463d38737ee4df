use rfc4648::base32::{
    decode, encode, hex_decode, hex_encode, Base32, Base32Reader, Base32Type, Base32Writer,
};
use rfc4648::error::CodecError;
use rfc4648::util::{BinaryDecoder, BinaryEncoder, DecodeResult};

fn t(source: &[&str], expect: &[&str], cb: fn(&[u8]) -> Vec<u8>) {
    let source: Vec<Vec<u8>> = source.iter().map(|b| b.as_bytes().to_vec()).collect();
    let expect: Vec<Vec<u8>> = expect.iter().map(|b| b.as_bytes().to_vec()).collect();
    let actual: Vec<Vec<u8>> = source.iter().map(|e| cb(e)).collect();
    assert_eq!(expect, actual);
}

fn std_decode(src: &[u8]) -> Vec<u8> {
    decode(src).unwrap()
}

fn ext_decode(src: &[u8]) -> Vec<u8> {
    hex_decode(src).unwrap()
}

#[test]
fn base32_test_encode() {
    let source = ["", "f", "fo", "foo", "foob", "fooba", "foobar"];
    let expect = [
        "", "MY======", "MZXQ====", "MZXW6===", "MZXW6YQ=", "MZXW6YTB", "MZXW6YTBOI======",
    ];

    t(&source, &expect, encode);
}

#[test]
fn base32_test_hex_encode() {
    let source = ["", "f", "fo", "foo", "foob", "fooba", "foobar"];
    let expect = [
        "", "CO======", "CPNG====", "CPNMU===", "CPNMUOG=", "CPNMUOJ1", "CPNMUOJ1E8======",
    ];

    t(&source, &expect, hex_encode);
}

#[test]
fn base32_test_decode() {
    let source = [
        "", "MY======", "MZXQ====", "MZXW6===", "\tMZXW\r\n6YQ=", "MZXW6YTB", "MZXW6YTBOI======",
    ];
    let expect = ["", "f", "fo", "foo", "foob", "fooba", "foobar"];

    t(&source, &expect, std_decode);
}

#[test]
fn base32_test_hex_decode() {
    let source = [
        "", "CO======", "CPNG====", "CPNMU===", "\tCPNM\r\nUOG=", "CPNMUOJ1", "CPNMUOJ1E8======",
    ];
    let expect = ["", "f", "fo", "foo", "foob", "fooba", "foobar"];

    t(&source, &expect, ext_decode);
}

#[test]
fn base32_test_base32_writer() {
    let source1 = "f".as_bytes().to_vec();
    let source2 = "ooba".as_bytes().to_vec();
    let expect = "MZXW6YTB".as_bytes().to_vec();

    let mut actual: Vec<u8> = Vec::new();
    let mut writer = Base32Writer::new(Base32::new(Base32Type::Standard));
    writer.write(&source1, &mut actual).unwrap();
    writer.write(&source2, &mut actual).unwrap();
    writer.close(&mut actual).unwrap();

    assert_eq!(expect, actual);
}

fn read_all(kind: Base32Type, source: &[u8], step: usize) -> Result<Vec<u8>, CodecError> {
    let mut reader = Base32Reader::new(Base32::new(kind));
    let mut pos = 0;
    let mut out: Vec<u8> = Vec::new();
    while !reader.eof() {
        let want = reader.wanted(step);
        let end = if source.len() - pos < want { source.len() } else { pos + want };
        let chunk = &source[pos..end];
        pos = end;
        let buf = reader.read(step, chunk, pos == source.len())?;
        assert!(buf.len() <= step);
        out.extend_from_slice(&buf);
    }
    Ok(out)
}

#[test]
fn base32_test_base32_reader() {
    let source = [
        "MY======", "MZXQ====", "MZXW6===", "MZXW6YQ=", "MZXW6YTB", "MZXW6YTBOI======",
    ];
    let expect = ["f", "fo", "foo", "foob", "fooba", "foobar"];

    let source: Vec<Vec<u8>> = source.iter().map(|b| b.as_bytes().to_vec()).collect();
    let expect: Vec<Vec<u8>> = expect.iter().map(|b| b.as_bytes().to_vec()).collect();

    let actual: Vec<Vec<u8>> =
        source.iter().map(|e| read_all(Base32Type::Standard, e, 1).unwrap()).collect();

    assert_eq!(expect, actual);
}

#[test]
fn base32n_test_encode_bytes() {
    let src0 = ["", "f", "fo", "foo", "foob", "fooba", "foobar"];
    let exp0 = [
        "", "MY======", "MZXQ====", "MZXW6===", "MZXW6YQ=", "MZXW6YTB", "MZXW6YTBOI======",
    ];
    let enc = Base32::new(Base32Type::Standard);
    let mut i = 0;
    while i < src0.len() {
        let res = enc.encode_bytes(src0[i].as_bytes());
        assert!(exp0[i].as_bytes() == res.as_slice());
        i += 1;
    }
}

#[test]
fn test_encode_bytes_h() {
    let src0 = ["", "f", "fo", "foo", "foob", "fooba", "foobar"];
    let exp0 = [
        "", "CO======", "CPNG====", "CPNMU===", "CPNMUOG=", "CPNMUOJ1", "CPNMUOJ1E8======",
    ];
    let enc = Base32::new(Base32Type::Hex);
    let mut i = 0;
    while i < src0.len() {
        let res = enc.encode_bytes(src0[i].as_bytes());
        assert!(exp0[i].as_bytes() == res.as_slice());
        i += 1;
    }
}

#[test]
fn base32n_test_encode_str() {
    let src = ["", "f", "fo", "foo", "foob", "fooba", "foobar"];
    let exp = [
        "", "MY======", "MZXQ====", "MZXW6===", "MZXW6YQ=", "MZXW6YTB", "MZXW6YTBOI======",
    ];
    let enc = Base32::new(Base32Type::Standard);
    let mut i = 0;
    while i < src.len() {
        let res = String::from_utf8(enc.encode_bytes(src[i].as_bytes())).unwrap();
        assert!(exp[i] == res);
        i += 1;
    }
}

#[test]
fn test_encode_str_h() {
    let src = ["", "f", "fo", "foo", "foob", "fooba", "foobar"];
    let exp = [
        "", "CO======", "CPNG====", "CPNMU===", "CPNMUOG=", "CPNMUOJ1", "CPNMUOJ1E8======",
    ];
    let enc = Base32::new(Base32Type::Hex);
    let mut i = 0;
    while i < src.len() {
        let res = String::from_utf8(enc.encode_bytes(src[i].as_bytes())).unwrap();
        assert!(exp[i] == res);
        i += 1;
    }
}

fn standard_encode(src: &[u8]) -> Vec<u8> {
    Base32Type::Standard.encode(src)
}

fn standard_decode(src: &[u8]) -> Vec<u8> {
    Base32Type::Standard.decode(src).unwrap()
}

fn exthex_encode(src: &[u8]) -> Vec<u8> {
    Base32Type::Hex.encode(src)
}

fn exthex_decode(src: &[u8]) -> Vec<u8> {
    Base32Type::Hex.decode(src).unwrap()
}

#[test]
fn test_base32_standard_encode() {
    let source = ["", "f", "fo", "foo", "foob", "fooba", "foobar"];
    let expect = [
        "", "MY======", "MZXQ====", "MZXW6===", "MZXW6YQ=", "MZXW6YTB", "MZXW6YTBOI======",
    ];

    t(&source, &expect, standard_encode);
}

#[test]
fn test_base32_hex_encode() {
    let source = ["", "f", "fo", "foo", "foob", "fooba", "foobar"];
    let expect = [
        "", "CO======", "CPNG====", "CPNMU===", "CPNMUOG=", "CPNMUOJ1", "CPNMUOJ1E8======",
    ];

    t(&source, &expect, exthex_encode);
}

#[test]
fn test_base32_standard_decode() {
    let source = [
        "", "MY======", "MZXQ====", "MZXW6===", "MZXW6YQ=", "MZXW6YTB", "MZXW6YTBOI======",
    ];
    let expect = ["", "f", "fo", "foo", "foob", "fooba", "foobar"];

    t(&source, &expect, standard_decode);
}

#[test]
fn test_base32_hex_decode() {
    let source = [
        "", "CO======", "CPNG====", "CPNMU===", "CPNMUOG=", "CPNMUOJ1", "CPNMUOJ1E8======",
    ];
    let expect = ["", "f", "fo", "foo", "foob", "fooba", "foobar"];

    t(&source, &expect, exthex_decode);
}

#[test]
fn base32_decode_errors() {
    assert_eq!(decode(b"MZXW6YT"), Err(CodecError::TruncatedInput));
    assert_eq!(decode(b"MZXW6YTBM"), Err(CodecError::TruncatedInput));
    assert_eq!(decode(b"M======="), Err(CodecError::InvalidPadding));
    assert_eq!(decode(b"========"), Err(CodecError::InvalidPadding));
    assert_eq!(decode(b"MZ=W6YTB"), Err(CodecError::InvalidPadding));
    assert_eq!(decode(b"MZXW6YT1"), Err(CodecError::InvalidSymbol));
    assert_eq!(decode(b"mzxw6ytb"), Err(CodecError::InvalidSymbol));
    assert_eq!(hex_decode(b"CPNMUOJW"), Err(CodecError::InvalidSymbol));
    assert_eq!(Base32Type::Hex.decode_result(b"CPNMUOJ"), Err(CodecError::TruncatedInput));
    assert_eq!(Base32Type::Standard.decode_result(b"MZXW6YTB"), Ok(b"fooba".to_vec()));
}

#[test]
fn base32_padding_shape_is_checked_before_symbols() {
    assert_eq!(decode(b"!======="), Err(CodecError::InvalidPadding));
    assert_eq!(decode(b"M!=A===="), Err(CodecError::InvalidPadding));
    assert_eq!(decode(b"M!======"), Err(CodecError::InvalidSymbol));
}

#[test]
fn base32_decode_takes_every_count_of_data_symbols() {
    assert_eq!(decode(b"MY======"), Ok(vec![0x66]));
    assert_eq!(decode(b"MZX====="), Ok(vec![0x66, 0x6e]));
    assert_eq!(decode(b"MZXQ===="), Ok(vec![0x66, 0x6f]));
    assert_eq!(decode(b"MZXW6==="), Ok(vec![0x66, 0x6f, 0x6f]));
    assert_eq!(decode(b"MZXW6Y=="), Ok(vec![0x66, 0x6f, 0x6f, 0x60]));
    assert_eq!(decode(b"MZXW6YQ="), Ok(vec![0x66, 0x6f, 0x6f, 0x62]));
    assert_eq!(decode(b"MZXW6YTB"), Ok(vec![0x66, 0x6f, 0x6f, 0x62, 0x61]));
}

#[test]
fn base32_padded_group_must_be_last() {
    assert_eq!(decode(b"MY======MZXW6YTB"), Err(CodecError::InvalidPadding));
    assert_eq!(decode(b"MY======MY======"), Err(CodecError::InvalidPadding));
    assert_eq!(hex_decode(b"CO======CPNMUOJ1"), Err(CodecError::InvalidPadding));
    assert_eq!(decode(b"MY======!"), Err(CodecError::TruncatedInput));
    assert_eq!(decode(b"MY======="), Err(CodecError::TruncatedInput));
    assert_eq!(decode(b"MZXW6YTBMY======MZXW"), Err(CodecError::TruncatedInput));
    assert_eq!(decode(b"MY====== \r\n"), Ok(b"f".to_vec()));
    assert_eq!(decode(b"MZXW6YTB MY===\t===\n"), Ok(b"foobaf".to_vec()));
}

#[test]
fn base32_lengths() {
    let codec = Base32::new(Base32Type::Standard);
    assert_eq!(codec.encoded_len(0), 0);
    assert_eq!(codec.encoded_len(1), 8);
    assert_eq!(codec.encoded_len(5), 8);
    assert_eq!(codec.encoded_len(6), 16);
    assert_eq!(codec.decoded_len(16), 10);
    assert_eq!(codec.decoded_len(15), 5);
    for n in 0..40usize {
        let data = vec![0xa5u8; n];
        assert_eq!(codec.encode_bytes(&data).len(), codec.encoded_len(n));
        assert_eq!(codec.encode_bytes(&data).len() % 8, 0);
    }
    assert!(codec.kind() == Base32Type::Standard);
}

#[test]
fn base32_decode_pass_reports_end() {
    let codec = Base32::new(Base32Type::Standard);
    let mut dst: Vec<u8> = Vec::new();
    assert_eq!(
        codec.decode(&mut dst, b"MZXW6YTB"),
        Ok(DecodeResult { end: false, ndecoded: 5 })
    );
    assert_eq!(
        codec.decode(&mut dst, b"MZXW6YTBOI======"),
        Ok(DecodeResult { end: true, ndecoded: 6 })
    );
    assert_eq!(dst, b"foobafoobar".to_vec());
    assert_eq!(codec.decode(&mut dst, b"MZXW6YTBOI"), Err(CodecError::TruncatedInput));
    assert_eq!(dst, b"foobafoobar".to_vec());
}

#[test]
fn base32_round_trip_all_lengths() {
    for kind in [Base32Type::Standard, Base32Type::Hex] {
        for n in 0..64usize {
            let data: Vec<u8> = (0..n).map(|i| (i * 37 + 11) as u8).collect();
            assert_eq!(kind.decode(&kind.encode(&data)), Ok(data));
        }
    }
}

#[test]
fn base32_writer_matches_encode_for_any_chunking() {
    let data: Vec<u8> = (0..23u8).collect();
    let expect = encode(&data);
    for cut1 in 0..data.len() {
        for cut2 in cut1..data.len() {
            let mut sink: Vec<u8> = Vec::new();
            let mut writer = Base32Writer::new(Base32::new(Base32Type::Standard));
            writer.write(&data[..cut1], &mut sink).unwrap();
            writer.write(&data[cut1..cut2], &mut sink).unwrap();
            writer.write(&data[cut2..], &mut sink).unwrap();
            assert_eq!(sink.len() % 8, 0);
            writer.close(&mut sink).unwrap();
            assert_eq!(sink, expect);
        }
    }
}

#[test]
fn base32_writer_closed() {
    let mut sink: Vec<u8> = Vec::new();
    let mut writer = Base32Writer::new(Base32::new(Base32Type::Hex));
    assert_eq!(writer.write(b"f", &mut sink), Ok(()));
    assert_eq!(sink, Vec::<u8>::new());
    assert_eq!(writer.close(&mut sink), Ok(()));
    assert_eq!(sink, b"CO======".to_vec());
    assert_eq!(writer.write(b"f", &mut sink), Err(CodecError::WriterClosed));
    assert_eq!(writer.close(&mut sink), Err(CodecError::WriterClosed));
    assert_eq!(sink, b"CO======".to_vec());
}

#[test]
fn base32_reader_matches_decode() {
    let sources: [&[u8]; 6] = [
        b"MZXW6YTBOI======",
        b"\tMZXW\r\n6YQ=",
        b"MZXW6YTB MZXW6YTB\nMZXW6YTB",
        b"MZXW6YTBOI",
        b"MZXW6YT!",
        b"MZXW6YTB=ZXW6YTB",
    ];
    for source in sources {
        for step in 1..12 {
            assert_eq!(read_all(Base32Type::Standard, source, step), decode(source));
        }
    }
}

#[test]
fn base32_reader_wanted() {
    let mut reader = Base32Reader::new(Base32::new(Base32Type::Standard));
    assert_eq!(reader.wanted(0), 8);
    assert_eq!(reader.wanted(4), 8);
    assert_eq!(reader.wanted(5), 8);
    assert_eq!(reader.wanted(10), 16);
    assert_eq!(reader.wanted(usize::MAX), usize::MAX / 8 * 8);
    assert_eq!(reader.read(2, b"MZXW6YTB", false), Ok(b"fo".to_vec()));
    assert_eq!(reader.wanted(10), 0);
    assert_eq!(reader.read(10, b"", false), Ok(b"oba".to_vec()));
    assert!(!reader.eof());
    assert_eq!(reader.read(10, b"MY======", false), Ok(b"f".to_vec()));
    assert!(reader.eof());
    assert_eq!(reader.wanted(10), 0);
    assert_eq!(reader.read(10, b"MZXW6YTB", false), Err(CodecError::InvalidPadding));
    assert_eq!(reader.read(10, b"MZXW6", false), Err(CodecError::TruncatedInput));
    assert_eq!(reader.read(10, b"\n", true), Ok(Vec::new()));
    assert!(reader.eof());
}

#[test]
fn base32_reader_failed_call_changes_nothing() {
    let mut reader = Base32Reader::new(Base32::new(Base32Type::Standard));
    assert_eq!(reader.read(1, b"MZXW6YTBMZ", false), Ok(b"f".to_vec()));
    assert_eq!(reader.read(1, b"!!!!!!", false), Err(CodecError::InvalidSymbol));
    assert_eq!(reader.read(1, b"", true), Err(CodecError::TruncatedInput));
    assert_eq!(reader.read(9, b"XW6YTB", true), Ok(b"oobafooba".to_vec()));
    assert!(reader.eof());
}

#[test]
fn test_hex_encode() {
    let source = ["", "f", "fo", "foo", "foob", "fooba", "foobar"];
    let expect = [
        "", "CO======", "CPNG====", "CPNMU===", "CPNMUOG=", "CPNMUOJ1", "CPNMUOJ1E8======",
    ];

    t(&source, &expect, hex_encode);
}

#[test]
fn test_hex_decode() {
    let source = [
        "", "CO======", "CPNG====", "CPNMU===", "\tCPNM\r\nUOG=", "CPNMUOJ1", "CPNMUOJ1E8======",
    ];
    let expect = ["", "f", "fo", "foo", "foob", "fooba", "foobar"];

    t(&source, &expect, ext_decode);
}

#[test]
fn test_base32_writer() {
    let source1 = "f".as_bytes().to_vec();
    let source2 = "ooba".as_bytes().to_vec();
    let expect = "MZXW6YTB".as_bytes().to_vec();

    let mut actual: Vec<u8> = Vec::new();
    let mut writer = Base32Writer::new(Base32::new(Base32Type::Standard));
    writer.write(&source1, &mut actual).unwrap();
    writer.write(&source2, &mut actual).unwrap();

    assert!(expect == actual);
}

#[test]
fn test_base32_reader() {
    let source = [
        "MY======", "MZXQ====", "MZXW6===", "MZXW6YQ=", "MZXW6YTB", "MZXW6YTBOI======",
    ];
    let expect = ["f", "fo", "foo", "foob", "fooba", "foobar"];

    let source: Vec<Vec<u8>> = source.iter().map(|b| b.as_bytes().to_vec()).collect();
    let expect: Vec<Vec<u8>> = expect.iter().map(|b| b.as_bytes().to_vec()).collect();

    let actual: Vec<Vec<u8>> =
        source.iter().map(|e| read_all(Base32Type::Standard, e, 1).unwrap()).collect();

    assert!(expect == actual);
}
