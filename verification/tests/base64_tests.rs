use rfc4648::base64::{
    decode, encode, urlsafe_decode, urlsafe_encode, Base64, Base64Reader, Base64Type,
    Base64Writer,
};
use rfc4648::error::CodecError;
use rfc4648::util::{BinaryDecoder, BinaryEncoder, DecodeResult};

fn t(source: &[&str], expect: &[&str], cb: fn(&[u8]) -> Vec<u8>) {
    let source: Vec<Vec<u8>> = source.iter().map(|b| b.as_bytes().to_vec()).collect();
    let expect: Vec<Vec<u8>> = expect.iter().map(|b| b.as_bytes().to_vec()).collect();
    let actual: Vec<Vec<u8>> = source.iter().map(|e| cb(e)).collect();
    assert_eq!(expect, actual);
}

fn std_decode(src: &[u8]) -> Vec<u8> {
    decode(src).unwrap()
}

fn url_decode(src: &[u8]) -> Vec<u8> {
    urlsafe_decode(src).unwrap()
}

#[test]
fn base64_test_encode() {
    let source = ["", "f", "fo", "foo", "foob", "fooba", "foobar"];
    let expect = ["", "Zg==", "Zm8=", "Zm9v", "Zm9vYg==", "Zm9vYmE=", "Zm9vYmFy"];

    t(&source, &expect, encode);
}

#[test]
fn base64_test_urlsafe_encode() {
    let source = ["", "f", "fo", "fo>", "foob", "fooba", "fo?ba?"];
    let expect = ["", "Zg==", "Zm8=", "Zm8-", "Zm9vYg==", "Zm9vYmE=", "Zm8_YmE_"];

    t(&source, &expect, urlsafe_encode);
}

#[test]
fn base64_test_decode() {
    let source = ["", "Zg==", "Zm8=", "Zm8+", "Zm9v\r\nYg==", "\tZm9vYmE=", "Zm8/YmE/"];
    let expect = ["", "f", "fo", "fo>", "foob", "fooba", "fo?ba?"];

    t(&source, &expect, std_decode);
}

#[test]
fn base64_test_urlsafe_decode() {
    let source = ["", "Zg==", "Zm8=", "Zm8-", "Zm9v\r\nYg==", "\tZm9vYmE=", "Zm8_YmE_"];
    let expect = ["", "f", "fo", "fo>", "foob", "fooba", "fo?ba?"];

    t(&source, &expect, url_decode);
}

#[test]
fn test_urlsafe_encode() {
    let source = ["", "f", "fo", "fo>", "foob", "fooba", "fo?ba?"];
    let expect = ["", "Zg==", "Zm8=", "Zm8-", "Zm9vYg==", "Zm9vYmE=", "Zm8_YmE_"];

    t(&source, &expect, urlsafe_encode);
}

#[test]
fn test_urlsafe_decode() {
    let source = ["", "Zg==", "Zm8=", "Zm8-", "Zm9v\r\nYg==", "\tZm9vYmE=", "Zm8_YmE_"];
    let expect = ["", "f", "fo", "fo>", "foob", "fooba", "fo?ba?"];

    t(&source, &expect, url_decode);
}

#[test]
fn test_encode() {
    let source = ["", "f", "fo", "foo", "foob", "fooba", "foobar"];
    let expect = ["", "Zg==", "Zm8=", "Zm9v", "Zm9vYg==", "Zm9vYmE=", "Zm9vYmFy"];

    t(&source, &expect, encode);
}

#[test]
fn test_decode() {
    let source = ["", "Zg==", "Zm8=", "Zm8+", "Zm9v\r\nYg==", "\tZm9vYmE=", "Zm8/YmE/"];
    let expect = ["", "f", "fo", "fo>", "foob", "fooba", "fo?ba?"];

    t(&source, &expect, std_decode);
}

#[test]
fn base64_test_base64_writer() {
    let source1 = "f".as_bytes().to_vec();
    let source2 = "oobar".as_bytes().to_vec();
    let expect = "Zm9vYmFy".as_bytes().to_vec();

    let mut actual: Vec<u8> = Vec::new();
    let mut writer = Base64Writer::new(Base64::new(Base64Type::Standard));
    writer.write(&source1, &mut actual).unwrap();
    writer.write(&source2, &mut actual).unwrap();
    writer.close(&mut actual).unwrap();

    assert_eq!(expect, actual);
}

#[test]
fn test_base64_writer() {
    let source1 = "f".as_bytes().to_vec();
    let source2 = "oobar".as_bytes().to_vec();
    let expect = "Zm9vYmFy".as_bytes().to_vec();

    let mut actual: Vec<u8> = Vec::new();
    let mut writer = Base64Writer::new(Base64::new(Base64Type::Standard));
    writer.write(&source1, &mut actual).unwrap();
    writer.write(&source2, &mut actual).unwrap();

    assert_eq!(expect, actual);
}

fn read_all(kind: Base64Type, source: &[u8], step: usize) -> Result<Vec<u8>, CodecError> {
    let mut reader = Base64Reader::new(Base64::new(kind));
    let mut pos = 0;
    let mut out: Vec<u8> = Vec::new();
    while !reader.eof() {
        let want = reader.wanted(step);
        let end = if source.len() - pos < want { source.len() } else { pos + want };
        let chunk = &source[pos..end];
        pos = end;
        let buf = reader.read(step, chunk, pos == source.len())?;
        assert!(buf.len() <= step);
        out.extend_from_slice(&buf);
    }
    Ok(out)
}

#[test]
fn base64_test_base64_reader() {
    let source = ["Zg==", "Zm8=", "Zm8+", "Zm9vYg==", "Zm9vYmE=", "Zm8/YmE/"];
    let expect = ["f", "fo", "fo>", "foob", "fooba", "fo?ba?"];
    let source: Vec<Vec<u8>> = source.iter().map(|b| b.as_bytes().to_vec()).collect();
    let expect: Vec<Vec<u8>> = expect.iter().map(|b| b.as_bytes().to_vec()).collect();

    let actual: Vec<Vec<u8>> =
        source.iter().map(|e| read_all(Base64Type::Standard, e, 1).unwrap()).collect();

    assert_eq!(expect, actual);
}

#[test]
fn test_base64_reader() {
    let source = ["Zg==", "Zm8=", "Zm8+", "Zm9vYg==", "Zm9vYmE=", "Zm8/YmE/"];
    let expect = ["f", "fo", "fo>", "foob", "fooba", "fo?ba?"];
    let source: Vec<Vec<u8>> = source.iter().map(|b| b.as_bytes().to_vec()).collect();
    let expect: Vec<Vec<u8>> = expect.iter().map(|b| b.as_bytes().to_vec()).collect();

    let actual: Vec<Vec<u8>> =
        source.iter().map(|e| read_all(Base64Type::Standard, e, 1).unwrap()).collect();

    assert_eq!(expect, actual);
}

#[test]
fn base64n_test_encode_bytes() {
    let src = [102u8, 111u8, 111u8, 98u8, 97u8, 114u8];
    let enc = Base64::new(Base64Type::Standard);
    let res = enc.encode_bytes(&src);
    assert!(res == [90u8, 109u8, 57u8, 118u8, 89u8, 109u8, 70u8, 121u8]);
}

#[test]
fn base64n_test_encode_str() {
    let src = "foobar";
    let enc = Base64::new(Base64Type::Standard);
    let res = String::from_utf8(enc.encode_bytes(src.as_bytes())).unwrap();
    assert!(res == "Zm9vYmFy");
}

fn standard_encode(src: &[u8]) -> Vec<u8> {
    Base64Type::Standard.encode(src)
}

fn standard_decode(src: &[u8]) -> Vec<u8> {
    Base64Type::Standard.decode(src).unwrap()
}

fn safe_encode(src: &[u8]) -> Vec<u8> {
    Base64Type::UrlSafe.encode(src)
}

fn safe_decode(src: &[u8]) -> Vec<u8> {
    Base64Type::UrlSafe.decode(src).unwrap()
}

#[test]
fn test_base64_standard_encode() {
    let source = ["", "f", "fo", "foo", "foob", "fooba", "foobar"];
    let expect = ["", "Zg==", "Zm8=", "Zm9v", "Zm9vYg==", "Zm9vYmE=", "Zm9vYmFy"];

    t(&source, &expect, standard_encode);
}

#[test]
fn test_base64_urlsafe_encode() {
    let source = ["", "f", "fo", "fo>", "foob", "fooba", "fo?ba?"];
    let expect = ["", "Zg==", "Zm8=", "Zm8-", "Zm9vYg==", "Zm9vYmE=", "Zm8_YmE_"];

    t(&source, &expect, safe_encode);
}

#[test]
fn test_base64_standard_decode() {
    let source = ["", "Zg==", "Zm8=", "Zm8+", "Zm9vYg==", "Zm9vYmE=", "Zm8/YmE/"];
    let expect = ["", "f", "fo", "fo>", "foob", "fooba", "fo?ba?"];

    t(&source, &expect, standard_decode);
}

#[test]
fn test_base64_urlsafe_decode() {
    let source = ["", "Zg==", "Zm8=", "Zm8-", "Zm9vYg==", "Zm9vYmE=", "Zm8_YmE_"];
    let expect = ["", "f", "fo", "fo>", "foob", "fooba", "fo?ba?"];

    t(&source, &expect, safe_decode);
}

#[test]
fn base64_urlsafe_differs_in_last_two_symbols_only() {
    assert_eq!(urlsafe_encode(b"fo>"), b"Zm8-".to_vec());
    assert_eq!(encode(b"fo>"), b"Zm8+".to_vec());
    for v in 0..64u8 {
        let data = [v << 2, 0, 0];
        let a = encode(&data);
        let b = urlsafe_encode(&data);
        assert_eq!(a[0] == b[0], v < 62);
        assert_eq!(a[1..], b[1..]);
    }
    assert_eq!(decode(b"Zm8-"), Err(CodecError::InvalidSymbol));
    assert_eq!(urlsafe_decode(b"Zm8+"), Err(CodecError::InvalidSymbol));
    assert_eq!(urlsafe_decode(b"Zm8/"), Err(CodecError::InvalidSymbol));
    assert_eq!(decode(b"Zm8_"), Err(CodecError::InvalidSymbol));
}

#[test]
fn base64_padding_in_first_two_places_is_invalid_padding() {
    assert_eq!(decode(b"=AAA"), Err(CodecError::InvalidPadding));
    assert_eq!(decode(b"A=AA"), Err(CodecError::InvalidPadding));
    assert_eq!(decode(b"===="), Err(CodecError::InvalidPadding));
    assert_eq!(decode(b"A==="), Err(CodecError::InvalidPadding));
    assert_eq!(decode(b"Zm9v=AAA"), Err(CodecError::InvalidPadding));
    assert_eq!(decode(b"Zm9vA=AA"), Err(CodecError::InvalidPadding));
    assert_eq!(decode(b"Zm9v \n = A A A"), Err(CodecError::InvalidPadding));
    assert_eq!(decode(b"!=AA"), Err(CodecError::InvalidPadding));
    assert_eq!(urlsafe_decode(b"=AAA"), Err(CodecError::InvalidPadding));
}

#[test]
fn base64_padding_followed_by_data_is_invalid_padding() {
    assert_eq!(decode(b"Zg=A"), Err(CodecError::InvalidPadding));
    assert_eq!(decode(b"Zg=!"), Err(CodecError::InvalidPadding));
    assert_eq!(decode(b"Z!=A"), Err(CodecError::InvalidPadding));
}

#[test]
fn base64_other_errors() {
    assert_eq!(decode(b"Zm9"), Err(CodecError::TruncatedInput));
    assert_eq!(decode(b"Zm9vZ"), Err(CodecError::TruncatedInput));
    assert_eq!(decode(b"Zg="), Err(CodecError::TruncatedInput));
    assert_eq!(decode(b"Zm9!"), Err(CodecError::InvalidSymbol));
    assert_eq!(decode(b"Z!=="), Err(CodecError::InvalidSymbol));
    assert_eq!(decode(b"Zm\x0b9v"), Err(CodecError::InvalidSymbol));
    assert_eq!(Base64Type::Standard.decode_result(b"Zm9"), Err(CodecError::TruncatedInput));
    assert_eq!(Base64Type::UrlSafe.decode_result(b"Zm8_"), Ok(b"fo?".to_vec()));
}

#[test]
fn base64_padded_group_must_be_last() {
    assert_eq!(decode(b"Zg==Zg=="), Err(CodecError::InvalidPadding));
    assert_eq!(decode(b"Zg==Zm9v"), Err(CodecError::InvalidPadding));
    assert_eq!(decode(b"Zg===AAA"), Err(CodecError::InvalidPadding));
    assert_eq!(decode(b"Zm8=!!!!"), Err(CodecError::InvalidPadding));
    assert_eq!(decode(b"Zg==Zm9vZm9v"), Err(CodecError::InvalidPadding));
    assert_eq!(decode(b"Zg==\nZg==\n"), Err(CodecError::InvalidPadding));
    assert_eq!(urlsafe_decode(b"Zm8=Zm8_"), Err(CodecError::InvalidPadding));
    assert_eq!(decode(b"Zg==Zg"), Err(CodecError::TruncatedInput));
    assert_eq!(decode(b"Zg==Z"), Err(CodecError::TruncatedInput));
    assert_eq!(decode(b"Zg==="), Err(CodecError::TruncatedInput));
    assert_eq!(decode(b"Zm8=Zm9vZ"), Err(CodecError::TruncatedInput));
    assert_eq!(decode(b"Zm9vZg==Zm"), Err(CodecError::TruncatedInput));
    let codec = Base64::new(Base64Type::Standard);
    let mut dst = b"-".to_vec();
    assert_eq!(codec.decode(&mut dst, b"Zg==Zg=="), Err(CodecError::InvalidPadding));
    assert_eq!(dst, b"-".to_vec());
}

#[test]
fn base64_whitespace_behind_padding_is_ignored() {
    assert_eq!(decode(b"Zm8= \r\n\t"), Ok(b"fo".to_vec()));
    assert_eq!(decode(b"Zm8=\n\n\n\n\n"), Ok(b"fo".to_vec()));
    assert_eq!(decode(b"Zg = =\n"), Ok(b"f".to_vec()));
}

#[test]
fn base64_decodes_exactly_the_well_formed() {
    let symbols: &[u8] = b"Zm9+/=!";
    let mut text: Vec<u8> = Vec::new();
    for len in 0..9usize {
        let mut count = vec![0usize; len];
        loop {
            text.clear();
            text.extend(count.iter().map(|&i| symbols[i]));
            let pads = text.iter().rev().take_while(|&&c| c == b'=').count();
            let well = len % 4 == 0
                && pads <= 2
                && text[..len - pads].iter().all(|&c| c != b'=' && c != b'!');
            let res = decode(&text);
            assert_eq!(res.is_ok(), well);
            if let Ok(bytes) = res {
                assert_eq!(bytes.len(), len / 4 * 3 - pads);
            }
            let mut i = 0;
            while i < len {
                count[i] += 1;
                if count[i] < symbols.len() {
                    break;
                }
                count[i] = 0;
                i += 1;
            }
            if i == len {
                break;
            }
        }
        if len > 5 {
            break;
        }
    }
}

#[test]
fn base64_reader_fails_on_symbols_behind_padding() {
    let mut reader = Base64Reader::new(Base64::new(Base64Type::Standard));
    assert_eq!(reader.read(9, b"Zg==Zg==", false), Err(CodecError::InvalidPadding));
    assert_eq!(reader.read(9, b"Zg==Zg", false), Err(CodecError::TruncatedInput));
    assert_eq!(reader.read(9, b"Zm9vZg== \n", false), Ok(b"foof".to_vec()));
    assert!(reader.eof());
    assert_eq!(reader.wanted(9), 0);
    assert_eq!(reader.read(9, b" \r\n", false), Ok(Vec::new()));
    assert_eq!(reader.read(9, b"Zm9v", false), Err(CodecError::InvalidPadding));
    assert_eq!(reader.read(9, b"Z", true), Err(CodecError::TruncatedInput));
    assert_eq!(reader.read(9, b"", true), Ok(Vec::new()));
    assert!(reader.eof());
}

#[test]
fn base64_lengths() {
    let codec = Base64::new(Base64Type::Standard);
    assert_eq!(codec.encoded_len(0), 0);
    assert_eq!(codec.encoded_len(1), 4);
    assert_eq!(codec.encoded_len(3), 4);
    assert_eq!(codec.encoded_len(4), 8);
    assert_eq!(codec.decoded_len(8), 6);
    assert_eq!(codec.decoded_len(7), 3);
    for n in 0..40usize {
        let data = vec![0x5au8; n];
        assert_eq!(codec.encode_bytes(&data).len(), codec.encoded_len(n));
        assert_eq!(codec.encode_bytes(&data).len() % 4, 0);
    }
    assert!(codec.kind() == Base64Type::Standard);
}

#[test]
fn base64_decode_pass_reports_end() {
    let codec = Base64::new(Base64Type::Standard);
    let mut dst: Vec<u8> = Vec::new();
    assert_eq!(codec.decode(&mut dst, b"Zm9v"), Ok(DecodeResult { end: false, ndecoded: 3 }));
    assert_eq!(codec.decode(&mut dst, b"Zm9vYg=="), Ok(DecodeResult { end: true, ndecoded: 4 }));
    assert_eq!(dst, b"foofoob".to_vec());
    assert_eq!(codec.decode(&mut dst, b"Zm9vYg"), Err(CodecError::TruncatedInput));
    assert_eq!(dst, b"foofoob".to_vec());
    assert_eq!(codec.decode_bytes(b"Zm9vYg=="), Ok(b"foob".to_vec()));
}

#[test]
fn base64_round_trip_all_lengths() {
    for kind in [Base64Type::Standard, Base64Type::UrlSafe] {
        for n in 0..64usize {
            let data: Vec<u8> = (0..n).map(|i| (i * 83 + 201) as u8).collect();
            assert_eq!(kind.decode(&kind.encode(&data)), Ok(data));
        }
    }
}

#[test]
fn base64_round_trip_all_pairs_of_bytes() {
    for a in 0..=255u8 {
        assert_eq!(decode(&encode(&[a])), Ok(vec![a]));
        for b in [0u8, 1, 0x7f, 0x80, 0xff, a] {
            assert_eq!(decode(&encode(&[a, b])), Ok(vec![a, b]));
            assert_eq!(decode(&encode(&[b, a, b])), Ok(vec![b, a, b]));
        }
    }
}

#[test]
fn base64_writer_matches_encode_for_any_chunking() {
    let data: Vec<u8> = (100..120u8).collect();
    let expect = encode(&data);
    for cut1 in 0..data.len() {
        for cut2 in cut1..data.len() {
            let mut sink: Vec<u8> = Vec::new();
            let mut writer = Base64Writer::new(Base64::new(Base64Type::Standard));
            writer.write(&data[..cut1], &mut sink).unwrap();
            writer.write(&data[cut1..cut2], &mut sink).unwrap();
            writer.write(&data[cut2..], &mut sink).unwrap();
            assert_eq!(sink.len() % 4, 0);
            writer.close(&mut sink).unwrap();
            assert_eq!(sink, expect);
        }
    }
}

#[test]
fn base64_writer_holds_back_less_than_a_block() {
    let mut sink: Vec<u8> = Vec::new();
    let mut writer = Base64Writer::new(Base64::new(Base64Type::UrlSafe));
    assert_eq!(writer.write(b"fo", &mut sink), Ok(()));
    assert_eq!(sink, Vec::<u8>::new());
    assert_eq!(writer.write(b"?b", &mut sink), Ok(()));
    assert_eq!(sink, b"Zm8_".to_vec());
    assert_eq!(writer.close(&mut sink), Ok(()));
    assert_eq!(sink, b"Zm8_Yg==".to_vec());
    assert_eq!(writer.write(b"f", &mut sink), Err(CodecError::WriterClosed));
    assert_eq!(writer.close(&mut sink), Err(CodecError::WriterClosed));
    assert_eq!(sink, b"Zm8_Yg==".to_vec());
}

#[test]
fn base64_reader_matches_decode() {
    let sources: [&[u8]; 7] = [
        b"Zm9vYmFy",
        b"Zm9v\r\nYg==",
        b"\tZm9vYmE=",
        b"Zm9vYmFyZm9vYmFyZm9vYmFyZg==",
        b"Zm9vYm",
        b"Zm9vYm!y",
        b"Zm9v=mFy",
    ];
    for source in sources {
        for step in 1..9 {
            assert_eq!(read_all(Base64Type::Standard, source, step), decode(source));
        }
    }
}

#[test]
fn base64_reader_wanted() {
    let mut reader = Base64Reader::new(Base64::new(Base64Type::Standard));
    assert_eq!(reader.wanted(0), 4);
    assert_eq!(reader.wanted(2), 4);
    assert_eq!(reader.wanted(3), 4);
    assert_eq!(reader.wanted(7), 8);
    assert_eq!(reader.wanted(usize::MAX), usize::MAX / 4 * 4);
    assert_eq!(reader.read(1, b"Zm9v", false), Ok(b"f".to_vec()));
    assert_eq!(reader.wanted(7), 0);
    assert!(!reader.eof());
    assert_eq!(reader.read(7, b"", true), Ok(b"oo".to_vec()));
    assert!(reader.eof());
}
