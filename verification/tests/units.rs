use mdict_reader::attrs::read_keys;
use mdict_reader::bytes::{read_buf, read_u16_be, read_u32_be, read_u32_le, read_u64_be};
use mdict_reader::checksum::check_adler32;
use mdict_reader::cipher::{fast_decrypt, fast_encrypt};
use mdict_reader::block::decode_block;
use mdict_reader::dict::load;
use mdict_reader::header::{parse_u8, read_header, trim};
use mdict_reader::keys::IdentityKeyMaker;
use mdict_reader::records::record_offset;
use mdict_reader::keys::KeyEntry;
use mdict_reader::text::{decode_slice_string, Codec};
use mdict_reader::{BlockEntryInfo, Error, Section, Version};

fn adler(data: &[u8]) -> u32 {
    adler32::RollingAdler32::from_buffer(data).hash()
}

fn utf16le(s: &str) -> Vec<u8> {
    let mut v = Vec::new();
    for u in s.encode_utf16() {
        v.extend_from_slice(&u.to_le_bytes());
    }
    v
}

fn chars(s: &str) -> Vec<char> {
    s.chars().collect()
}

#[test]
fn byte_readers() {
    let data = [0x01, 0x02, 0x03, 0x04, 0x05, 0x06, 0x07, 0x08, 0x09];
    assert_eq!(read_u16_be(&data, 0), 0x0102);
    assert_eq!(read_u32_be(&data, 1), 0x02030405);
    assert_eq!(read_u32_le(&data, 0), 0x04030201);
    assert_eq!(read_u64_be(&data, 1), 0x0203040506070809);
}

#[test]
fn read_buf_advances_and_refuses() {
    let data = [9u8, 8, 7, 6];
    let mut pos = 1usize;
    let v = read_buf(&data, &mut pos, 2).unwrap();
    assert_eq!(v, vec![8, 7]);
    assert_eq!(pos, 3);
    assert!(matches!(read_buf(&data, &mut pos, 2), Err(Error::InvalidData)));
    assert_eq!(pos, 3);
}

#[test]
fn version_sized_numbers() {
    let data = [0, 0, 0, 5, 0, 0, 0, 0, 0, 0, 0, 9];
    let mut pos = 0usize;
    assert_eq!(Version::V1.read_number(&data, &mut pos).unwrap(), 5);
    assert_eq!(Version::V2.read_number(&data, &mut pos).unwrap(), 9);
    assert_eq!(pos, 12);
}

#[test]
fn fast_cipher_round_trip() {
    let key = [0x12u8, 0x34, 0x56];
    let plain: Vec<u8> = (0u8..100).collect();
    let enc = fast_encrypt(&plain, &key);
    assert_ne!(enc, plain);
    assert_eq!(fast_decrypt(&enc, &key), plain);
}

#[test]
fn fast_cipher_not_an_involution() {
    // applying the decrypting direction twice does not give the input back
    let twice = fast_decrypt(&fast_decrypt(&[0u8], &[0u8]), &[0u8]);
    assert_ne!(twice, vec![0u8]);
}

#[test]
fn adler_check() {
    let data = b"hello world";
    assert!(check_adler32(data, adler(data), Section::Header).is_ok());
    match check_adler32(data, adler(data) ^ 1, Section::KeyBlockInfo) {
        Err(Error::InvalidCheckSum(Section::KeyBlockInfo)) => {}
        other => panic!("unexpected: {:?}", other),
    }
}

#[test]
fn attribute_grammar() {
    let text = chars("<Dict a=\"1\" b=\"x y\nz\" a=\"3\" junk c=\"\"/>");
    let pairs = read_keys(&text);
    let got: Vec<(String, String)> = pairs
        .iter()
        .map(|(k, v)| (k.iter().collect(), v.iter().collect()))
        .collect();
    assert_eq!(
        got,
        vec![
            ("a".to_string(), "1".to_string()),
            ("b".to_string(), "x y\nz".to_string()),
            ("a".to_string(), "3".to_string()),
            ("c".to_string(), "".to_string()),
        ]
    );
}

#[test]
fn attribute_without_closing_quote_ends_the_scan() {
    let text = chars("k=\"v\" trailing=\"unclosed");
    let pairs = read_keys(&text);
    assert_eq!(pairs.len(), 1);
    let k: String = pairs[0].0.iter().collect();
    assert_eq!(k, "k");
}

#[test]
fn parse_u8_like_std() {
    assert_eq!(parse_u8(&chars("0")), Some(0));
    assert_eq!(parse_u8(&chars("+5")), Some(5));
    assert_eq!(parse_u8(&chars("255")), Some(255));
    assert_eq!(parse_u8(&chars("00000000255")), Some(255));
    assert_eq!(parse_u8(&chars("256")), None);
    assert_eq!(parse_u8(&chars("")), None);
    assert_eq!(parse_u8(&chars("+")), None);
    assert_eq!(parse_u8(&chars("-1")), None);
    assert_eq!(parse_u8(&chars("Yes")), None);
}

#[test]
fn trim_whitespace() {
    let t: String = trim(&chars("  a b\t\n")).iter().collect();
    assert_eq!(t, "a b");
    let e: String = trim(&chars(" \t ")).iter().collect();
    assert_eq!(e, "");
}

#[test]
fn terminated_strings() {
    let (t, n) = decode_slice_string(b"abc\0rest", &Codec::Utf8).unwrap();
    let s: String = t.iter().collect();
    assert_eq!(s, "abc");
    assert_eq!(n, 4);
    let bytes = {
        let mut v = utf16le("hi");
        v.extend_from_slice(&[0, 0, 0xff]);
        v
    };
    let (t, n) = decode_slice_string(&bytes, &Codec::Utf16Le).unwrap();
    let s: String = t.iter().collect();
    assert_eq!(s, "hi");
    assert_eq!(n, 6);
    assert!(matches!(
        decode_slice_string(b"no terminator", &Codec::Utf8),
        Err(Error::InvalidData)
    ));
    match decode_slice_string(b"x\0", &Codec::Other("EUC-KR".to_string())) {
        Err(Error::InvalidEncoding(name)) => assert_eq!(name, "EUC-KR"),
        other => panic!("unexpected: {:?}", other),
    }
}

fn header_bytes(attrs_text: &str) -> Vec<u8> {
    let info = utf16le(attrs_text);
    let mut v = (info.len() as u32).to_be_bytes().to_vec();
    v.extend_from_slice(&info);
    v.extend_from_slice(&adler(&info).to_le_bytes());
    v
}

#[test]
fn header_parsing_and_errors() {
    let mut pos = 0usize;
    let good = header_bytes("GeneratedByEngineVersion=\"2.0\" Title=\"T\" Encrypted=\"Yes\"");
    let h = read_header(&good, &mut pos, &Codec::Utf8).unwrap();
    assert!(matches!(h.version, Version::V2));
    assert_eq!(h.encrypted, 1);
    assert_eq!(h.title.as_str(), "T");
    assert!(matches!(h.codec, Codec::Utf8));

    let mut pos = 0usize;
    let mut bad = header_bytes("GeneratedByEngineVersion=\"1\" Title=\"T\"");
    let n = bad.len();
    bad[n - 1] ^= 1;
    assert!(matches!(
        read_header(&bad, &mut pos, &Codec::Utf8),
        Err(Error::InvalidCheckSum(Section::Header))
    ));

    let mut pos = 0usize;
    assert!(matches!(
        read_header(&header_bytes("Title=\"T\""), &mut pos, &Codec::Utf8),
        Err(Error::NoVersion)
    ));

    let mut pos = 0usize;
    assert!(matches!(
        read_header(
            &header_bytes("GeneratedByEngineVersion=\"x\" Title=\"T\""),
            &mut pos,
            &Codec::Utf8
        ),
        Err(Error::InvalidVersion(_))
    ));

    let mut pos = 0usize;
    assert!(matches!(
        read_header(
            &header_bytes("GeneratedByEngineVersion=\"1\""),
            &mut pos,
            &Codec::Utf8
        ),
        Err(Error::NoTitle)
    ));

    let mut pos = 0usize;
    match read_header(
        &header_bytes("GeneratedByEngineVersion=\"3.0\" Title=\"T\""),
        &mut pos,
        &Codec::Utf8,
    ) {
        Err(Error::UnsupportedVersion(3)) => {}
        other => panic!("unexpected: {:?}", other),
    }

    let mut pos = 0usize;
    match read_header(
        &header_bytes("GeneratedByEngineVersion=\"1\" Title=\"T\" Encoding=\"not-a-codec\""),
        &mut pos,
        &Codec::Utf8,
    ) {
        Err(Error::InvalidEncoding(label)) => assert_eq!(label, "not-a-codec"),
        other => panic!("unexpected: {:?}", other),
    }

    let mut pos = 0usize;
    let h = read_header(
        &header_bytes("GeneratedByEngineVersion=\"1\" Title=\"T\" Encoding=\"UTF-16LE\""),
        &mut pos,
        &Codec::Utf8,
    )
    .unwrap();
    assert!(matches!(h.codec, Codec::Utf16Le));
}

#[test]
fn record_block_locator() {
    let infos = vec![
        BlockEntryInfo { compressed_size: 10, decompressed_size: 20 },
        BlockEntryInfo { compressed_size: 30, decompressed_size: 40 },
    ];
    let e = KeyEntry { offset: 25, text: b"k".to_vec() };
    let ro = record_offset(&infos, &e).unwrap();
    assert_eq!(ro.buf_offset, 10);
    assert_eq!(ro.block_offset, 5);
    assert_eq!(ro.record_size, 30);
    assert_eq!(ro.decomp_size, 40);
    assert!(ro.block_offset < ro.decomp_size);

    let start = KeyEntry { offset: 0, text: b"k".to_vec() };
    let ro = record_offset(&infos, &start).unwrap();
    assert_eq!(ro.buf_offset, 0);
    assert_eq!(ro.block_offset, 0);

    let past = KeyEntry { offset: 60, text: b"k".to_vec() };
    assert!(record_offset(&infos, &past).is_none());
}

#[test]
fn block_method_errors() {
    // encryption nibble 5
    let mut b = vec![0u8; 12];
    b[0] = 0x50;
    match decode_block(&b, 12, 4) {
        Err(Error::InvalidEncryptMethod(5)) => {}
        other => panic!("unexpected: {:?}", other),
    }
    // compression nibble 7
    let mut b = vec![0u8; 12];
    b[0] = 0x07;
    match decode_block(&b, 12, 4) {
        Err(Error::InvalidCompressMethod(7)) => {}
        other => panic!("unexpected: {:?}", other),
    }
    // stored block with a matching checksum decodes to its payload
    let payload = [1u8, 2, 3, 4];
    let mut b = vec![0u8; 8];
    b.extend_from_slice(&payload);
    b[4..8].copy_from_slice(&adler(&payload).to_be_bytes());
    assert_eq!(decode_block(&b, 12, 4).unwrap(), payload);
}

#[test]
fn malformed_zlib_stream_is_rejected() {
    // a valid zlib header followed by garbage deflate data, framed as a
    // compressed block whose prefix checksum matches nothing
    let mut b = vec![0u8; 8];
    b[0] = 0x02;
    b.extend_from_slice(&[0x78, 0x01, 0xff, 0xff, 0x00, 0x1f, 0x2e, 0x3d]);
    match decode_block(&b, 16, 64) {
        Err(Error::InvalidData) => {}
        other => panic!("unexpected: {:?}", other),
    }
    // symbol 286 territory: a fixed-Huffman block of junk bits must come
    // back as an error, not abort
    let mut c = vec![0u8; 8];
    c[0] = 0x02;
    c.extend_from_slice(&[0x78, 0x9c, 0x63, 0xff, 0xff, 0xff, 0xff, 0xff, 0xff, 0xff]);
    assert!(decode_block(&c, 18, 64).is_err());
}

#[test]
fn truncated_file_is_invalid_data() {
    let data = vec![0u8, 0, 0, 44, 1, 2];
    match load(data, &Codec::Utf8, false, IdentityKeyMaker, false) {
        Err(Error::InvalidData) => {}
        other => {
            assert!(other.is_err());
        }
    }
}
