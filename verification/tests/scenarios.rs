use ripemd::{Digest, Ripemd128};
use salsa20::cipher::{KeyIvInit, StreamCipher};
use salsa20::Salsa20;

use mdict_reader::cipher::fast_encrypt;
use mdict_reader::dict::{load, lookup_record, Mdx};
use mdict_reader::keys::{IdentityKeyMaker, KeyMaker};
use mdict_reader::text::Codec;
use mdict_reader::{Error, Section};

fn adler(data: &[u8]) -> u32 {
    adler32::RollingAdler32::from_buffer(data).hash()
}

fn utf16le(s: &str) -> Vec<u8> {
    let mut v = Vec::new();
    for u in s.encode_utf16() {
        v.extend_from_slice(&u.to_le_bytes());
    }
    v
}

fn ripemd128(data: &[u8]) -> Vec<u8> {
    let mut md = Ripemd128::new();
    md.update(data);
    md.finalize().to_vec()
}

/// A zlib stream holding one stored (uncompressed) deflate block.
fn zlib_stored(data: &[u8]) -> Vec<u8> {
    assert!(data.len() < 0xffff);
    let mut v = vec![0x78, 0x01, 0x01];
    let len = data.len() as u16;
    v.extend_from_slice(&len.to_le_bytes());
    v.extend_from_slice(&(!len).to_le_bytes());
    v.extend_from_slice(data);
    v.extend_from_slice(&adler(data).to_be_bytes());
    v
}

fn lzo_compress(data: &[u8]) -> Vec<u8> {
    let mut ctx = rust_lzo::LZOContext::new();
    let mut out = vec![0u8; rust_lzo::worst_compress(data.len())];
    let (res, err) = ctx.compress_to_slice(data, &mut out);
    assert!(matches!(err, rust_lzo::LZOError::OK));
    res.to_vec()
}

fn salsa_apply(key16: &[u8], buf: &mut [u8]) {
    let mut key32 = [0u8; 32];
    key32[..16].copy_from_slice(key16);
    key32[16..].copy_from_slice(key16);
    let mut cipher = Salsa20::new(&key32.into(), &[0u8; 8].into());
    cipher.apply_keystream(buf);
}

/// One framed block: method word, checksum bytes, then the payload
/// compressed and encrypted as asked.
fn block(payload: &[u8], compression: u32, encryption: u32) -> Vec<u8> {
    let csum = adler(payload);
    let keysrc = csum.to_be_bytes();
    let mut body = match compression {
        0 => payload.to_vec(),
        1 => lzo_compress(payload),
        2 => zlib_stored(payload),
        _ => panic!(),
    };
    match encryption {
        0 => {}
        1 => {
            body = fast_encrypt(&body, &ripemd128(&keysrc));
        }
        2 => {
            salsa_apply(&ripemd128(&keysrc), &mut body);
        }
        _ => panic!(),
    }
    let enc_word: u32 = compression | (encryption << 4);
    let mut v = enc_word.to_le_bytes().to_vec();
    v.extend_from_slice(&keysrc);
    v.extend_from_slice(&body);
    v
}

fn header_bytes(attrs_text: &str) -> Vec<u8> {
    let info = utf16le(attrs_text);
    let mut v = (info.len() as u32).to_be_bytes().to_vec();
    v.extend_from_slice(&info);
    v.extend_from_slice(&adler(&info).to_le_bytes());
    v
}

/// A version-1 file: UTF-8 keys in one key block, one record block per
/// payload.
fn build_v1(
    attrs: &str,
    keys: &[(&str, u32)],
    payloads: &[&[u8]],
    key_compression: u32,
    record_compression: u32,
) -> Vec<u8> {
    let mut kb_plain = Vec::new();
    for (k, off) in keys {
        kb_plain.extend_from_slice(&off.to_be_bytes());
        kb_plain.extend_from_slice(k.as_bytes());
        kb_plain.push(0);
    }
    let kb = block(&kb_plain, key_compression, 0);
    let first = keys[0].0;
    let last = keys[keys.len() - 1].0;
    let mut info = (keys.len() as u32).to_be_bytes().to_vec();
    info.push(first.len() as u8);
    info.extend_from_slice(first.as_bytes());
    info.push(last.len() as u8);
    info.extend_from_slice(last.as_bytes());
    info.extend_from_slice(&(kb.len() as u32).to_be_bytes());
    info.extend_from_slice(&(kb_plain.len() as u32).to_be_bytes());

    let rblocks: Vec<Vec<u8>> = payloads
        .iter()
        .map(|p| block(p, record_compression, 0))
        .collect();

    let mut f = header_bytes(attrs);
    f.extend_from_slice(&0u32.to_be_bytes());
    f.extend_from_slice(&0u32.to_be_bytes());
    f.extend_from_slice(&(info.len() as u32).to_be_bytes());
    f.extend_from_slice(&(kb.len() as u32).to_be_bytes());
    f.extend_from_slice(&info);
    f.extend_from_slice(&kb);
    f.extend_from_slice(&(rblocks.len() as u32).to_be_bytes());
    f.extend_from_slice(&(keys.len() as u32).to_be_bytes());
    f.extend_from_slice(&0u32.to_be_bytes());
    f.extend_from_slice(&0u32.to_be_bytes());
    for (b, p) in rblocks.iter().zip(payloads.iter()) {
        f.extend_from_slice(&(b.len() as u32).to_be_bytes());
        f.extend_from_slice(&(p.len() as u32).to_be_bytes());
    }
    for b in &rblocks {
        f.extend_from_slice(b);
    }
    f
}

/// A version-2 file; `utf16` picks UTF-16LE keys, and `encrypt_info`
/// fast-ciphers the key-block-info body the way `Encrypted="2"` asks.
fn build_v2(
    attrs: &str,
    keys: &[(&str, u64)],
    payloads: &[&[u8]],
    key_compression: u32,
    record_compression: u32,
    encrypt_info: bool,
    utf16: bool,
) -> Vec<u8> {
    let key_bytes = |k: &str| -> Vec<u8> {
        if utf16 {
            utf16le(k)
        } else {
            k.as_bytes().to_vec()
        }
    };
    let mut kb_plain = Vec::new();
    for (k, off) in keys {
        kb_plain.extend_from_slice(&off.to_be_bytes());
        kb_plain.extend_from_slice(&key_bytes(k));
        if utf16 {
            kb_plain.extend_from_slice(&[0, 0]);
        } else {
            kb_plain.push(0);
        }
    }
    let kb = block(&kb_plain, key_compression, 0);

    // the info table: counts and texts sized for version 2
    let first = keys[0].0;
    let last = keys[keys.len() - 1].0;
    let klen = |k: &str| -> u16 {
        if utf16 {
            k.encode_utf16().count() as u16
        } else {
            k.len() as u16
        }
    };
    let mut table = (keys.len() as u64).to_be_bytes().to_vec();
    table.extend_from_slice(&klen(first).to_be_bytes());
    table.extend_from_slice(&key_bytes(first));
    table.extend_from_slice(if utf16 { &[0, 0][..] } else { &[0][..] });
    table.extend_from_slice(&klen(last).to_be_bytes());
    table.extend_from_slice(&key_bytes(last));
    table.extend_from_slice(if utf16 { &[0, 0][..] } else { &[0][..] });
    table.extend_from_slice(&(kb.len() as u64).to_be_bytes());
    table.extend_from_slice(&(kb_plain.len() as u64).to_be_bytes());

    let table_csum = adler(&table);
    let mut framed = zlib_stored(&table);
    if encrypt_info {
        let mut kd = table_csum.to_be_bytes().to_vec();
        kd.extend_from_slice(&[0x95, 0x36, 0, 0]);
        framed = fast_encrypt(&framed, &ripemd128(&kd));
    }
    let mut info = vec![2, 0, 0, 0];
    info.extend_from_slice(&table_csum.to_be_bytes());
    info.extend_from_slice(&framed);

    let rblocks: Vec<Vec<u8>> = payloads
        .iter()
        .map(|p| block(p, record_compression, 0))
        .collect();

    let mut f = header_bytes(attrs);
    let mut kbh = (1u64).to_be_bytes().to_vec();
    kbh.extend_from_slice(&(keys.len() as u64).to_be_bytes());
    kbh.extend_from_slice(&(kb_plain.len() as u64).to_be_bytes());
    kbh.extend_from_slice(&(info.len() as u64).to_be_bytes());
    kbh.extend_from_slice(&(kb.len() as u64).to_be_bytes());
    f.extend_from_slice(&kbh);
    f.extend_from_slice(&adler(&kbh).to_be_bytes());
    f.extend_from_slice(&info);
    f.extend_from_slice(&kb);
    f.extend_from_slice(&(rblocks.len() as u64).to_be_bytes());
    f.extend_from_slice(&(keys.len() as u64).to_be_bytes());
    f.extend_from_slice(&0u64.to_be_bytes());
    f.extend_from_slice(&0u64.to_be_bytes());
    for (b, p) in rblocks.iter().zip(payloads.iter()) {
        f.extend_from_slice(&(b.len() as u64).to_be_bytes());
        f.extend_from_slice(&(p.len() as u64).to_be_bytes());
    }
    for b in &rblocks {
        f.extend_from_slice(b);
    }
    f
}

fn open(data: Vec<u8>, cache: bool) -> Mdx<IdentityKeyMaker> {
    load(data, &Codec::Utf8, cache, IdentityKeyMaker, false).expect("load")
}

#[test]
fn v1_zlib_records_lookup() {
    let payload: Vec<u8> = (0u8..40).collect();
    let data = build_v1(
        "GeneratedByEngineVersion=\"1.2\" Title=\"Test\" Encoding=\"UTF-8\"",
        &[("apple", 0), ("banana", 20)],
        &[&payload],
        2,
        2,
    );
    let mut mdx = open(data, false);
    let apple = mdx.lookup("apple").unwrap().unwrap();
    assert_eq!(&apple[..20], &payload[..20]);
    assert_eq!(apple, payload);
    let banana = mdx.lookup("banana").unwrap().unwrap();
    assert_eq!(banana, &payload[20..]);
    assert!(mdx.lookup("cherry").unwrap().is_none());
}

#[test]
fn v1_header_fields() {
    let payload: Vec<u8> = (0u8..40).collect();
    let data = build_v1(
        "GeneratedByEngineVersion=\"1.2\" Title=\" My Dict \" Encrypted=\"0\" Encoding=\"UTF-8\"",
        &[("apple", 0)],
        &[&payload],
        2,
        2,
    );
    let mdx = open(data, false);
    assert_eq!(mdx.title().as_str(), "My Dict");
    assert_eq!(mdx.encrypted(), 0);
    assert!(matches!(mdx.encoding(), Codec::Utf8));
}

#[test]
fn cache_transparency() {
    let payload: Vec<u8> = (10u8..50).collect();
    let data = build_v1(
        "GeneratedByEngineVersion=\"1.2\" Title=\"T\" Encoding=\"UTF-8\"",
        &[("apple", 0), ("banana", 20)],
        &[&payload],
        2,
        2,
    );
    let mut with_cache = open(data.clone(), true);
    let mut without = open(data, false);
    for k in ["apple", "banana", "cherry"] {
        let a = with_cache.lookup(k).unwrap();
        let b = without.lookup(k).unwrap();
        assert_eq!(a, b);
    }
    // a second pass hits the cache and must agree byte for byte
    for k in ["apple", "banana"] {
        let a = with_cache.lookup(k).unwrap();
        let b = without.lookup(k).unwrap();
        assert_eq!(a, b);
    }
}

#[test]
fn idempotent_lookup() {
    let payload: Vec<u8> = (0u8..30).collect();
    let data = build_v1(
        "GeneratedByEngineVersion=\"1.2\" Title=\"T\" Encoding=\"UTF-8\"",
        &[("key", 7)],
        &[&payload],
        2,
        0,
    );
    let mut mdx = open(data, true);
    let first = mdx.lookup("key").unwrap();
    let second = mdx.lookup("key").unwrap();
    assert_eq!(first, second);
    assert_eq!(first.unwrap(), &payload[7..]);
}

#[test]
fn v2_encrypted_key_block_info() {
    let payload: Vec<u8> = (0u8..60).collect();
    let data = build_v2(
        "GeneratedByEngineVersion=\"2.0\" Title=\"T\" Encrypted=\"2\" Encoding=\"UTF-8\"",
        &[("alpha", 0), ("omega", 30)],
        &[&payload],
        0,
        2,
        true,
        false,
    );
    let mut mdx = open(data, false);
    let a = mdx.lookup("alpha").unwrap().unwrap();
    assert_eq!(a, payload);
    let o = mdx.lookup("omega").unwrap().unwrap();
    assert_eq!(o, &payload[30..]);
}

#[test]
fn v2_lzo_record_block() {
    let payload: Vec<u8> = (0..4096u32).map(|i| (i * 7 % 251) as u8).collect();
    let data = build_v2(
        "GeneratedByEngineVersion=\"2.0\" Title=\"T\" Encoding=\"UTF-8\"",
        &[("big", 0)],
        &[&payload],
        2,
        1,
        false,
        false,
    );
    let mut mdx = open(data, false);
    let got = mdx.lookup("big").unwrap().unwrap();
    assert_eq!(got.len(), 4096);
    assert_eq!(got, payload);
}

#[test]
fn stream_cipher_record_block() {
    let payload: Vec<u8> = (0u8..50).map(|i| i.wrapping_mul(3)).collect();
    let mut kb_plain = Vec::new();
    kb_plain.extend_from_slice(&0u32.to_be_bytes());
    kb_plain.extend_from_slice(b"word\0");
    let kb = block(&kb_plain, 2, 0);
    let mut info = 1u32.to_be_bytes().to_vec();
    info.push(4);
    info.extend_from_slice(b"word");
    info.push(4);
    info.extend_from_slice(b"word");
    info.extend_from_slice(&(kb.len() as u32).to_be_bytes());
    info.extend_from_slice(&(kb_plain.len() as u32).to_be_bytes());
    let rb = block(&payload, 2, 2);
    let mut f = header_bytes("GeneratedByEngineVersion=\"1.2\" Title=\"T\" Encoding=\"UTF-8\"");
    f.extend_from_slice(&0u32.to_be_bytes());
    f.extend_from_slice(&0u32.to_be_bytes());
    f.extend_from_slice(&(info.len() as u32).to_be_bytes());
    f.extend_from_slice(&(kb.len() as u32).to_be_bytes());
    f.extend_from_slice(&info);
    f.extend_from_slice(&kb);
    f.extend_from_slice(&1u32.to_be_bytes());
    f.extend_from_slice(&1u32.to_be_bytes());
    f.extend_from_slice(&0u32.to_be_bytes());
    f.extend_from_slice(&0u32.to_be_bytes());
    f.extend_from_slice(&(rb.len() as u32).to_be_bytes());
    f.extend_from_slice(&(payload.len() as u32).to_be_bytes());
    f.extend_from_slice(&rb);
    let mut mdx = open(f, false);
    let got = mdx.lookup("word").unwrap().unwrap();
    assert_eq!(got, payload);
}

#[test]
fn key_block_header_checksum_is_checked() {
    let payload: Vec<u8> = (0u8..10).collect();
    let attrs = "GeneratedByEngineVersion=\"2.0\" Title=\"T\" Encoding=\"UTF-8\"";
    let mut data = build_v2(attrs, &[("k", 0)], &[&payload], 2, 2, false, false);
    let hb = header_bytes(attrs).len();
    data[hb + 5] ^= 1;
    match load(data, &Codec::Utf8, false, IdentityKeyMaker, false) {
        Err(Error::InvalidCheckSum(Section::KeyBlockHeader)) => {}
        other => panic!("unexpected: {:?}", other.err()),
    }
}

#[test]
fn offset_past_all_records_is_not_fatal() {
    let payload: Vec<u8> = (0u8..10).collect();
    let data = build_v1(
        "GeneratedByEngineVersion=\"1.2\" Title=\"T\" Encoding=\"UTF-8\"",
        &[("ghost", 99), ("real", 0)],
        &[&payload],
        2,
        2,
    );
    let mut mdx = open(data, false);
    assert!(mdx.lookup("ghost").unwrap().is_none());
    assert_eq!(mdx.lookup("real").unwrap().unwrap(), payload);
}

struct LowerMaker;

impl KeyMaker for LowerMaker {
    fn make_spec(&self, _key: vstd::seq::Seq<char>, _resource: bool) -> vstd::seq::Seq<char> {
        panic!()
    }

    fn make(&self, key: &str, _resource: bool) -> String {
        key.to_lowercase()
    }
}

#[test]
fn utf16le_keys_case_folding() {
    let payload: Vec<u8> = (0u8..40).collect();
    let data = build_v2(
        "GeneratedByEngineVersion=\"2.0\" Title=\"T\" Encoding=\"UTF-16LE\"",
        &[("Apple", 0), ("apple", 20)],
        &[&payload],
        2,
        2,
        false,
        true,
    );
    let mut mdx = load(data, &Codec::Utf8, false, LowerMaker, false).expect("load");
    let got = mdx.lookup("APPLE").unwrap().unwrap();
    // duplicate keys fold to the same text; either record is acceptable
    assert!(got == payload || got == payload[20..].to_vec());
}

#[test]
fn corrupted_checksum_is_terminal_for_that_record_only() {
    let p1: Vec<u8> = (0u8..20).collect();
    let p2: Vec<u8> = (20u8..40).collect();
    let mut p2_flipped = p2.clone();
    p2_flipped[3] ^= 0xff;
    // the second block decompresses cleanly but its payload no longer
    // matches the checksum its prefix carries
    let rb1 = block(&p1, 2, 0);
    let mut rb2 = block(&p2_flipped, 2, 0);
    rb2[4..8].copy_from_slice(&adler(&p2).to_be_bytes());

    let mut kb_plain = Vec::new();
    for (k, off) in [("apple", 0u32), ("banana", 20u32)] {
        kb_plain.extend_from_slice(&off.to_be_bytes());
        kb_plain.extend_from_slice(k.as_bytes());
        kb_plain.push(0);
    }
    let kb = block(&kb_plain, 2, 0);
    let mut info = 2u32.to_be_bytes().to_vec();
    info.push(5);
    info.extend_from_slice(b"apple");
    info.push(6);
    info.extend_from_slice(b"banana");
    info.extend_from_slice(&(kb.len() as u32).to_be_bytes());
    info.extend_from_slice(&(kb_plain.len() as u32).to_be_bytes());
    let mut f = header_bytes("GeneratedByEngineVersion=\"1.2\" Title=\"T\" Encoding=\"UTF-8\"");
    f.extend_from_slice(&0u32.to_be_bytes());
    f.extend_from_slice(&0u32.to_be_bytes());
    f.extend_from_slice(&(info.len() as u32).to_be_bytes());
    f.extend_from_slice(&(kb.len() as u32).to_be_bytes());
    f.extend_from_slice(&info);
    f.extend_from_slice(&kb);
    f.extend_from_slice(&2u32.to_be_bytes());
    f.extend_from_slice(&2u32.to_be_bytes());
    f.extend_from_slice(&0u32.to_be_bytes());
    f.extend_from_slice(&0u32.to_be_bytes());
    for (b, p) in [(&rb1, &p1), (&rb2, &p2)] {
        f.extend_from_slice(&(b.len() as u32).to_be_bytes());
        f.extend_from_slice(&(p.len() as u32).to_be_bytes());
    }
    f.extend_from_slice(&rb1);
    f.extend_from_slice(&rb2);

    let mut mdx = open(f, false);
    match lookup_record(&mut mdx, "banana") {
        Err(Error::InvalidCheckSum(Section::Block)) => {}
        other => panic!("unexpected: {:?}", other),
    }
    let apple = mdx.lookup("apple").unwrap().unwrap();
    assert_eq!(apple, p1);
}
