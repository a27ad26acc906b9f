use mdict::bytes::{read_be_u16, read_be_u32, read_be_u64, read_le_u32};
use mdict::codec::{decode_block, lzo_request};
use mdict::header::{parse_header, Version};
use mdict::keys::{AsciiLowercase, KeyMaker, Verbatim};
use mdict::mdx::slice_to_string;
use mdict::text::{encoding_for_label, TextEncoding};
use mdict::{Error, MDictBuilder};
use std::borrow::Cow;

use ripemd::Digest;
use salsa20::cipher::StreamCipher;

fn adler(data: &[u8]) -> u32 {
    adler32::RollingAdler32::from_buffer(data).hash()
}

fn utf16(s: &str) -> Vec<u8> {
    s.encode_utf16().flat_map(|u| u.to_le_bytes()).collect()
}

fn block(method: u32, plain: &[u8], body: &[u8]) -> Vec<u8> {
    let mut out = method.to_le_bytes().to_vec();
    out.extend_from_slice(&adler(plain).to_be_bytes());
    out.extend_from_slice(body);
    out
}

#[test]
fn integer_reads() {
    let b = [0x01, 0x02, 0x03, 0x04, 0x05, 0x06, 0x07, 0x08, 0x09];
    assert_eq!(read_be_u16(&b, 1), 0x0203);
    assert_eq!(read_be_u32(&b, 0), 0x01020304);
    assert_eq!(read_le_u32(&b, 0), 0x04030201);
    assert_eq!(read_be_u64(&b, 1), 0x0203040506070809);
}

#[test]
fn block_checksum_is_adler32() {
    let mut raw = 0u32.to_le_bytes().to_vec();
    raw.extend_from_slice(&0x11E60398u32.to_be_bytes());
    raw.extend_from_slice(b"Wikipedia");
    assert_eq!(decode_block(&raw, raw.len() as u64, 9, "key-block", None).unwrap(), b"Wikipedia".to_vec());
}

#[test]
fn zlib_block_inflates() {
    let data = b"abc";
    let mut z = vec![0x78, 0x01, 0x01, 3, 0, 0xfc, 0xff];
    z.extend_from_slice(data);
    z.extend_from_slice(&adler(data).to_be_bytes());
    let raw = block(0x02, data, &z);
    assert_eq!(decode_block(&raw, raw.len() as u64, 3, "record-block", None).unwrap(), b"abc".to_vec());
    z[0] = 0x79;
    let raw = block(0x02, data, &z);
    assert!(matches!(decode_block(&raw, raw.len() as u64, 3, "record-block", None), Err(Error::InvalidData)));
}

#[test]
fn plain_block_decodes() {
    let raw = block(0, b"hello", b"hello");
    assert_eq!(decode_block(&raw, raw.len() as u64, 5, "key-block", None).unwrap(), b"hello".to_vec());
}

#[test]
fn block_checksum_mismatch_names_section() {
    let mut raw = block(0, b"hello", b"hello");
    raw[8] = b'j';
    match decode_block(&raw, raw.len() as u64, 5, "record-block", None) {
        Err(Error::InvalidCheckSum(s)) => assert_eq!(s, "record-block"),
        other => panic!("unexpected: {:?}", other),
    }
}

#[test]
fn unknown_methods_are_reported() {
    let raw = block(0x30, b"x", b"x");
    assert!(matches!(decode_block(&raw, raw.len() as u64, 1, "key-block", None), Err(Error::InvalidEncryptMethod(3))));
    let raw = block(0x03, b"x", b"x");
    assert!(matches!(decode_block(&raw, raw.len() as u64, 1, "key-block", None), Err(Error::InvalidCompressMethod(3))));
}

#[test]
fn short_block_is_invalid_data() {
    assert!(matches!(decode_block(&[0, 0, 0], 3, 0, "key-block", None), Err(Error::InvalidData)));
    let raw = block(0, b"hello", b"hello");
    assert!(matches!(decode_block(&raw, raw.len() as u64 + 1, 5, "key-block", None), Err(Error::InvalidData)));
}

#[test]
fn scrambled_block_decodes() {
    let plain = b"scrambled record".to_vec();
    let checksum = adler(&plain).to_be_bytes();
    let mut md = ripemd::Ripemd128::default();
    md.update(checksum);
    let key = md.finalize().to_vec();
    let mut body = Vec::new();
    let mut prev: u8 = 0x36;
    for (i, p) in plain.iter().enumerate() {
        let t = p ^ prev ^ (i as u8) ^ key[i % 16];
        let c = (t >> 4) | (t << 4);
        body.push(c);
        prev = c;
    }
    let raw = block(0x10, &plain, &body);
    assert_eq!(decode_block(&raw, raw.len() as u64, plain.len() as u64, "record-block", None).unwrap(), plain);
}

#[test]
fn salsa20_block_decodes() {
    let plain = b"a record under salsa20 that spans more than one word".to_vec();
    let checksum = adler(&plain).to_be_bytes();
    let mut md = ripemd::Ripemd128::default();
    md.update(checksum);
    let key = md.finalize().to_vec();
    let k: Vec<u32> = key.chunks(4).map(|c| u32::from_le_bytes([c[0], c[1], c[2], c[3]])).collect();
    let state = [
        0x6170_7865, k[0], k[1], k[2], k[3], 0x3120_646e, 0, 0, 0, 0, 0x7962_2d36, k[0], k[1], k[2], k[3],
        0x6b20_6574,
    ];
    let core = salsa20::SalsaCore::<salsa20::cipher::consts::U10>::from_raw_state(state);
    let mut cipher = salsa20::Salsa20::from_core(core);
    let mut body = plain.clone();
    cipher.apply_keystream(&mut body);
    assert_ne!(body, plain);
    let raw = block(0x20, &plain, &body);
    assert_eq!(decode_block(&raw, raw.len() as u64, plain.len() as u64, "record-block", None).unwrap(), plain);
}

#[test]
fn lzo_block_uses_supplied_output() {
    let plain = b"decompressed".to_vec();
    let raw = block(0x01, &plain, b"\x11compressed");
    let (input, size) = lzo_request(&raw, raw.len() as u64, plain.len() as u64).unwrap();
    assert_eq!(input, b"\x11compressed".to_vec());
    assert_eq!(size, plain.len());
    assert_eq!(decode_block(&raw, raw.len() as u64, plain.len() as u64, "key-block", Some(&plain)).unwrap(), plain);
    assert!(matches!(decode_block(&raw, raw.len() as u64, plain.len() as u64, "key-block", None), Err(Error::InvalidData)));
    let plain_raw = block(0, &plain, &plain);
    assert!(lzo_request(&plain_raw, plain_raw.len() as u64, plain.len() as u64).is_none());
}

#[test]
fn encodings_by_label() {
    assert!(matches!(encoding_for_label(b"utf8"), Some(TextEncoding::Utf8)));
    assert!(matches!(encoding_for_label(b"UTF-16LE"), Some(TextEncoding::Utf16Le)));
    assert!(matches!(encoding_for_label(b"latin2"), Some(TextEncoding::Labelled(_))));
    assert!(encoding_for_label(b"no such encoding").is_none());
}

#[test]
fn definition_text_decodes_under_encoding() {
    let mut w = utf16("無");
    w.extend_from_slice(&[0, 0, 0x41, 0]);
    assert_eq!(slice_to_string(&w, &TextEncoding::Utf16Le).unwrap(), "無");
    let mut u = "將進酒".as_bytes().to_vec();
    u.extend_from_slice(b"\0tail");
    assert_eq!(slice_to_string(&u, &TextEncoding::Utf8).unwrap(), "將進酒");
    let gbk = encoding_for_label(b"gbk").unwrap();
    assert_eq!(slice_to_string(&[0xc4, 0xe3, 0, 0], &gbk).unwrap(), "你");
    assert!(matches!(slice_to_string(b"no end", &TextEncoding::Utf8), Err(Error::InvalidData)));
}

#[test]
fn header_attributes_last_wins() {
    let blob = utf16("<D GeneratedByEngineVersion=\"1.2\" Title=\"one\" Title=\"two\nlines\" Encrypted=\"+2\"/>");
    let h = parse_header(&blob, false).unwrap();
    assert!(matches!(h.version, Version::V1));
    assert_eq!(h.title, "two\nlines");
    assert_eq!(h.encrypted, 2);
    assert!(matches!(h.encoding, TextEncoding::Utf8));
}

#[test]
fn header_encrypted_values() {
    let yes = parse_header(&utf16("<D GeneratedByEngineVersion=\"2.0\" Encrypted=\"Yes\"/>"), false).unwrap();
    assert_eq!(yes.encrypted, 1);
    let big = parse_header(&utf16("<D GeneratedByEngineVersion=\"2.0\" Encrypted=\"300\"/>"), false).unwrap();
    assert_eq!(big.encrypted, 0);
    let none = parse_header(&utf16("<D GeneratedByEngineVersion=\"2.0\"/>"), false).unwrap();
    assert_eq!(none.encrypted, 0);
}

#[test]
fn resource_header_is_utf16() {
    let h = parse_header(&utf16("<L GeneratedByEngineVersion=\"2.0\" Encoding=\"UTF-8\"/>"), true).unwrap();
    assert!(matches!(h.encoding, TextEncoding::Utf16Le));
    assert!(matches!(h.version, Version::V2));
}

#[test]
fn version_zero_is_invalid() {
    assert!(matches!(parse_header(&utf16("<D GeneratedByEngineVersion=\"0.9\"/>"), false), Err(Error::InvalidVersion(_))));
    assert!(matches!(parse_header(&utf16("<D GeneratedByEngineVersion=\"\"/>"), false), Err(Error::InvalidVersion(_))));
    assert!(matches!(parse_header(&utf16("<D GeneratedByEngineVersion=\"7\"/>"), false), Err(Error::UnsupportedVersion(7))));
}

#[test]
fn key_makers() {
    assert_eq!(AsciiLowercase.make(&Cow::Borrowed("ApPle Ü"), false), "apple Ü");
    assert_eq!(Verbatim.make(&Cow::Borrowed("ApPle"), true), "ApPle");
}

#[test]
fn builder_options() {
    let b = MDictBuilder::new("/tmp/d.mdx");
    assert!(!b.caches_definitions());
    assert!(!b.caches_resources());
    let b = b.cache_definition(true).cache_resource(true);
    assert!(b.caches_definitions());
    assert!(b.caches_resources());
    assert_eq!(b.path(), "/tmp/d.mdx");
}

#[test]
fn malformed_deflate_is_invalid_data() {
    // A fixed-Huffman block whose first symbol is the reserved length code 286.
    let body = [0x78, 0x01, 0x1B, 0x03, 0, 0, 0, 0];
    let raw = block(0x02, b"x", &body);
    assert!(matches!(decode_block(&raw, raw.len() as u64, 1, "record-block", None), Err(Error::InvalidData)));
}
