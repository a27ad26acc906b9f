use std::borrow::Cow;

use ripemd::Digest;

use mdict::codec::fast_decrypt;
use mdict::lookup::{bisect_blocks, compare_block};
use mdict::mdx::locate_first;
use mdict::keys::{AsciiLowercase, KeyMaker};
use mdict::loader::Loader;
use mdict::{Error, Mdx};

fn adler(data: &[u8]) -> u32 {
    adler32::RollingAdler32::from_buffer(data).hash()
}

fn utf16(s: &str) -> Vec<u8> {
    s.encode_utf16().flat_map(|u| u.to_le_bytes()).collect()
}

fn zlib_stored(data: &[u8]) -> Vec<u8> {
    let len = data.len() as u16;
    let mut out = vec![0x78, 0x01, 0x01];
    out.extend_from_slice(&len.to_le_bytes());
    out.extend_from_slice(&(!len).to_le_bytes());
    out.extend_from_slice(data);
    out.extend_from_slice(&adler(data).to_be_bytes());
    out
}

/// A block with method word `method`, the checksum of `plain` and `body`.
fn block(method: u32, plain: &[u8], body: &[u8]) -> Vec<u8> {
    let mut out = method.to_le_bytes().to_vec();
    out.extend_from_slice(&adler(plain).to_be_bytes());
    out.extend_from_slice(body);
    out
}

fn header(attrs: &str) -> Vec<u8> {
    let blob = utf16(attrs);
    let mut out = (blob.len() as u32).to_be_bytes().to_vec();
    out.extend_from_slice(&blob);
    out.extend_from_slice(&adler(&blob).to_le_bytes());
    out
}

fn ripemd(data: &[u8]) -> Vec<u8> {
    let mut md = ripemd::Ripemd128::default();
    md.update(data);
    md.finalize().to_vec()
}

/// The inverse of the fast unscramble.
fn fast_encrypt(plain: &[u8], key: &[u8]) -> Vec<u8> {
    let mut out = Vec::with_capacity(plain.len());
    let mut prev: u8 = 0x36;
    for (i, p) in plain.iter().enumerate() {
        let t = p ^ prev ^ (i as u8) ^ key[i % key.len()];
        let c = (t >> 4) | (t << 4);
        out.push(c);
        prev = c;
    }
    out
}

struct Entry<'a> {
    key: &'a str,
    record: &'a [u8],
}

/// Key-block entries (V2, UTF-8) with offsets starting at `start`; returns the
/// decoded key block and the record bytes.
fn v2_entries(entries: &[Entry], start: u64) -> (Vec<u8>, Vec<u8>) {
    let mut keys = Vec::new();
    let mut records = Vec::new();
    let mut offset = start;
    for e in entries {
        keys.extend_from_slice(&offset.to_be_bytes());
        keys.extend_from_slice(e.key.as_bytes());
        keys.push(0);
        records.extend_from_slice(e.record);
        offset += e.record.len() as u64;
    }
    (keys, records)
}

/// A V2 UTF-8 MDX file with one key block and one record block.
fn v2_file(entries: &[Entry], encrypted: u8) -> Vec<u8> {
    v2_file_with(entries, encrypted, None)
}

/// As `v2_file`; with `lzo_body`, the key block claims LZO1X compression and
/// carries that body.
fn v2_file_with(entries: &[Entry], encrypted: u8, lzo_body: Option<&[u8]>) -> Vec<u8> {
    let (keys, records) = v2_entries(entries, 0);
    let key_block = match lzo_body {
        None => block(0, &keys, &keys),
        Some(body) => block(1, &keys, body),
    };
    let first = entries[0].key;
    let last = entries[entries.len() - 1].key;
    let mut table = Vec::new();
    table.extend_from_slice(&(entries.len() as u64).to_be_bytes());
    table.extend_from_slice(&(first.len() as u16).to_be_bytes());
    table.extend_from_slice(first.as_bytes());
    table.push(0);
    table.extend_from_slice(&(last.len() as u16).to_be_bytes());
    table.extend_from_slice(last.as_bytes());
    table.push(0);
    table.extend_from_slice(&(key_block.len() as u64).to_be_bytes());
    table.extend_from_slice(&(keys.len() as u64).to_be_bytes());
    let checksum = adler(&table).to_be_bytes();
    let compressed = zlib_stored(&table);
    let body = if encrypted & 2 != 0 {
        let mut material = checksum.to_vec();
        material.extend_from_slice(&0x3695u32.to_le_bytes());
        fast_encrypt(&compressed, &ripemd(&material))
    } else {
        compressed
    };
    let mut info = vec![2, 0, 0, 0];
    info.extend_from_slice(&checksum);
    info.extend_from_slice(&body);

    let mut file = header(&format!(
        "<Dictionary GeneratedByEngineVersion=\"2.0\" RequiredEngineVersion=\"2.0\" Encrypted=\"{}\" Encoding=\"UTF-8\" Title=\"Fruit\"/>\r\n\0",
        encrypted
    ));
    let mut kh = Vec::new();
    for v in [1u64, entries.len() as u64, table.len() as u64, info.len() as u64, key_block.len() as u64] {
        kh.extend_from_slice(&v.to_be_bytes());
    }
    file.extend_from_slice(&kh);
    file.extend_from_slice(&adler(&kh).to_be_bytes());
    file.extend_from_slice(&info);
    file.extend_from_slice(&key_block);
    let record_block = block(0, &records, &records);
    for v in [1u64, entries.len() as u64, 16, record_block.len() as u64] {
        file.extend_from_slice(&v.to_be_bytes());
    }
    file.extend_from_slice(&(record_block.len() as u64).to_be_bytes());
    file.extend_from_slice(&(records.len() as u64).to_be_bytes());
    file.extend_from_slice(&record_block);
    file
}

fn fruit() -> Vec<u8> {
    v2_file(
        &[Entry { key: "apple", record: b"A\0" }, Entry { key: "banana", record: b"B\0" }],
        0,
    )
}

fn open(file: &[u8], resource: bool, cache: bool) -> Result<Mdx, Error> {
    let mut loader = Loader::new(resource, cache);
    let mut pos = 0usize;
    while let Some(n) = loader.wanted() {
        if n > file.len() - pos {
            return Err(Error::InvalidData);
        }
        loader.feed(&file[pos..pos + n], &AsciiLowercase, &Vec::new())?;
        pos += n;
    }
    loader.finish().ok_or(Error::InvalidData)
}

fn fetch(mdx: &mut Mdx, file: &[u8], word: &str, resource: bool) -> Result<Option<Vec<u8>>, Error> {
    let key = AsciiLowercase.make(&Cow::Borrowed(word), resource);
    let loc = match mdx.locate(&key) {
        None => return Ok(None),
        Some(loc) => loc,
    };
    let raw = if mdx.is_cached(&loc) {
        None
    } else {
        let pos = mdx.record_position(&loc).unwrap() as usize;
        Some(file[pos..pos + loc.record.record_size as usize].to_vec())
    };
    mdx.record_payload(&loc, raw.as_deref(), None).map(Some)
}

fn define(mdx: &mut Mdx, file: &[u8], word: &str) -> Result<Option<String>, Error> {
    match fetch(mdx, file, word, false)? {
        None => Ok(None),
        Some(payload) => mdx.definition_text(&payload).map(Some),
    }
}

#[test]
fn v2_single_block_lookups() {
    let file = fruit();
    let mut mdx = open(&file, false, false).unwrap();
    assert_eq!(define(&mut mdx, &file, "apple").unwrap().as_deref(), Some("A"));
    assert_eq!(define(&mut mdx, &file, "banana").unwrap().as_deref(), Some("B"));
    assert_eq!(define(&mut mdx, &file, "cherry").unwrap(), None);
    assert_eq!(mdx.title, "Fruit");
}

#[test]
fn lookup_folds_ascii_case() {
    let file = fruit();
    let mut mdx = open(&file, false, false).unwrap();
    assert_eq!(define(&mut mdx, &file, "APPLE").unwrap().as_deref(), Some("A"));
}

#[test]
fn boundary_queries_resolve() {
    let file = fruit();
    let mut mdx = open(&file, false, false).unwrap();
    assert_eq!(define(&mut mdx, &file, "").unwrap(), None);
    assert_eq!(define(&mut mdx, &file, "aardvark").unwrap(), None);
    assert_eq!(define(&mut mdx, &file, "apricot").unwrap(), None);
    assert_eq!(define(&mut mdx, &file, "zebra").unwrap(), None);
}

#[test]
fn v2_scrambled_key_info() {
    let file = v2_file(
        &[Entry { key: "apple", record: b"A\0" }, Entry { key: "banana", record: b"B\0" }],
        2,
    );
    let mut mdx = open(&file, false, false).unwrap();
    assert_eq!(mdx.encrypted, 2);
    assert_eq!(define(&mut mdx, &file, "apple").unwrap().as_deref(), Some("A"));
    assert_eq!(define(&mut mdx, &file, "banana").unwrap().as_deref(), Some("B"));
    assert_eq!(define(&mut mdx, &file, "cherry").unwrap(), None);
}

#[test]
fn round_trip_payload_spans_to_next_entry() {
    let file = v2_file(
        &[
            Entry { key: "apple", record: b"red\0" },
            Entry { key: "banana", record: b"yellow\0" },
            Entry { key: "cherry", record: b"dark\0" },
        ],
        0,
    );
    let mut mdx = open(&file, false, false).unwrap();
    assert_eq!(fetch(&mut mdx, &file, "apple", false).unwrap().unwrap(), b"red\0".to_vec());
    assert_eq!(fetch(&mut mdx, &file, "banana", false).unwrap().unwrap(), b"yellow\0".to_vec());
    assert_eq!(fetch(&mut mdx, &file, "cherry", false).unwrap().unwrap(), b"dark\0".to_vec());
}

#[test]
fn repeated_lookups_agree_with_and_without_cache() {
    let file = fruit();
    let mut plain = open(&file, false, false).unwrap();
    let mut cached = open(&file, false, true).unwrap();
    let first = fetch(&mut cached, &file, "banana", false).unwrap();
    let second = fetch(&mut cached, &file, "banana", false).unwrap();
    let uncached = fetch(&mut plain, &file, "banana", false).unwrap();
    assert_eq!(first, second);
    assert_eq!(first, uncached);
    assert_eq!(cached.record_cache.len(), 1);
    assert_eq!(plain.record_cache.len(), 0);
    let again = fetch(&mut plain, &file, "banana", false).unwrap();
    assert_eq!(again, uncached);
}

#[test]
fn corrupted_key_info_fails_checksum() {
    let mut file = fruit();
    // The stored zlib data of the key-info table starts after the header,
    // the 44-byte key-block header, the 8-byte info prefix and 5 bytes of
    // zlib and stored-block framing.
    let header_len = 4 + u32::from_be_bytes([file[0], file[1], file[2], file[3]]) as usize + 4;
    let pos = header_len + 44 + 8 + 5 + 3;
    file[pos] ^= 0x01;
    match open(&file, false, false) {
        Err(Error::InvalidCheckSum(section)) => assert_eq!(section, "key-info"),
        other => panic!("unexpected: {:?}", other.err()),
    }
}

#[test]
fn version_three_is_unsupported() {
    let mut file = header("<Dictionary GeneratedByEngineVersion=\"3.0\" Encoding=\"UTF-8\"/>");
    file.extend_from_slice(&[0u8; 44]);
    match open(&file, false, false) {
        Err(Error::UnsupportedVersion(v)) => assert_eq!(v, 3),
        other => panic!("unexpected: {:?}", other.err()),
    }
}

#[test]
fn missing_version_is_reported() {
    let file = header("<Dictionary Encoding=\"UTF-8\"/>");
    assert!(matches!(open(&file, false, false), Err(Error::NoVersion)));
}

#[test]
fn non_digit_version_is_invalid() {
    let file = header("<Dictionary GeneratedByEngineVersion=\"x1\"/>");
    match open(&file, false, false) {
        Err(Error::InvalidVersion(v)) => assert_eq!(v, "x1"),
        other => panic!("unexpected: {:?}", other.err()),
    }
}

#[test]
fn unknown_encoding_is_reported() {
    let file = header("<Dictionary GeneratedByEngineVersion=\"2.0\" Encoding=\"klingon\"/>");
    match open(&file, false, false) {
        Err(Error::InvalidEncoding(label)) => assert_eq!(label, "klingon"),
        other => panic!("unexpected: {:?}", other.err()),
    }
}

#[test]
fn header_checksum_mismatch() {
    let mut file = header("<Dictionary GeneratedByEngineVersion=\"2.0\"/>");
    let n = file.len();
    file[n - 1] ^= 0xff;
    match open(&file, false, false) {
        Err(Error::InvalidCheckSum(section)) => assert_eq!(section, "header"),
        other => panic!("unexpected: {:?}", other.err()),
    }
}

#[test]
fn truncated_file_fails_without_panic() {
    let file = fruit();
    for cut in [0usize, 3, 10, 60, file.len() - 1] {
        let short = &file[..cut];
        let mut loader = Loader::new(false, false);
        let mut pos = 0usize;
        let mut failed = false;
        while let Some(n) = loader.wanted() {
            if n > short.len() - pos {
                failed = true;
                break;
            }
            if loader.feed(&short[pos..pos + n], &AsciiLowercase, &Vec::new()).is_err() {
                failed = true;
                break;
            }
            pos += n;
        }
        // The record blocks are read lazily, so only a cut before the
        // record region stops the loader.
        if cut < file.len() - 20 {
            assert!(failed, "cut at {}", cut);
        }
    }
}

#[test]
fn bad_key_info_magic_is_invalid_data() {
    let mut file = fruit();
    let header_len = 4 + u32::from_be_bytes([file[0], file[1], file[2], file[3]]) as usize + 4;
    file[header_len + 44] = 3;
    assert!(matches!(open(&file, false, false), Err(Error::InvalidData)));
}

/// A V1 file whose second key block holds "mango", whose record lies in the
/// second, zlib-compressed record block.
fn v1_two_blocks() -> Vec<u8> {
    fn keys(entries: &[(u32, &str)]) -> Vec<u8> {
        let mut out = Vec::new();
        for (offset, key) in entries {
            out.extend_from_slice(&offset.to_be_bytes());
            out.extend_from_slice(key.as_bytes());
            out.push(0);
        }
        out
    }
    let k0 = keys(&[(0, "apple"), (2, "banana")]);
    let k1 = keys(&[(4, "cherry"), (6, "mango")]);
    let b0 = block(0, &k0, &k0);
    let b1 = block(0, &k1, &k1);
    let mut table = Vec::new();
    for (n, first, last, raw, dec) in [(2u32, "apple", "banana", &b0, &k0), (2, "cherry", "mango", &b1, &k1)] {
        table.extend_from_slice(&n.to_be_bytes());
        table.push(first.len() as u8);
        table.extend_from_slice(first.as_bytes());
        table.push(last.len() as u8);
        table.extend_from_slice(last.as_bytes());
        table.extend_from_slice(&(raw.len() as u32).to_be_bytes());
        table.extend_from_slice(&(dec.len() as u32).to_be_bytes());
    }
    let r0: &[u8] = b"A\0B\0C\0";
    let r1: &[u8] = b"sweet mango\0";
    let rb0 = block(0, r0, r0);
    let rb1 = block(2, r1, &zlib_stored(r1));
    let mut file = header("<Dictionary GeneratedByEngineVersion=\"1.2\" Encrypted=\"No\" Encoding=\"\"/>");
    for v in [2u32, 4, table.len() as u32, (b0.len() + b1.len()) as u32] {
        file.extend_from_slice(&v.to_be_bytes());
    }
    file.extend_from_slice(&table);
    file.extend_from_slice(&b0);
    file.extend_from_slice(&b1);
    for v in [2u32, 4, 16, (rb0.len() + rb1.len()) as u32] {
        file.extend_from_slice(&v.to_be_bytes());
    }
    for (raw, dec) in [(&rb0, r0), (&rb1, r1)] {
        file.extend_from_slice(&(raw.len() as u32).to_be_bytes());
        file.extend_from_slice(&(dec.len() as u32).to_be_bytes());
    }
    file.extend_from_slice(&rb0);
    file.extend_from_slice(&rb1);
    file
}

#[test]
fn v1_key_in_second_block_reads_second_record_block() {
    let file = v1_two_blocks();
    let mut mdx = open(&file, false, true).unwrap();
    assert_eq!(mdx.key_blocks.len(), 2);
    assert_eq!(mdx.records_info.len(), 2);
    assert_eq!(define(&mut mdx, &file, "mango").unwrap().as_deref(), Some("sweet mango"));
    assert_eq!(define(&mut mdx, &file, "cherry").unwrap().as_deref(), Some("C"));
    assert_eq!(define(&mut mdx, &file, "banana").unwrap().as_deref(), Some("B"));
    assert_eq!(define(&mut mdx, &file, "kiwi").unwrap(), None);
    assert_eq!(mdx.record_cache.len(), 2);
}

#[test]
fn v1_record_offsets_translate() {
    let file = v1_two_blocks();
    let mdx = open(&file, false, false).unwrap();
    let loc = mdx.locate("mango").unwrap();
    assert_eq!(loc.block, 1);
    assert_eq!(loc.entry, 1);
    assert_eq!(loc.record.buf_offset, 14);
    assert_eq!(loc.record.block_offset, 0);
    assert_eq!(loc.record.decomp_size, 12);
    assert_eq!(loc.end, 12);
    let loc = mdx.locate("banana").unwrap();
    assert_eq!(loc.record.buf_offset, 0);
    assert_eq!(loc.record.block_offset, 2);
    assert_eq!(loc.end, 4);
}

/// A V2 MDD with UTF-16LE keys.
fn mdd(entries: &[(&str, &[u8])]) -> Vec<u8> {
    let mut keys = Vec::new();
    let mut records = Vec::new();
    for (key, data) in entries {
        keys.extend_from_slice(&(records.len() as u64).to_be_bytes());
        keys.extend_from_slice(&utf16(key));
        keys.extend_from_slice(&[0, 0]);
        records.extend_from_slice(data);
    }
    let key_block = block(0, &keys, &keys);
    let (first, last) = (entries[0].0, entries[entries.len() - 1].0);
    let mut table = Vec::new();
    table.extend_from_slice(&(entries.len() as u64).to_be_bytes());
    table.extend_from_slice(&(first.encode_utf16().count() as u16).to_be_bytes());
    table.extend_from_slice(&utf16(first));
    table.extend_from_slice(&[0, 0]);
    table.extend_from_slice(&(last.encode_utf16().count() as u16).to_be_bytes());
    table.extend_from_slice(&utf16(last));
    table.extend_from_slice(&[0, 0]);
    table.extend_from_slice(&(key_block.len() as u64).to_be_bytes());
    table.extend_from_slice(&(keys.len() as u64).to_be_bytes());
    let mut info = vec![2, 0, 0, 0];
    info.extend_from_slice(&adler(&table).to_be_bytes());
    info.extend_from_slice(&zlib_stored(&table));
    let mut file = header("<Library_Data GeneratedByEngineVersion=\"2.0\" Encrypted=\"Yes\" Encoding=\"\"/>");
    let mut kh = Vec::new();
    for v in [1u64, entries.len() as u64, table.len() as u64, info.len() as u64, key_block.len() as u64] {
        kh.extend_from_slice(&v.to_be_bytes());
    }
    file.extend_from_slice(&kh);
    file.extend_from_slice(&adler(&kh).to_be_bytes());
    file.extend_from_slice(&info);
    file.extend_from_slice(&key_block);
    let record_block = block(0, &records, &records);
    for v in [1u64, entries.len() as u64, 16, record_block.len() as u64] {
        file.extend_from_slice(&v.to_be_bytes());
    }
    file.extend_from_slice(&(record_block.len() as u64).to_be_bytes());
    file.extend_from_slice(&(records.len() as u64).to_be_bytes());
    file.extend_from_slice(&record_block);
    file
}

#[test]
fn mdd_resource_returns_stored_bytes() {
    let font: &[u8] = &[0x77, 0x4f, 0x46, 0x46, 0, 1, 0, 0];
    let file = mdd(&[("\\a.css", b"body{}"), ("\\font.woff", font), ("\\z.png", &[0x89, 0x50])]);
    let mut mdx = open(&file, true, false).unwrap();
    assert_eq!(mdx.encrypted, 1);
    assert_eq!(fetch(&mut mdx, &file, "\\font.woff", true).unwrap().unwrap(), font.to_vec());
    assert_eq!(fetch(&mut mdx, &file, "\\z.png", true).unwrap().unwrap(), vec![0x89, 0x50]);
    assert_eq!(fetch(&mut mdx, &file, "\\missing.png", true).unwrap(), None);
}

#[test]
fn first_resource_file_wins() {
    let first = mdd(&[("\\font.woff", b"first")]);
    let second = mdd(&[("\\font.woff", b"second")]);
    let other = mdd(&[("\\icon.png", b"icon")]);
    let mut files = vec![
        open(&other, true, false).unwrap(),
        open(&first, true, false).unwrap(),
        open(&second, true, false).unwrap(),
    ];
    let bytes = [other, first, second];
    let (i, loc) = locate_first(&files, "\\font.woff").unwrap();
    assert_eq!(i, 1);
    let pos = files[i].record_position(&loc).unwrap() as usize;
    let raw = bytes[i][pos..pos + loc.record.record_size as usize].to_vec();
    assert_eq!(files[i].record_payload(&loc, Some(&raw), None).unwrap(), b"first".to_vec());
    assert!(locate_first(&files, "\\none.png").is_none());
}

#[test]
fn fast_scramble_round_trip() {
    let key = ripemd(b"key");
    let plain = b"hello, dictionary".to_vec();
    let scrambled = fast_encrypt(&plain, &key);
    assert_ne!(scrambled, plain);
    assert_eq!(fast_decrypt(&scrambled, &key), plain);
}

#[test]
fn fast_scramble_first_byte() {
    // 0x12 swaps to 0x21; 0x21 ^ 0x36 ^ 0 ^ 0x01 = 0x16.
    assert_eq!(fast_decrypt(&[0x12], &[0x01]), vec![0x16]);
}

#[test]
fn well_formed_files_pass_index_checks() {
    let file = fruit();
    assert!(open(&file, false, false).unwrap().check_index());
    let file = v1_two_blocks();
    assert!(open(&file, false, false).unwrap().check_index());
}

#[test]
fn unordered_keys_fail_index_check() {
    let file = v2_file(
        &[Entry { key: "banana", record: b"B\0" }, Entry { key: "apple", record: b"A\0" }],
        0,
    );
    let mdx = open(&file, false, false).unwrap();
    assert!(!mdx.check_index());
}

#[test]
fn lzo_key_block_uses_supplied_output() {
    let entries = [Entry { key: "apple", record: b"A\0" }, Entry { key: "banana", record: b"B\0" }];
    let (keys, _) = v2_entries(&entries, 0);
    let body: &[u8] = b"opaque lzo stream";
    let file = v2_file_with(&entries, 0, Some(body));
    let mut loader = Loader::new(false, false);
    let mut pos = 0usize;
    let mut requested = 0;
    while let Some(n) = loader.wanted() {
        let bytes = &file[pos..pos + n];
        let mut answers = Vec::new();
        if matches!(loader.stage, mdict::loader::Stage::KeyBlocks(_)) {
            for request in loader.lzo_requests(bytes) {
                let (input, size) = request.unwrap();
                assert_eq!(input, body.to_vec());
                assert_eq!(size, keys.len());
                requested += 1;
                answers.push(Some(keys.clone()));
            }
        }
        loader.feed(bytes, &AsciiLowercase, &answers).unwrap();
        pos += n;
    }
    assert_eq!(requested, 1);
    let mut mdx = loader.finish().unwrap();
    assert_eq!(define(&mut mdx, &file, "banana").unwrap().as_deref(), Some("B"));
}

#[test]
fn lzo_key_block_without_output_is_invalid() {
    let entries = [Entry { key: "apple", record: b"A\0" }];
    let file = v2_file_with(&entries, 0, Some(b"opaque"));
    assert!(matches!(open(&file, false, false), Err(Error::InvalidData)));
}

#[test]
fn block_comparison_and_bisection() {
    let file = v1_two_blocks();
    let mdx = open(&file, false, false).unwrap();
    assert_eq!(compare_block(&mdx.key_blocks, 0, b"apricot"), Some(0));
    assert_eq!(compare_block(&mdx.key_blocks, 0, b"cherry"), Some(-1));
    assert_eq!(compare_block(&mdx.key_blocks, 1, b"banana"), Some(1));
    assert_eq!(bisect_blocks(&mdx.key_blocks, b"apricot"), Some(0));
    assert_eq!(bisect_blocks(&mdx.key_blocks, b"kiwi"), Some(1));
    assert_eq!(bisect_blocks(&mdx.key_blocks, b"bz"), None);
    assert_eq!(bisect_blocks(&mdx.key_blocks, b"zebra"), None);
}
