//! The key index and the record-size table: the key-block header, the
//! key-block-info table, the key blocks and the record-block info.
use vstd::prelude::*;
use std::borrow::Cow;
use crate::bytes::{be16, be32, be64, read_be_u16, read_be_u32, read_be_u64};
use crate::codec::{
    adler32, adler32_of, block_outcome, decode_block, fails_as, fast_decrypt, ripemd128,
    ripemd128_of, slice_of, unscrambled, zlib_inflate, zlib_inflated, BlockOutcome,
};
use crate::error::Error;
use crate::header::{Header, Version};
use crate::keys::KeyMaker;
use crate::text::{decode_text, decoded_text, TextEncoding};

verus! {

/// The sizes of one block: on disk and decoded.
pub struct BlockEntryInfo {
    pub compressed_size: u64,
    pub decompressed_size: u64,
}

/// The two sizes that the key-block header gives.
pub struct KeyBlockHeader {
    pub block_info_size: u64,
    pub key_block_size: u64,
}

/// A size field: big-endian, four bytes in V1 and eight in V2.
pub open spec fn size_at(t: Seq<u8>, i: int, v: Version) -> u64 {
    if v is V1 {
        be32(t, i) as u64
    } else {
        be64(t, i) as u64
    }
}

/// Reads a size field of the version's width at byte `i`.
pub fn read_size(t: &[u8], i: usize, v: &Version) -> (r: u64)
    requires
        i + v.spec_width() <= t@.len(),
    ensures
        r == size_at(t@, i as int, *v),
{
    match v {
        Version::V1 => read_be_u32(t, i) as u64,
        Version::V2 => read_be_u64(t, i),
    }
}

/// Bytes of a size field: four in V1, eight in V2.
pub fn width(v: &Version) -> (r: usize)
    ensures
        r == v.spec_width(),
{
    match v {
        Version::V1 => 4,
        Version::V2 => 8,
    }
}

/// Bytes of the key-block header: sixteen in V1, forty and a checksum in V2.
pub open spec fn key_header_len(v: Version) -> nat {
    if v is V1 {
        16
    } else {
        44
    }
}

/// Bytes of the key-block header of a version.
pub fn key_header_size(v: &Version) -> (r: usize)
    ensures
        r == key_header_len(*v),
{
    match v {
        Version::V1 => 16,
        Version::V2 => 44,
    }
}

/// Parses the key-block header; in V2 its forty bytes carry a big-endian
/// Adler-32 after them.
pub fn parse_key_block_header(buf: &[u8], v: &Version) -> (r: Result<KeyBlockHeader, Error>)
    requires
        buf@.len() == key_header_len(*v),
    ensures
        v is V1 ==> r is Ok && r->Ok_0.block_info_size == be32(buf@, 8) && r->Ok_0.key_block_size
            == be32(buf@, 12),
        v is V2 ==> if adler32_of(buf@.subrange(0, 40)) as int == be32(buf@, 40) {
            r is Ok && r->Ok_0.block_info_size == be64(buf@, 24) && r->Ok_0.key_block_size == be64(
                buf@,
                32,
            )
        } else {
            r is Err && r->Err_0.is_checksum("header")
        },
{
    match v {
        Version::V1 => Ok(
            KeyBlockHeader {
                block_info_size: read_be_u32(buf, 8) as u64,
                key_block_size: read_be_u32(buf, 12) as u64,
            },
        ),
        Version::V2 => {
            if adler32(slice_of(buf, 0, 40)) != read_be_u32(buf, 40) {
                return Err(Error::InvalidCheckSum("header"));
            }
            Ok(
                KeyBlockHeader {
                    block_info_size: read_be_u64(buf, 24),
                    key_block_size: read_be_u64(buf, 32),
                },
            )
        },
    }
}

/// Bytes of a length field of a head or tail key: one in V1, two in V2.
pub open spec fn key_len_width(v: Version) -> int {
    if v is V1 {
        1
    } else {
        2
    }
}

/// The length field of a head or tail key.
pub open spec fn key_len_at(t: Seq<u8>, i: int, v: Version) -> int {
    if v is V1 {
        t[i] as int
    } else {
        be16(t, i)
    }
}

/// Bytes of a head or tail key text of `n` units; V2 adds a terminating unit.
pub open spec fn key_text_len(n: int, v: Version, unit: nat) -> int {
    if v is V1 {
        n * unit
    } else {
        (n + 1) * unit
    }
}

/// The records of a key-block-info table from byte `i` on; `None` where the
/// table is truncated.
pub open spec fn info_records(t: Seq<u8>, i: int, v: Version, unit: nat) -> Option<Seq<BlockEntryInfo>>
    decreases t.len() - i,
{
    if i < 0 || i >= t.len() {
        Some(Seq::empty())
    } else {
        let w = v.spec_width() as int;
        let nb = key_len_width(v);
        let p1 = i + w;
        if p1 + nb > t.len() {
            None
        } else {
            let p2 = p1 + nb + key_text_len(key_len_at(t, p1, v), v, unit);
            if p2 + nb > t.len() {
                None
            } else {
                let p3 = p2 + nb + key_text_len(key_len_at(t, p2, v), v, unit);
                if p3 + 2 * w > t.len() {
                    None
                } else {
                    let info = BlockEntryInfo {
                        compressed_size: size_at(t, p3, v),
                        decompressed_size: size_at(t, p3 + w, v),
                    };
                    match info_records(t, p3 + 2 * w, v, unit) {
                        None => None,
                        Some(rest) => Some(seq![info] + rest),
                    }
                }
            }
        }
    }
}

/// `rest` after the records already read.
pub open spec fn prepend(done: Seq<BlockEntryInfo>, rest: Option<Seq<BlockEntryInfo>>) -> Option<Seq<BlockEntryInfo>> {
    match rest {
        None => None,
        Some(r) => Some(done + r),
    }
}

fn key_len(t: &[u8], i: usize, v: &Version) -> (r: usize)
    requires
        i + key_len_width(*v) <= t@.len(),
    ensures
        r == key_len_at(t@, i as int, *v),
        r <= 65535,
{
    match v {
        Version::V1 => t[i] as usize,
        Version::V2 => read_be_u16(t, i) as usize,
    }
}

/// Parses a key-block-info table into the sizes of each key block.
#[verifier::rlimit(40)]
pub fn decode_key_block_infos(t: &[u8], v: &Version, unit: usize) -> (r: Result<Vec<BlockEntryInfo>, Error>)
    requires
        unit == 1 || unit == 2,
    ensures
        match info_records(t@, 0, *v, unit as nat) {
            None => r is Err && r->Err_0 is InvalidData,
            Some(s) => r is Ok && r->Ok_0@ == s,
        },
{
    let n = t.len();
    let w = width(v);
    let nb: usize = match v {
        Version::V1 => 1,
        Version::V2 => 2,
    };
    let extra: usize = match v {
        Version::V1 => 0,
        Version::V2 => 1,
    };
    let mut out: Vec<BlockEntryInfo> = Vec::new();
    let mut i: usize = 0;
    while i < n
        invariant
            n == t@.len(),
            w == v.spec_width(),
            nb == key_len_width(*v),
            extra == (if *v is V1 { 0int } else { 1int }),
            unit == 1 || unit == 2,
            i <= n,
            info_records(t@, 0, *v, unit as nat) == prepend(out@, info_records(t@, i as int, *v, unit as nat)),
        decreases n - i,
    {
        let ghost rec = info_records(t@, i as int, *v, unit as nat);
        if w > n - i || nb > n - i - w {
            assert(rec is None);
            return Err(Error::InvalidData);
        }
        let p1 = i + w;
        let k1 = key_len(t, p1, v) + extra;
        let l1 = if unit == 1 { k1 } else { k1 + k1 };
        proof {
            if unit == 1 {
                assert(key_text_len(key_len_at(t@, p1 as int, *v), *v, 1) == l1);
            } else {
                assert(key_text_len(key_len_at(t@, p1 as int, *v), *v, 2) == l1);
            }
        }
        if l1 > n - p1 - nb || nb > n - p1 - nb - l1 {
            assert(rec is None);
            return Err(Error::InvalidData);
        }
        let p2 = p1 + nb + l1;
        let k2 = key_len(t, p2, v) + extra;
        let l2 = if unit == 1 { k2 } else { k2 + k2 };
        proof {
            if unit == 1 {
                assert(key_text_len(key_len_at(t@, p2 as int, *v), *v, 1) == l2);
            } else {
                assert(key_text_len(key_len_at(t@, p2 as int, *v), *v, 2) == l2);
            }
        }
        if l2 > n - p2 - nb || w > n - p2 - nb - l2 || w > n - p2 - nb - l2 - w {
            assert(rec is None);
            return Err(Error::InvalidData);
        }
        let p3 = p2 + nb + l2;
        let info = BlockEntryInfo {
            compressed_size: read_size(t, p3, v),
            decompressed_size: read_size(t, p3 + w, v),
        };
        let ghost before = out@;
        out.push(info);
        proof {
            assert(out@ =~= before + seq![info]);
            match info_records(t@, p3 + 2 * w, *v, unit as nat) {
                None => {},
                Some(rest) => {
                    assert(before + (seq![info] + rest) =~= out@ + rest);
                },
            }
        }
        i = p3 + 2 * w;
    }
    assert(out@ + Seq::<BlockEntryInfo>::empty() =~= out@);
    Ok(out)
}

/// `r` is the parse of a key-block-info table whose records are `rec`.
pub open spec fn table_result(r: Result<Vec<BlockEntryInfo>, Error>, rec: Option<Seq<BlockEntryInfo>>) -> bool {
    match rec {
        None => r is Err && r->Err_0 is InvalidData,
        Some(s) => r is Ok && r->Ok_0@ == s,
    }
}

/// The key of the key-info scramble: RIPEMD-128 of the stored checksum and
/// the little-endian word 0x3695.
pub open spec fn info_key(buf: Seq<u8>) -> Seq<u8> {
    ripemd128_of(buf.subrange(4, 8) + seq![0x95u8, 0x36u8, 0u8, 0u8])
}

/// The compressed key-info body, unscrambled where the header's `Encrypted`
/// has bit 1 set.
pub open spec fn info_body(buf: Seq<u8>, encrypted: u8) -> Seq<u8> {
    let body = buf.subrange(8, buf.len() as int);
    if (encrypted / 2) % 2 == 1 {
        unscrambled(body, info_key(buf))
    } else {
        body
    }
}

/// A V2 key-info section starts with the bytes 2, 0, 0, 0.
pub open spec fn has_info_magic(buf: Seq<u8>) -> bool {
    buf.len() >= 8 && buf[0] == 2 && buf[1] == 0 && buf[2] == 0 && buf[3] == 0
}

/// What reading the key-block-info section `buf` yields.
pub open spec fn infos_result(r: Result<Vec<BlockEntryInfo>, Error>, buf: Seq<u8>, header: Header) -> bool {
    if header.version is V1 {
        table_result(r, info_records(buf, 0, header.version, header.encoding.spec_unit()))
    } else if !has_info_magic(buf) {
        r is Err && r->Err_0 is InvalidData
    } else {
        match zlib_inflated(info_body(buf, header.encrypted)) {
            None => r is Err && r->Err_0.is_checksum("key-info"),
            Some(t) => if adler32_of(t) as int != be32(buf, 4) {
                r is Err && r->Err_0.is_checksum("key-info")
            } else {
                table_result(r, info_records(t, 0, header.version, header.encoding.spec_unit()))
            },
        }
    }
}

/// Reads the key-block-info section. In V2 it is a magic word, the Adler-32
/// of the table and the zlib-compressed (possibly scrambled) table; a body
/// that does not inflate or does not match the checksum fails the section's
/// checksum.
pub fn read_key_block_infos(buf: &[u8], header: &Header) -> (r: Result<Vec<BlockEntryInfo>, Error>)
    ensures
        infos_result(r, buf@, *header),
{
    let unit = header.encoding.unit();
    match header.version {
        Version::V1 => decode_key_block_infos(buf, &header.version, unit),
        Version::V2 => {
            let n = buf.len();
            if n < 8 || buf[0] != 2 || buf[1] != 0 || buf[2] != 0 || buf[3] != 0 {
                return Err(Error::InvalidData);
            }
            let checksum = read_be_u32(buf, 4);
            let body = slice_of(buf, 8, n);
            let inflated = if (header.encrypted / 2) % 2 == 1 {
                let mut material: Vec<u8> = vstd::slice::slice_to_vec(slice_of(buf, 4, 8));
                material.push(0x95);
                material.push(0x36);
                material.push(0);
                material.push(0);
                proof {
                    assert(material@ =~= buf@.subrange(4, 8) + seq![0x95u8, 0x36u8, 0u8, 0u8]);
                }
                let key = ripemd128(material.as_slice());
                let plain = fast_decrypt(body, key.as_slice());
                zlib_inflate(plain.as_slice())
            } else {
                zlib_inflate(body)
            };
            let table = match inflated {
                None => return Err(Error::InvalidCheckSum("key-info")),
                Some(t) => t,
            };
            if adler32(table.as_slice()) != checksum {
                return Err(Error::InvalidCheckSum("key-info"));
            }
            decode_key_block_infos(table.as_slice(), &header.version, unit)
        },
    }
}

/// The first terminator at or after `j`, stepping by `unit` from `j`: one zero
/// byte for one-byte units, two for two-byte units; -1 where there is none.
pub open spec fn terminator_at(e: Seq<u8>, j: int, unit: nat) -> int
    decreases e.len() - j,
{
    if unit == 0 || j < 0 || j + unit > e.len() {
        -1
    } else if e[j] == 0 && (unit == 1 || e[j + 1] == 0) {
        j
    } else {
        terminator_at(e, j + unit, unit)
    }
}

/// A terminator found lies at or after `j`, with a whole unit inside `e`.
pub proof fn lemma_terminator(e: Seq<u8>, j: int, unit: nat)
    ensures
        terminator_at(e, j, unit) == -1 || (j <= terminator_at(e, j, unit)
            && terminator_at(e, j, unit) + unit <= e.len()),
    decreases e.len() - j,
{
    if !(unit == 0 || j < 0 || j + unit > e.len()) && !(e[j] == 0 && (unit == 1 || e[j + 1] == 0)) {
        lemma_terminator(e, j + unit, unit);
    }
}

/// The entries of a decoded key block from byte `i` on: a size-width offset,
/// then a terminated key text; texts are decoded and normalised.
pub open spec fn block_entries<M: KeyMaker>(
    e: Seq<u8>,
    i: int,
    v: Version,
    enc: TextEncoding,
    km: M,
    resource: bool,
) -> Option<Seq<(u64, Seq<char>)>>
    decreases e.len() - i,
{
    if i < 0 || i >= e.len() {
        Some(Seq::empty())
    } else if i + v.spec_width() > e.len() {
        None
    } else {
        let s = i + v.spec_width();
        let z = terminator_at(e, s, enc.spec_unit());
        proof {
            lemma_terminator(e, s, enc.spec_unit());
        }
        if z < 0 {
            None
        } else {
            let text = km.spec_make(decoded_text(enc.label(), e.subrange(s, z)), resource);
            match block_entries(e, z + enc.spec_unit(), v, enc, km, resource) {
                None => None,
                Some(rest) => Some(seq![(size_at(e, i, v), text)] + rest),
            }
        }
    }
}

/// One key of the index: where its record starts in the concatenated decoded
/// record blocks, and its normalised text.
pub struct KeyEntry {
    pub offset: u64,
    pub text: String,
}

impl View for KeyEntry {
    type V = (u64, Seq<char>);

    open spec fn view(&self) -> (u64, Seq<char>) {
        (self.offset, self.text@)
    }
}

/// A decoded key block.
pub struct KeyBlock {
    pub entries: Vec<KeyEntry>,
}

impl View for KeyBlock {
    type V = Seq<(u64, Seq<char>)>;

    open spec fn view(&self) -> Seq<(u64, Seq<char>)> {
        self.entries@.map_values(|k: KeyEntry| k@)
    }
}

/// `rest` after the entries already read.
pub open spec fn prepend_entries(done: Seq<(u64, Seq<char>)>, rest: Option<Seq<(u64, Seq<char>)>>) -> Option<Seq<(u64, Seq<char>)>> {
    match rest {
        None => None,
        Some(r) => Some(done + r),
    }
}

/// Splits a decoded key block into its entries.
pub fn parse_key_block<M: KeyMaker>(
    e: &[u8],
    v: &Version,
    enc: &TextEncoding,
    key_maker: &M,
    resource: bool,
) -> (r: Result<KeyBlock, Error>)
    requires
        enc.wf(),
    ensures
        match block_entries(e@, 0, *v, *enc, *key_maker, resource) {
            None => r is Err && r->Err_0 is InvalidData,
            Some(s) => r is Ok && r->Ok_0@ == s,
        },
{
    let n = e.len();
    let w = width(v);
    let unit = enc.unit();
    let mut out: Vec<KeyEntry> = Vec::new();
    let mut i: usize = 0;
    while i < n
        invariant
            n == e@.len(),
            w == v.spec_width(),
            unit == enc.spec_unit(),
            enc.wf(),
            i <= n,
            block_entries(e@, 0, *v, *enc, *key_maker, resource) == prepend_entries(
                out@.map_values(|k: KeyEntry| k@),
                block_entries(e@, i as int, *v, *enc, *key_maker, resource),
            ),
        decreases n - i,
    {
        if w > n - i {
            assert(block_entries(e@, i as int, *v, *enc, *key_maker, resource) is None);
            return Err(Error::InvalidData);
        }
        let offset = read_size(e, i, v);
        let s = i + w;
        let mut z: usize = s;
        while z <= n && unit <= n - z && !(e[z] == 0 && (unit == 1 || e[z + 1] == 0))
            invariant
                s <= z,
                n == e@.len(),
                unit == enc.spec_unit(),
                unit == 1 || unit == 2,
                terminator_at(e@, s as int, unit as nat) == terminator_at(e@, z as int, unit as nat),
            decreases n - z,
        {
            z = z + unit;
        }
        if !(z <= n && unit <= n - z) {
            assert(terminator_at(e@, s as int, unit as nat) == -1);
            assert(block_entries(e@, i as int, *v, *enc, *key_maker, resource) is None);
            return Err(Error::InvalidData);
        }
        assert(terminator_at(e@, s as int, unit as nat) == z);
        let decoded = decode_text(enc, slice_of(e, s, z));
        let text = key_maker.make(&Cow::Borrowed(decoded.as_str()), resource);
        let ghost before = out@.map_values(|k: KeyEntry| k@);
        let entry = KeyEntry { offset, text };
        let ghost ev = entry@;
        out.push(entry);
        proof {
            assert(out@.map_values(|k: KeyEntry| k@) =~= before + seq![ev]);
            match block_entries(e@, z + unit, *v, *enc, *key_maker, resource) {
                None => {},
                Some(rest) => {
                    assert(before + (seq![ev] + rest) =~= out@.map_values(|k: KeyEntry| k@) + rest);
                },
            }
        }
        i = z + unit;
    }
    proof {
        let m = out@.map_values(|k: KeyEntry| k@);
        assert(m + Seq::<(u64, Seq<char>)>::empty() =~= m);
    }
    Ok(KeyBlock { entries: out })
}

/// The LZO1X output supplied for block `k`, if any.
pub open spec fn lzo_answer(lzo: Seq<Option<Seq<u8>>>, k: int) -> Option<Seq<u8>> {
    if 0 <= k < lzo.len() {
        lzo[k]
    } else {
        None
    }
}

/// The entries of the key blocks that start at byte `pos` of `data`, block
/// `k` on, with `lzo[k]` the LZO1X output for block `k`; a failure carries
/// the outcome that stopped the decoding.
pub open spec fn key_blocks_from<M: KeyMaker>(
    data: Seq<u8>,
    infos: Seq<BlockEntryInfo>,
    k: int,
    pos: int,
    v: Version,
    enc: TextEncoding,
    km: M,
    resource: bool,
    lzo: Seq<Option<Seq<u8>>>,
) -> Result<Seq<Seq<(u64, Seq<char>)>>, BlockOutcome>
    decreases infos.len() - k,
{
    if k < 0 || k >= infos.len() {
        Ok(Seq::empty())
    } else {
        let info = infos[k];
        match block_outcome(
            data.subrange(pos, data.len() as int),
            info.compressed_size as int,
            info.decompressed_size as int,
            lzo_answer(lzo, k),
        ) {
            BlockOutcome::Decoded(out) => match block_entries(out, 0, v, enc, km, resource) {
                None => Err(BlockOutcome::Malformed),
                Some(es) => match key_blocks_from(
                    data,
                    infos,
                    k + 1,
                    pos + info.compressed_size,
                    v,
                    enc,
                    km,
                    resource,
                    lzo,
                ) {
                    Err(o) => Err(o),
                    Ok(rest) => Ok(seq![es] + rest),
                },
            },
            o => Err(o),
        }
    }
}

/// `r` reports the key blocks `s`, a checksum failure tagged "key-block".
pub open spec fn blocks_result(
    r: Result<Vec<KeyBlock>, Error>,
    s: Result<Seq<Seq<(u64, Seq<char>)>>, BlockOutcome>,
) -> bool {
    match s {
        Ok(bs) => r is Ok && r->Ok_0@.map_values(|b: KeyBlock| b@) == bs,
        Err(o) => r is Err && fails_as(r->Err_0, o, "key-block"),
    }
}

/// `rest` after the blocks already decoded.
pub open spec fn prepend_blocks(
    done: Seq<Seq<(u64, Seq<char>)>>,
    rest: Result<Seq<Seq<(u64, Seq<char>)>>, BlockOutcome>,
) -> Result<Seq<Seq<(u64, Seq<char>)>>, BlockOutcome> {
    match rest {
        Err(o) => Err(o),
        Ok(r) => Ok(done + r),
    }
}

/// The views of supplied LZO1X outputs.
pub open spec fn lzo_view(lzo: Seq<Option<Vec<u8>>>) -> Seq<Option<Seq<u8>>> {
    lzo.map_values(|o: Option<Vec<u8>>| match o {
        Some(v) => Some(v@),
        None => None,
    })
}

/// Decodes the key blocks, one per key-block-info record, in file order;
/// `lzo[k]` is the LZO1X output for block `k` where that block needs one.
pub fn read_key_blocks<M: KeyMaker>(
    data: &[u8],
    infos: &Vec<BlockEntryInfo>,
    header: &Header,
    key_maker: &M,
    resource: bool,
    lzo: &Vec<Option<Vec<u8>>>,
) -> (r: Result<Vec<KeyBlock>, Error>)
    requires
        header.encoding.wf(),
    ensures
        blocks_result(
            r,
            key_blocks_from(
                data@,
                infos@,
                0,
                0,
                header.version,
                header.encoding,
                *key_maker,
                resource,
                lzo_view(lzo@),
            ),
        ),
{
    let n = data.len();
    let mut blocks: Vec<KeyBlock> = Vec::new();
    let mut pos: usize = 0;
    let mut k: usize = 0;
    while k < infos.len()
        invariant
            n == data@.len(),
            pos <= n,
            k <= infos@.len(),
            header.encoding.wf(),
            key_blocks_from(data@, infos@, 0, 0, header.version, header.encoding, *key_maker, resource, lzo_view(lzo@))
                == prepend_blocks(
                blocks@.map_values(|b: KeyBlock| b@),
                key_blocks_from(
                    data@,
                    infos@,
                    k as int,
                    pos as int,
                    header.version,
                    header.encoding,
                    *key_maker,
                    resource,
                    lzo_view(lzo@),
                ),
            ),
        decreases infos@.len() - k,
    {
        let info = &infos[k];
        let raw = slice_of(data, pos, n);
        let answer: Option<&[u8]> = if k < lzo.len() {
            match &lzo[k] {
                Some(v) => Some(v.as_slice()),
                None => None,
            }
        } else {
            None
        };
        assert(match answer { Some(a) => Some(a@), None => None } == lzo_answer(lzo_view(lzo@), k as int));
        let out = match decode_block(raw, info.compressed_size, info.decompressed_size, "key-block", answer) {
            Err(e) => return Err(e),
            Ok(out) => out,
        };
        let block = parse_key_block(out.as_slice(), &header.version, &header.encoding, key_maker, resource)?;
        let ghost before = blocks@.map_values(|b: KeyBlock| b@);
        let ghost bv = block@;
        blocks.push(block);
        proof {
            assert(blocks@.map_values(|b: KeyBlock| b@) =~= before + seq![bv]);
            match key_blocks_from(
                data@,
                infos@,
                k + 1,
                pos + info.compressed_size,
                header.version,
                header.encoding,
                *key_maker,
                resource,
                lzo_view(lzo@),
            ) {
                Err(_) => {},
                Ok(rest) => {
                    assert(before + (seq![bv] + rest) =~= blocks@.map_values(|b: KeyBlock| b@) + rest);
                },
            }
        }
        pos = pos + info.compressed_size as usize;
        k = k + 1;
    }
    proof {
        let m = blocks@.map_values(|b: KeyBlock| b@);
        assert(m + Seq::<Seq<(u64, Seq<char>)>>::empty() =~= m);
    }
    Ok(blocks)
}

/// The (compressed, decompressed) size pairs of the record-block info from
/// byte `i` on.
pub open spec fn record_pairs(t: Seq<u8>, i: int, v: Version) -> Seq<BlockEntryInfo>
    decreases t.len() - i,
{
    let w = v.spec_width() as int;
    if i < 0 || i + 2 * w > t.len() {
        Seq::empty()
    } else {
        seq![BlockEntryInfo { compressed_size: size_at(t, i, v), decompressed_size: size_at(t, i + w, v) }]
            + record_pairs(t, i + 2 * w, v)
    }
}

/// Reads the record-block info table.
pub fn parse_record_infos(t: &[u8], v: &Version) -> (r: Vec<BlockEntryInfo>)
    ensures
        r@ == record_pairs(t@, 0, *v),
{
    let n = t.len();
    let w = width(v);
    let mut out: Vec<BlockEntryInfo> = Vec::new();
    let mut i: usize = 0;
    while i <= n && w <= n - i && w <= n - i - w
        invariant
            n == t@.len(),
            w == v.spec_width(),
            i <= n,
            record_pairs(t@, 0, *v) == out@ + record_pairs(t@, i as int, *v),
        decreases n - i,
    {
        let info = BlockEntryInfo {
            compressed_size: read_size(t, i, v),
            decompressed_size: read_size(t, i + w, v),
        };
        let ghost before = out@;
        out.push(info);
        proof {
            assert(before + (seq![info] + record_pairs(t@, i + 2 * w, *v)) =~= out@ + record_pairs(t@, i + 2 * w, *v));
        }
        i = i + 2 * w;
    }
    assert(out@ + record_pairs(t@, i as int, *v) =~= out@);
    out
}

} // verus!
