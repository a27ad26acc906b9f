//! Opening a dictionary file, section by section. The loader says how many
//! bytes it wants next and is fed exactly that many; the bytes fed so far are
//! the file's prefix, and once the record-block sizes are read the record
//! region starts where they end.
use vstd::prelude::*;
use std::collections::HashMap;
use crate::bytes::{be32, be64, le32, read_be_u32, read_le_u32};
use crate::codec::{adler32, adler32_of, lzo_input, lzo_request, slice_of};
use crate::lookup::{csum, lemma_csum_grows};
use crate::error::Error;
use crate::header::{header_result, parse_header, Header};
use crate::index::{
    blocks_result, infos_result, key_blocks_from, key_header_len, key_header_size, lzo_view,
    parse_key_block_header, parse_record_infos, read_key_block_infos, read_key_blocks, read_size,
    record_pairs, size_at, width, BlockEntryInfo, KeyBlock,
};
use crate::keys::KeyMaker;
use crate::mdx::Mdx;

verus! {

/// The section that the loader reads next.
pub enum Stage {
    /// The four-byte big-endian length of the header blob.
    HeaderLength,
    /// The header blob of the given length and its little-endian Adler-32.
    Header(u32),
    /// The key-block header.
    KeyHeader,
    /// The key-block-info section of the given size.
    KeyInfo(u64),
    /// The key blocks, of the given total size.
    KeyBlocks(u64),
    /// The four size fields that open the record section.
    RecordHeader,
    /// The given number of record size pairs.
    RecordInfo(u64),
    /// Everything up to the record region is read.
    Done,
}

/// Reads a dictionary file up to its record region.
pub struct Loader {
    pub stage: Stage,
    /// An MDD resource file rather than an MDX definitions file.
    pub resource: bool,
    pub cache: bool,
    pub header: Option<Header>,
    pub key_block_size: u64,
    pub key_infos: Vec<BlockEntryInfo>,
    pub key_blocks: Vec<KeyBlock>,
    pub records_info: Vec<BlockEntryInfo>,
    /// Bytes consumed so far.
    pub consumed: u64,
}

/// The bytes that `stage` asks for, under the header's version.
pub open spec fn stage_len(stage: Stage, header: Option<Header>) -> Option<int> {
    let w = match header {
        Some(h) => h.version.spec_width() as int,
        None => 8,
    };
    match stage {
        Stage::HeaderLength => Some(4),
        Stage::Header(n) => Some(n + 4),
        Stage::KeyHeader => Some(
            match header {
                Some(h) => key_header_len(h.version) as int,
                None => 44,
            },
        ),
        Stage::KeyInfo(n) => Some(n as int),
        Stage::KeyBlocks(n) => Some(n as int),
        Stage::RecordHeader => Some(4 * w),
        Stage::RecordInfo(n) => Some(n * 2 * w),
        Stage::Done => None,
    }
}

/// `r` with its success value replaced by `v`.
pub open spec fn with_ok<T>(r: Result<(), Error>, v: T) -> Result<T, Error> {
    match r {
        Ok(_) => Ok(v),
        Err(e) => Err(e),
    }
}

/// What feeding `bytes` to the loader `l0` does, leaving `l1`; `lzo[k]` is
/// the LZO1X output for key block `k` where that block needs one.
pub open spec fn feed_post<M: KeyMaker>(
    l0: Loader,
    l1: Loader,
    bytes: Seq<u8>,
    km: M,
    lzo: Seq<Option<Seq<u8>>>,
    r: Result<(), Error>,
) -> bool {
    match l0.stage {
        Stage::HeaderLength => r is Ok && l1.stage == Stage::Header(be32(bytes, 0) as u32),
        Stage::Header(n) => {
            let blob = bytes.subrange(0, n as int);
            if adler32_of(blob) as int != le32(bytes, n as int) {
                r is Err && r->Err_0.is_checksum("header")
            } else {
                &&& header_result(with_ok(r, l1.header->0), blob, l0.resource)
                &&& r is Ok ==> l1.stage is KeyHeader
            }
        },
        Stage::KeyHeader => {
            let v = l0.header->0.version;
            if v is V1 {
                &&& r is Ok
                &&& l1.stage == Stage::KeyInfo(be32(bytes, 8) as u64)
                &&& l1.key_block_size == be32(bytes, 12)
            } else if adler32_of(bytes.subrange(0, 40)) as int == be32(bytes, 40) {
                &&& r is Ok
                &&& l1.stage == Stage::KeyInfo(be64(bytes, 24) as u64)
                &&& l1.key_block_size == be64(bytes, 32)
            } else {
                r is Err && r->Err_0.is_checksum("header")
            }
        },
        Stage::KeyInfo(_) => {
            &&& infos_result(with_ok(r, l1.key_infos), bytes, l0.header->0)
            &&& r is Ok ==> l1.stage == Stage::KeyBlocks(l0.key_block_size)
        },
        Stage::KeyBlocks(_) => {
            let h = l0.header->0;
            &&& blocks_result(
                with_ok(r, l1.key_blocks),
                key_blocks_from(bytes, l0.key_infos@, 0, 0, h.version, h.encoding, km, l0.resource, lzo),
            )
            &&& r is Ok ==> l1.stage is RecordHeader
        },
        Stage::RecordHeader => r is Ok && l1.stage == Stage::RecordInfo(size_at(bytes, 0, l0.header->0.version)),
        Stage::RecordInfo(_) => {
            &&& r is Ok
            &&& l1.records_info@ == record_pairs(bytes, 0, l0.header->0.version)
            &&& l1.stage is Done
        },
        Stage::Done => false,
    }
}

impl Loader {
    /// The loader is consistent: after the header a header is known.
    pub open spec fn wf(&self) -> bool {
        &&& (self.stage is HeaderLength || self.stage is Header) <==> self.header is None
        &&& self.header is Some ==> self.header->0.encoding.wf()
    }

    pub fn new(resource: bool, cache: bool) -> (r: Loader)
        ensures
            r.wf(),
            r.stage is HeaderLength,
            r.resource == resource,
            r.cache == cache,
            r.consumed == 0,
    {
        Loader {
            stage: Stage::HeaderLength,
            resource,
            cache,
            header: None,
            key_block_size: 0,
            key_infos: Vec::new(),
            key_blocks: Vec::new(),
            records_info: Vec::new(),
            consumed: 0,
        }
    }

    /// How many bytes to feed next; `None` once the record region is reached,
    /// or where the count exceeds the machine's range.
    pub fn wanted(&self) -> (r: Option<usize>)
        requires
            self.wf(),
        ensures
            match stage_len(self.stage, self.header) {
                None => r is None,
                Some(n) => if n <= usize::MAX {
                    r == Some(n as usize)
                } else {
                    r is None
                },
            },
    {
        let w: u64 = match &self.header {
            Some(h) => width(&h.version) as u64,
            None => 8,
        };
        let n: u64 = match &self.stage {
            Stage::HeaderLength => 4,
            Stage::Header(n) => *n as u64 + 4,
            Stage::KeyHeader => match &self.header {
                Some(h) => key_header_size(&h.version) as u64,
                None => 44,
            },
            Stage::KeyInfo(n) => *n,
            Stage::KeyBlocks(n) => *n,
            Stage::RecordHeader => 4 * w,
            Stage::RecordInfo(n) => match n.checked_mul(2 * w) {
                None => return None,
                Some(m) => {
                    assert(m == *n * 2 * w) by (nonlinear_arith)
                        requires
                            m == *n * (2 * w),
                    ;
                    m
                },
            },
            Stage::Done => return None,
        };
        if n > usize::MAX as u64 {
            return None;
        }
        Some(n as usize)
    }

    /// Consumes the section that `wanted` asked for. For the key blocks,
    /// `lzo[k]` is the LZO1X output for what `lzo_requests` gave for block `k`.
    pub fn feed<M: KeyMaker>(
        &mut self,
        bytes: &[u8],
        key_maker: &M,
        lzo: &Vec<Option<Vec<u8>>>,
    ) -> (r: Result<(), Error>)
        requires
            old(self).wf(),
            stage_len(old(self).stage, old(self).header) == Some(bytes@.len() as int),
            old(self).consumed + bytes@.len() <= u64::MAX,
        ensures
            feed_post(*old(self), *final(self), bytes@, *key_maker, lzo_view(lzo@), r),
            final(self).resource == old(self).resource,
            final(self).cache == old(self).cache,
            r is Ok ==> final(self).wf(),
            r is Ok ==> final(self).consumed == old(self).consumed + bytes@.len(),
            r is Ok && !(old(self).stage is Header) ==> final(self).header == old(self).header,
            r is Ok && !(old(self).stage is KeyBlocks) ==> final(self).key_blocks == old(self).key_blocks,
    {
        let n = bytes.len();
        match self.stage {
            Stage::HeaderLength => {
                self.stage = Stage::Header(read_be_u32(bytes, 0));
            },
            Stage::Header(len) => {
                let len = len as usize;
                let blob = slice_of(bytes, 0, len);
                if adler32(blob) != read_le_u32(bytes, len) {
                    return Err(Error::InvalidCheckSum("header"));
                }
                let header = parse_header(blob, self.resource)?;
                self.header = Some(header);
                self.stage = Stage::KeyHeader;
            },
            Stage::KeyHeader => {
                let kh = match &self.header {
                    Some(h) => parse_key_block_header(bytes, &h.version)?,
                    None => return Err(Error::InvalidData),
                };
                self.key_block_size = kh.key_block_size;
                self.stage = Stage::KeyInfo(kh.block_info_size);
            },
            Stage::KeyInfo(_) => {
                let infos = match &self.header {
                    Some(h) => read_key_block_infos(bytes, h)?,
                    None => return Err(Error::InvalidData),
                };
                self.key_infos = infos;
                self.stage = Stage::KeyBlocks(self.key_block_size);
            },
            Stage::KeyBlocks(_) => {
                let blocks = match &self.header {
                    Some(h) => read_key_blocks(bytes, &self.key_infos, h, key_maker, self.resource, lzo)?,
                    None => return Err(Error::InvalidData),
                };
                self.key_blocks = blocks;
                self.stage = Stage::RecordHeader;
            },
            Stage::RecordHeader => {
                let count = match &self.header {
                    Some(h) => read_size(bytes, 0, &h.version),
                    None => return Err(Error::InvalidData),
                };
                self.stage = Stage::RecordInfo(count);
            },
            Stage::RecordInfo(_) => {
                let infos = match &self.header {
                    Some(h) => parse_record_infos(bytes, &h.version),
                    None => return Err(Error::InvalidData),
                };
                self.records_info = infos;
                self.stage = Stage::Done;
            },
            Stage::Done => {
                return Err(Error::InvalidData);
            },
        }
        self.consumed = self.consumed + n as u64;
        Ok(())
    }

    /// The loaded file, once the record region is reached; its record region
    /// starts at the number of bytes consumed.
    pub fn finish(self) -> (r: Option<Mdx>)
        requires
            self.wf(),
        ensures
            r is Some <==> self.stage is Done,
            r is Some ==> {
                let m = r->0;
                &&& m.wf()
                &&& m.key_blocks == self.key_blocks
                &&& m.records_info == self.records_info
                &&& m.record_block_offset == self.consumed
                &&& m.cache_enabled == self.cache
                &&& m.record_cache@.len() == 0
                &&& m.encoding == self.header->0.encoding
            },
    {
        match self.stage {
            Stage::Done => {},
            _ => return None,
        }
        match self.header {
            Some(h) => Some(
                Mdx {
                    encoding: h.encoding,
                    title: h.title,
                    encrypted: h.encrypted,
                    key_blocks: self.key_blocks,
                    records_info: self.records_info,
                    record_block_offset: self.consumed,
                    cache_enabled: self.cache,
                    record_cache: HashMap::new(),
                },
            ),
            None => None,
        }
    }

    /// For the key blocks `bytes`, the LZO1X input of each block that is
    /// LZO1X-compressed: what the caller decompresses before feeding them.
    /// Block `k` starts after the compressed sizes of the blocks before it.
    pub fn lzo_requests(&self, bytes: &[u8]) -> (r: Vec<Option<(Vec<u8>, usize)>>)
        ensures
            r@.len() == self.key_infos@.len(),
            forall|k: int|
                0 <= k < r@.len() ==> {
                    let start = csum(self.key_infos@, k);
                    let info = self.key_infos@[k];
                    if start <= bytes@.len() {
                        match lzo_input(
                            bytes@.subrange(start, bytes@.len() as int),
                            info.compressed_size as int,
                            info.decompressed_size as int,
                        ) {
                            None => #[trigger] r@[k] is None,
                            Some((body, n)) => r@[k] matches Some((b, m)) && b@ == body && m == n,
                        }
                    } else {
                        r@[k] is None
                    }
                },
    {
        let ghost infos = self.key_infos@;
        let n = bytes.len();
        let mut out: Vec<Option<(Vec<u8>, usize)>> = Vec::new();
        let mut pos: usize = 0;
        let mut inside = true;
        let mut k: usize = 0;
        while k < self.key_infos.len()
            invariant
                n == bytes@.len(),
                infos == self.key_infos@,
                k <= infos.len(),
                out@.len() == k,
                inside ==> pos == csum(infos, k as int) && pos <= n,
                !inside ==> csum(infos, k as int) > n,
                forall|j: int|
                    0 <= j < k ==> {
                        let start = csum(infos, j);
                        let info = infos[j];
                        if start <= n {
                            match lzo_input(
                                bytes@.subrange(start, n as int),
                                info.compressed_size as int,
                                info.decompressed_size as int,
                            ) {
                                None => #[trigger] out@[j] is None,
                                Some((body, m)) => out@[j] matches Some((b, mm)) && b@ == body && mm == m,
                            }
                        } else {
                            out@[j] is None
                        }
                    },
            decreases infos.len() - k,
        {
            let info = &self.key_infos[k];
            if inside {
                out.push(lzo_request(slice_of(bytes, pos, n), info.compressed_size, info.decompressed_size));
                if info.compressed_size <= (n - pos) as u64 {
                    pos = pos + info.compressed_size as usize;
                } else {
                    inside = false;
                }
            } else {
                proof {
                    lemma_csum_grows(infos, k as int, k + 1);
                }
                out.push(None);
            }
            k = k + 1;
        }
        out
    }

    /// Whether the record region is reached.
    pub fn is_done(&self) -> (r: bool)
        ensures
            r == self.stage is Done,
    {
        match self.stage {
            Stage::Done => true,
            _ => false,
        }
    }
}

} // verus!
