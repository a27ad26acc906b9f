//! An opened dictionary file: its key index, its record-block sizes, and the
//! cache of decoded record blocks.
use vstd::prelude::*;
use std::collections::HashMap;
use crate::codec::{block_outcome, decode_block, fails_as, slice_of, BlockOutcome};
use crate::error::Error;
use crate::index::{terminator_at, BlockEntryInfo, KeyBlock};
use crate::lookup::{
    blocks_filled, csum, has_key, index_of, index_ordered, index_well_formed, key_bytes, lemma_csum_grows,
    locate, locate_post, locates, offsets_ascending, offsets_within, record_block_of,
    record_region_fits, IndexModel, Location, RecordOffset,
};
use crate::text::{decode_text, decoded_text, TextEncoding};

verus! {

broadcast use vstd::std_specs::hash::group_hash_axioms;

/// A loaded MDX or MDD file, ready to answer lookups.
pub struct Mdx {
    pub encoding: TextEncoding,
    pub title: String,
    pub encrypted: u8,
    pub key_blocks: Vec<KeyBlock>,
    pub records_info: Vec<BlockEntryInfo>,
    /// File offset of the first record block.
    pub record_block_offset: u64,
    /// Whether decoded record blocks are kept.
    pub cache_enabled: bool,
    /// Decoded record blocks by their offset in the record region.
    pub record_cache: HashMap<u64, Vec<u8>>,
}

/// The record bytes of a location inside its decoded block; `None` where the
/// block is shorter than the location needs.
pub open spec fn payload_of(block: Seq<u8>, loc: Location) -> Option<Seq<u8>> {
    if loc.record.block_offset <= loc.end && loc.end <= block.len() {
        Some(block.subrange(loc.record.block_offset as int, loc.end as int))
    } else {
        None
    }
}

/// `r` reports the payload `p`.
pub open spec fn reports_payload(r: Result<Vec<u8>, Error>, p: Option<Seq<u8>>) -> bool {
    match p {
        Some(bytes) => r is Ok && r->Ok_0@ == bytes,
        None => r is Err && r->Err_0 is InvalidData,
    }
}

/// What fetching the record of `loc` does, from the cache `c0` to the cache
/// `c1`, given the raw bytes of its block when they were read and the LZO1X
/// output for them where the block needs one.
pub open spec fn payload_post(
    c0: Map<u64, Vec<u8>>,
    c1: Map<u64, Vec<u8>>,
    enabled: bool,
    loc: Location,
    raw: Option<Seq<u8>>,
    lzo: Option<Seq<u8>>,
    r: Result<Vec<u8>, Error>,
) -> bool {
    let b = loc.record.buf_offset;
    if c0.contains_key(b) {
        &&& c1 == c0
        &&& reports_payload(r, payload_of(c0[b]@, loc))
    } else {
        match raw {
            None => c1 == c0 && r is Err && r->Err_0 is InvalidData,
            Some(bytes) => match block_outcome(
                bytes,
                loc.record.record_size as int,
                loc.record.decomp_size as int,
                lzo,
            ) {
                BlockOutcome::Decoded(d) => {
                    &&& reports_payload(r, payload_of(d, loc))
                    &&& if enabled {
                        c1.dom() == c0.dom().insert(b) && c1[b]@ == d && forall|k: u64|
                            #[trigger] c0.contains_key(k) ==> c1[k] == c0[k]
                    } else {
                        c1 == c0
                    }
                },
                o => c1 == c0 && r is Err && fails_as(r->Err_0, o, "record-block"),
            },
        }
    }
}

/// The text of a definition record: what precedes its first terminator (a
/// zero unit of the encoding); `None` where it has none. For two-byte
/// encodings the terminator is taken as two zero bytes at an even offset;
/// whether authoring tools always align it so is an open question, since some
/// files are reported to end the text with a single zero byte before the last
/// unit.
pub open spec fn definition_of(payload: Seq<u8>, enc: TextEncoding) -> Option<Seq<char>> {
    let z = terminator_at(payload, 0, enc.spec_unit());
    if z < 0 {
        None
    } else {
        Some(decoded_text(enc.label(), payload.subrange(0, z)))
    }
}

impl Mdx {
    /// The model of the key index.
    pub open spec fn index(&self) -> IndexModel {
        index_of(self.key_blocks@)
    }

    /// The text encoding is one the registry knows.
    pub open spec fn wf(&self) -> bool {
        self.encoding.wf()
    }

    /// Finds where the record of a normalised key lies.
    pub fn locate(&self, key: &str) -> (r: Option<Location>)
        ensures
            locate_post(self.index(), self.records_info@, key_bytes(key@), r),
    {
        locate(&self.key_blocks, &self.records_info, key.as_bytes())
    }

    /// Whether the index has the properties under which every key it holds
    /// is found (see `lemma_present_key_located`).
    pub fn check_index(&self) -> (r: bool)
        ensures
            r == index_well_formed(self.index(), self.records_info@),
    {
        index_ordered(&self.key_blocks) && blocks_filled(&self.key_blocks) && offsets_ascending(
            &self.key_blocks,
        ) && offsets_within(&self.key_blocks, &self.records_info) && record_region_fits(
            &self.records_info,
        )
    }

    /// Whether the record block of `loc` is in the cache.
    pub fn is_cached(&self, loc: &Location) -> (r: bool)
        ensures
            r == self.record_cache@.contains_key(loc.record.buf_offset),
    {
        self.record_cache.contains_key(&loc.record.buf_offset)
    }

    /// The file offset of the record block of `loc`; `None` where it exceeds
    /// the range of a file offset.
    pub fn record_position(&self, loc: &Location) -> (r: Option<u64>)
        ensures
            r is Some <==> self.record_block_offset + loc.record.buf_offset <= u64::MAX,
            r is Some ==> r->0 == self.record_block_offset + loc.record.buf_offset,
    {
        self.record_block_offset.checked_add(loc.record.buf_offset)
    }

    /// The record bytes of `loc`: from the cache, or else decoded from `raw`,
    /// the `record_size` bytes read at the block's file offset, with `lzo` the
    /// LZO1X output for their `lzo_input` where the block needs one. A decoded
    /// block is kept when caching is enabled.
    pub fn record_payload(&mut self, loc: &Location, raw: Option<&[u8]>, lzo: Option<&[u8]>) -> (r: Result<Vec<u8>, Error>)
        ensures
            payload_post(
                old(self).record_cache@,
                final(self).record_cache@,
                old(self).cache_enabled,
                *loc,
                match raw {
                    Some(b) => Some(b@),
                    None => None,
                },
                match lzo {
                    Some(b) => Some(b@),
                    None => None,
                },
                r,
            ),
            final(self).key_blocks == old(self).key_blocks,
            final(self).records_info == old(self).records_info,
            final(self).encoding == old(self).encoding,
            final(self).record_block_offset == old(self).record_block_offset,
            final(self).cache_enabled == old(self).cache_enabled,
    {
        let b = loc.record.buf_offset;
        match self.record_cache.get(&b) {
            Some(block) => return payload_slice(block.as_slice(), loc),
            None => {},
        }
        let bytes = match raw {
            None => return Err(Error::InvalidData),
            Some(bytes) => bytes,
        };
        let block = decode_block(bytes, loc.record.record_size, loc.record.decomp_size, "record-block", lzo)?;
        let r = payload_slice(block.as_slice(), loc);
        if self.cache_enabled {
            let ghost c0 = self.record_cache@;
            let ghost d = block@;
            self.record_cache.insert(b, block);
            proof {
                assert(self.record_cache@.dom() =~= c0.dom().insert(b));
            }
        }
        r
    }

    /// The definition text of a record of this file.
    pub fn definition_text(&self, payload: &[u8]) -> (r: Result<String, Error>)
        requires
            self.wf(),
        ensures
            match definition_of(payload@, self.encoding) {
                Some(t) => r is Ok && r->Ok_0@ == t,
                None => r is Err && r->Err_0 is InvalidData,
            },
    {
        slice_to_string(payload, &self.encoding)
    }
}

/// The first of `files`, in order, that locates `key`, and where: resource
/// files are searched in order and the first hit wins.
pub fn locate_first(files: &Vec<Mdx>, key: &str) -> (r: Option<(usize, Location)>)
    ensures
        match r {
            Some((i, l)) => {
                &&& i < files@.len()
                &&& locates(files@[i as int].index(), files@[i as int].records_info@, key_bytes(key@), l)
                &&& forall|j: int|
                    0 <= j < i ==> locate_post(
                        #[trigger] files@[j].index(),
                        files@[j].records_info@,
                        key_bytes(key@),
                        None,
                    )
            },
            None => forall|j: int|
                0 <= j < files@.len() ==> locate_post(
                    #[trigger] files@[j].index(),
                    files@[j].records_info@,
                    key_bytes(key@),
                    None,
                ),
        },
{
    let mut i: usize = 0;
    while i < files.len()
        invariant
            i <= files@.len(),
            forall|j: int|
                0 <= j < i ==> locate_post(
                    #[trigger] files@[j].index(),
                    files@[j].records_info@,
                    key_bytes(key@),
                    None,
                ),
        decreases files@.len() - i,
    {
        match files[i].locate(key) {
            Some(l) => {
                return Some((i, l));
            },
            None => {},
        }
        i = i + 1;
    }
    None
}

/// The text of a definition record: decoded up to its first terminator.
pub fn slice_to_string(slice: &[u8], encoding: &TextEncoding) -> (r: Result<String, Error>)
    requires
        encoding.wf(),
    ensures
        match definition_of(slice@, *encoding) {
            Some(t) => r is Ok && r->Ok_0@ == t,
            None => r is Err && r->Err_0 is InvalidData,
        },
{
    let n = slice.len();
    let unit = encoding.unit();
    let mut z: usize = 0;
    while z <= n && unit <= n - z && !(slice[z] == 0 && (unit == 1 || slice[z + 1] == 0))
        invariant
            n == slice@.len(),
            unit == encoding.spec_unit(),
            unit == 1 || unit == 2,
            terminator_at(slice@, 0, unit as nat) == terminator_at(slice@, z as int, unit as nat),
        decreases n - z,
    {
        z = z + unit;
    }
    if !(z <= n && unit <= n - z) {
        return Err(Error::InvalidData);
    }
    Ok(decode_text(encoding, slice_of(slice, 0, z)))
}

fn payload_slice(block: &[u8], loc: &Location) -> (r: Result<Vec<u8>, Error>)
    ensures
        reports_payload(r, payload_of(block@, *loc)),
{
    let n = block.len();
    if loc.record.block_offset <= loc.end && loc.end <= n as u64 {
        Ok(vstd::slice::slice_to_vec(slice_of(block, loc.record.block_offset as usize, loc.end as usize)))
    } else {
        Err(Error::InvalidData)
    }
}

/// A record located in a decoded block of the declared size is returned
/// whole: the bytes from its offset to its end, at least one of them.
pub proof fn lemma_payload_span(d: Seq<u8>, loc: Location)
    requires
        loc.record.block_offset < loc.end <= loc.record.decomp_size,
        d.len() == loc.record.decomp_size,
    ensures
        payload_of(d, loc) == Some(d.subrange(loc.record.block_offset as int, loc.end as int)),
        d.subrange(loc.record.block_offset as int, loc.end as int).len() == loc.end - loc.record.block_offset,
        loc.end - loc.record.block_offset > 0,
{
}

/// A lookup of a key that a well-formed index holds returns that key's whole
/// record: locating finds it, and fetching it from raw bytes that decode to a
/// block of the declared size returns the bytes from the entry's offset to the
/// next entry's offset (or to the end of the record block), at least one.
pub proof fn lemma_present_key_payload(
    idx: IndexModel,
    infos: Seq<BlockEntryInfo>,
    q: Seq<u8>,
    r: Option<Location>,
    loc: Location,
    c0: Map<u64, Vec<u8>>,
    c1: Map<u64, Vec<u8>>,
    enabled: bool,
    raw: Seq<u8>,
    lzo: Option<Seq<u8>>,
    d: Seq<u8>,
    p: Result<Vec<u8>, Error>,
)
    requires
        locate_post(idx, infos, q, r),
        index_well_formed(idx, infos),
        has_key(idx, q),
        r == Some(loc) ==> payload_post(c0, c1, enabled, loc, Some(raw), lzo, p),
        r == Some(loc) ==> !c0.contains_key(loc.record.buf_offset),
        r == Some(loc) ==> block_outcome(raw, loc.record.record_size as int, loc.record.decomp_size as int, lzo)
            == BlockOutcome::Decoded(d),
        r == Some(loc) ==> d.len() == loc.record.decomp_size,
        r is Some ==> r == Some(loc),
    ensures
        r == Some(loc),
        p is Ok,
        p->Ok_0@ == d.subrange(loc.record.block_offset as int, loc.end as int),
        p->Ok_0@.len() == loc.end - loc.record.block_offset > 0,
{
    crate::lookup::lemma_present_key_located(idx, infos, q, r);
    lemma_payload_span(d, loc);
}

/// The raw bytes of a record block in the record region.
pub open spec fn block_bytes(region: Seq<u8>, rec: RecordOffset) -> Seq<u8> {
    region.subrange(rec.buf_offset as int, rec.buf_offset + rec.record_size)
}

/// Every cached block is what decoding some record block of the region
/// yields, cached under that block's offset, where `lzo` gives the LZO1X
/// output for a block's raw bytes.
pub open spec fn cache_faithful(
    cache: Map<u64, Vec<u8>>,
    region: Seq<u8>,
    infos: Seq<BlockEntryInfo>,
    lzo: spec_fn(Seq<u8>) -> Option<Seq<u8>>,
) -> bool {
    forall|b: u64|
        #[trigger] cache.contains_key(b) ==> exists|k: int|
            0 <= k < infos.len() && csum(infos, k) == b && csum(infos, k) + infos[k].compressed_size
                <= region.len() && #[trigger] block_outcome(
                region.subrange(csum(infos, k), csum(infos, k) + infos[k].compressed_size),
                infos[k].compressed_size as int,
                infos[k].decompressed_size as int,
                lzo(region.subrange(csum(infos, k), csum(infos, k) + infos[k].compressed_size)),
            ) == BlockOutcome::Decoded(cache[b]@)
}

/// Every record block occupies at least one byte on disk.
pub open spec fn record_sizes_positive(infos: Seq<BlockEntryInfo>) -> bool {
    forall|k: int| 0 <= k < infos.len() ==> #[trigger] infos[k].compressed_size > 0
}

/// Two fetches agree: both fail, or both return the same bytes.
pub open spec fn same_result(r1: Result<Vec<u8>, Error>, r2: Result<Vec<u8>, Error>) -> bool {
    &&& (r1 is Ok <==> r2 is Ok)
    &&& r1 is Ok ==> r1->Ok_0@ == r2->Ok_0@
}

proof fn lemma_csum_distinct(infos: Seq<BlockEntryInfo>, j: int, k: int)
    requires
        0 <= j < k < infos.len(),
        record_sizes_positive(infos),
    ensures
        csum(infos, j) < csum(infos, k),
{
    lemma_csum_grows(infos, j + 1, k);
}

/// The cache never changes what a lookup returns. Where every cached block
/// was decoded from the record region, fetching a located record with the
/// bytes of its block read from the region (and the LZO1X output that `lzo`
/// gives for them) returns what the same fetch returns with caching disabled
/// and nothing cached; and the cache afterwards still holds only blocks
/// decoded from the region.
pub proof fn lemma_cache_transparent(
    idx: IndexModel,
    infos: Seq<BlockEntryInfo>,
    q: Seq<u8>,
    loc: Location,
    region: Seq<u8>,
    c0: Map<u64, Vec<u8>>,
    c1: Map<u64, Vec<u8>>,
    enabled: bool,
    r: Result<Vec<u8>, Error>,
    c_plain: Map<u64, Vec<u8>>,
    r_plain: Result<Vec<u8>, Error>,
    lzo: spec_fn(Seq<u8>) -> Option<Seq<u8>>,
)
    requires
        locates(idx, infos, q, loc),
        record_sizes_positive(infos),
        cache_faithful(c0, region, infos, lzo),
        loc.record.buf_offset + loc.record.record_size <= region.len(),
        payload_post(c0, c1, enabled, loc, Some(block_bytes(region, loc.record)), lzo(block_bytes(region, loc.record)), r),
        payload_post(
            Map::empty(),
            c_plain,
            false,
            loc,
            Some(block_bytes(region, loc.record)),
            lzo(block_bytes(region, loc.record)),
            r_plain,
        ),
    ensures
        same_result(r, r_plain),
        cache_faithful(c1, region, infos, lzo),
{
    let off = idx[loc.block as int][loc.entry as int].0;
    let k0 = record_block_of(infos, off as int, 0);
    let b = loc.record.buf_offset;
    lemma_csum_grows(infos, 0, k0);
    assert(csum(infos, k0) == b);
    assert(!Map::<u64, Vec<u8>>::empty().contains_key(b));
    if c0.contains_key(b) {
        let k = choose|k: int|
            0 <= k < infos.len() && csum(infos, k) == b && csum(infos, k) + infos[k].compressed_size
                <= region.len() && #[trigger] block_outcome(
                region.subrange(csum(infos, k), csum(infos, k) + infos[k].compressed_size),
                infos[k].compressed_size as int,
                infos[k].decompressed_size as int,
                lzo(region.subrange(csum(infos, k), csum(infos, k) + infos[k].compressed_size)),
            ) == BlockOutcome::Decoded(c0[b]@);
        if k < k0 {
            crate::lookup::lemma_record_block_bounds(infos, off as int, 0);
            lemma_csum_distinct(infos, k, k0);
        } else if k > k0 {
            crate::lookup::lemma_record_block_bounds(infos, off as int, 0);
            lemma_csum_distinct(infos, k0, k);
        }
        assert(k == k0);
        assert(block_bytes(region, loc.record) == region.subrange(csum(infos, k), csum(infos, k) + infos[k].compressed_size));
        assert(block_outcome(
            block_bytes(region, loc.record),
            loc.record.record_size as int,
            loc.record.decomp_size as int,
            lzo(block_bytes(region, loc.record)),
        ) == BlockOutcome::Decoded(c0[b]@));
    } else {
        match block_outcome(
            block_bytes(region, loc.record),
            loc.record.record_size as int,
            loc.record.decomp_size as int,
            lzo(block_bytes(region, loc.record)),
        ) {
            BlockOutcome::Decoded(d) => {
                if enabled {
                    crate::lookup::lemma_record_block_bounds(infos, off as int, 0);
                    assert forall|bb: u64| #[trigger] c1.contains_key(bb) implies exists|k: int|
                        0 <= k < infos.len() && csum(infos, k) == bb && csum(infos, k)
                            + infos[k].compressed_size <= region.len() && #[trigger] block_outcome(
                            region.subrange(csum(infos, k), csum(infos, k) + infos[k].compressed_size),
                            infos[k].compressed_size as int,
                            infos[k].decompressed_size as int,
                            lzo(region.subrange(csum(infos, k), csum(infos, k) + infos[k].compressed_size)),
                        ) == BlockOutcome::Decoded(c1[bb]@) by {
                        if bb == b {
                            assert(block_outcome(
                                region.subrange(csum(infos, k0), csum(infos, k0) + infos[k0].compressed_size),
                                infos[k0].compressed_size as int,
                                infos[k0].decompressed_size as int,
                                lzo(region.subrange(csum(infos, k0), csum(infos, k0) + infos[k0].compressed_size)),
                            ) == BlockOutcome::Decoded(c1[bb]@));
                        } else {
                            assert(c0.contains_key(bb));
                        }
                    }
                }
            },
            _ => {},
        }
    }
}

/// Fetching the same record twice, with the same bytes of its block (and the
/// same LZO1X output) at hand, returns the same result both times.
pub proof fn lemma_fetch_idempotent(
    c0: Map<u64, Vec<u8>>,
    c1: Map<u64, Vec<u8>>,
    c2: Map<u64, Vec<u8>>,
    enabled: bool,
    loc: Location,
    raw: Option<Seq<u8>>,
    lzo: Option<Seq<u8>>,
    r1: Result<Vec<u8>, Error>,
    r2: Result<Vec<u8>, Error>,
)
    requires
        payload_post(c0, c1, enabled, loc, raw, lzo, r1),
        payload_post(c1, c2, enabled, loc, raw, lzo, r2),
    ensures
        same_result(r1, r2),
{
}

} // verus!
