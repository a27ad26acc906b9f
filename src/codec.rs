//! Decoding of one on-disk block: decryption, decompression and the Adler-32
//! check of the result.
use vstd::prelude::*;
use ripemd::Digest;
use salsa20::cipher::StreamCipher;
use crate::bytes::{be32, le32, read_be_u32, read_le_u32};
use crate::error::Error;

verus! {

/// The two running sums of Adler-32 over `data`: `a` is one plus the sum of
/// the bytes, `b` the sum of the successive values of `a`, both modulo 65521.
pub open spec fn adler32_sums(data: Seq<u8>) -> (int, int)
    decreases data.len(),
{
    if data.len() == 0 {
        (1, 0)
    } else {
        let (a, b) = adler32_sums(data.drop_last());
        let a2 = (a + data.last()) % 65521;
        (a2, (b + a2) % 65521)
    }
}

/// Adler-32 of a byte sequence: `b * 65536 + a` of its two sums.
pub open spec fn adler32_of(data: Seq<u8>) -> u32 {
    let (a, b) = adler32_sums(data);
    (b * 65536 + a) as u32
}

/// RIPEMD-128 digest of a byte sequence.
pub uninterp spec fn ripemd128_of(data: Seq<u8>) -> Seq<u8>;

/// The bytes that result from XOR-ing `data` with the Salsa20/20 keystream
/// that starts from the given sixteen-word state.
pub uninterp spec fn salsa20_applied(state: Seq<u32>, data: Seq<u8>) -> Seq<u8>;

/// zlib (RFC 1950) decompression of `data`; `None` where the stream is invalid.
pub uninterp spec fn zlib_inflated(data: Seq<u8>) -> Option<Seq<u8>>;

/// Relies on adler32::RollingAdler32::from_buffer and its `hash`: the Adler-32
/// (RFC 1950) of the whole buffer.
#[verifier::external_body]
pub(crate) fn adler32(data: &[u8]) -> (r: u32)
    ensures
        r == adler32_of(data@),
{
    adler32::RollingAdler32::from_buffer(data).hash()
}

/// Relies on ripemd::Ripemd128 (through digest's `update` and `finalize`): the
/// sixteen-byte digest of the input.
#[verifier::external_body]
pub(crate) fn ripemd128(data: &[u8]) -> (r: Vec<u8>)
    ensures
        r@ == ripemd128_of(data@),
        r@.len() == 16,
{
    let mut md = ripemd::Ripemd128::default();
    md.update(data);
    md.finalize().to_vec()
}

/// Relies on salsa20::SalsaCore::from_raw_state and StreamCipher::apply_keystream
/// of salsa20::Salsa20: the data XOR-ed with the keystream of that state. The
/// block counter (words 8 and 9) starts at zero, so the keystream cannot run
/// out, which would panic.
#[verifier::external_body]
fn salsa20_apply(state: &[u32; 16], data: &[u8]) -> (r: Vec<u8>)
    requires
        state@[8] == 0,
        state@[9] == 0,
    ensures
        r@ == salsa20_applied(state@, data@),
        r@.len() == data@.len(),
{
    let core = salsa20::SalsaCore::<salsa20::cipher::consts::U10>::from_raw_state(*state);
    let mut cipher = salsa20::Salsa20::from_core(core);
    let mut out = data.to_vec();
    cipher.apply_keystream(&mut out);
    out
}

/// Relies on miniz_oxide::inflate::decompress_to_vec_zlib: the inflated bytes,
/// or `None` where it reports the stream invalid (its header, its deflate data
/// or its trailing Adler-32). It reports malformed input as an error and does
/// not panic on it.
#[verifier::external_body]
pub(crate) fn zlib_inflate(data: &[u8]) -> (r: Option<Vec<u8>>)
    ensures
        match r {
            Some(v) => zlib_inflated(data@) == Some(v@),
            None => zlib_inflated(data@) is None,
        },
{
    miniz_oxide::inflate::decompress_to_vec_zlib(data).ok()
}

/// The byte with its two nibbles exchanged.
pub open spec fn swap_nibbles(b: u8) -> u8 {
    (b / 16 + (b % 16) * 16) as u8
}

/// Byte `i` of the fast unscramble of `data` under `key`.
pub open spec fn unscramble_at(data: Seq<u8>, key: Seq<u8>, i: int) -> u8 {
    let prev: u8 = if i == 0 {
        0x36u8
    } else {
        data[i - 1]
    };
    swap_nibbles(data[i]) ^ prev ^ ((i % 256) as u8) ^ key[i % (key.len() as int)]
}

/// The fast unscramble: each byte has its nibbles swapped and is XOR-ed with
/// the previous input byte (0x36 before the first), its index modulo 256 and
/// the key byte at its index modulo the key length.
pub open spec fn unscrambled(data: Seq<u8>, key: Seq<u8>) -> Seq<u8> {
    Seq::new(data.len(), |i: int| unscramble_at(data, key, i))
}

/// Undoes the fast scramble of `encrypted` under `key`.
pub fn fast_decrypt(encrypted: &[u8], key: &[u8]) -> (r: Vec<u8>)
    requires
        key@.len() > 0,
    ensures
        r@ == unscrambled(encrypted@, key@),
{
    let n = encrypted.len();
    let mut out: Vec<u8> = Vec::with_capacity(n);
    let mut prev: u8 = 0x36;
    let mut i: usize = 0;
    while i < n
        invariant
            n == encrypted@.len(),
            key@.len() > 0,
            i <= n,
            out@.len() == i,
            prev == (if i == 0 {
                0x36u8
            } else {
                encrypted@[i - 1]
            }),
            forall|j: int| 0 <= j < i ==> out@[j] == unscramble_at(encrypted@, key@, j),
        decreases n - i,
    {
        let b = encrypted[i];
        let t: u8 = b / 16 + (b % 16) * 16;
        let v: u8 = t ^ prev ^ ((i % 256) as u8) ^ key[i % key.len()];
        out.push(v);
        prev = b;
        i = i + 1;
    }
    assert(out@ =~= unscrambled(encrypted@, key@));
    out
}

/// Salsa20 state for a sixteen-byte key and an all-zero nonce: the
/// "expand 16-byte k" constants with the key in both key positions.
pub open spec fn salsa_state_words(key: Seq<u8>) -> Seq<u32> {
    let k0 = le32(key, 0) as u32;
    let k1 = le32(key, 4) as u32;
    let k2 = le32(key, 8) as u32;
    let k3 = le32(key, 12) as u32;
    seq![
        0x6170_7865u32, k0, k1, k2, k3, 0x3120_646eu32, 0u32, 0u32, 0u32, 0u32,
        0x7962_2d36u32, k0, k1, k2, k3, 0x6b20_6574u32,
    ]
}

fn salsa_state(key: &[u8]) -> (r: [u32; 16])
    requires
        key@.len() == 16,
    ensures
        r@ == salsa_state_words(key@),
{
    let k0 = read_le_u32(key, 0);
    let k1 = read_le_u32(key, 4);
    let k2 = read_le_u32(key, 8);
    let k3 = read_le_u32(key, 12);
    let r: [u32; 16] = [
        0x6170_7865u32, k0, k1, k2, k3, 0x3120_646eu32, 0, 0, 0, 0, 0x7962_2d36u32, k0, k1, k2,
        k3, 0x6b20_6574u32,
    ];
    assert(r@ =~= salsa_state_words(key@));
    r
}

/// What decoding one block yields.
pub enum BlockOutcome {
    Decoded(Seq<u8>),
    Malformed,
    UnknownEncryption(u32),
    UnknownCompression(u32),
    ChecksumMismatch,
}

/// The encryption method of a block header word.
pub open spec fn encryption_method(enc: int) -> int {
    (enc / 16) % 16
}

/// The compression method of a block header word.
pub open spec fn compression_method(enc: int) -> int {
    enc % 16
}

/// The block body after decryption under `method` (0, 1 or 2).
pub open spec fn decrypted_body(raw: Seq<u8>, comp: int, method: int) -> Seq<u8> {
    let body = raw.subrange(8, comp);
    let key = ripemd128_of(raw.subrange(4, 8));
    if method == 0 {
        body
    } else if method == 1 {
        unscrambled(body, key)
    } else {
        salsa20_applied(salsa_state_words(key), body)
    }
}

/// The decompressed body under `method` (0, 1 or 2); `None` where it fails.
/// LZO1X output is not computed here: `lzo` is what the caller's LZO1X
/// decompressor gave for the body.
pub open spec fn decompressed_body(plain: Seq<u8>, method: int, lzo: Option<Seq<u8>>) -> Option<Seq<u8>> {
    if method == 0 {
        Some(plain)
    } else if method == 1 {
        lzo
    } else {
        zlib_inflated(plain)
    }
}

/// The outcome of decoding `raw` as a block of `comp` bytes on disk that
/// decompresses to `decomp` bytes, given the LZO1X output `lzo` for its body
/// where it is LZO1X-compressed.
#[verifier::opaque]
pub open spec fn block_outcome(raw: Seq<u8>, comp: int, decomp: int, lzo: Option<Seq<u8>>) -> BlockOutcome {
    if raw.len() < 8 || comp < 8 || comp > raw.len() {
        BlockOutcome::Malformed
    } else {
        let enc = le32(raw, 0);
        let em = encryption_method(enc);
        let cm = compression_method(enc);
        if em > 2 {
            BlockOutcome::UnknownEncryption(em as u32)
        } else if cm > 2 {
            BlockOutcome::UnknownCompression(cm as u32)
        } else {
            match decompressed_body(decrypted_body(raw, comp, em), cm, lzo) {
                None => BlockOutcome::Malformed,
                Some(out) => if adler32_of(out) as int == be32(raw, 4) {
                    BlockOutcome::Decoded(out)
                } else {
                    BlockOutcome::ChecksumMismatch
                },
            }
        }
    }
}

/// `e` is the error that reports the failed outcome `o`, a checksum failure
/// tagged `section`.
pub open spec fn fails_as(e: Error, o: BlockOutcome, section: &'static str) -> bool {
    match o {
        BlockOutcome::Decoded(_) => false,
        BlockOutcome::Malformed => e is InvalidData,
        BlockOutcome::UnknownEncryption(m) => e is InvalidEncryptMethod && e->InvalidEncryptMethod_0 == m,
        BlockOutcome::UnknownCompression(m) => e is InvalidCompressMethod && e->InvalidCompressMethod_0
            == m,
        BlockOutcome::ChecksumMismatch => e.is_checksum(section),
    }
}

/// `r` reports `o`, with checksum failures tagged `section`.
pub open spec fn reports_outcome(
    r: Result<Vec<u8>, Error>,
    o: BlockOutcome,
    section: &'static str,
) -> bool {
    match o {
        BlockOutcome::Decoded(out) => r is Ok && r->Ok_0@ == out,
        _ => r is Err && fails_as(r->Err_0, o, section),
    }
}

/// The body of an LZO1X-compressed block after decryption, and the size it
/// decompresses to: what a caller hands to its LZO1X decompressor before
/// decoding the block. `None` for a block that is not LZO1X-compressed or
/// whose header is unusable.
pub open spec fn lzo_input(raw: Seq<u8>, comp: int, decomp: int) -> Option<(Seq<u8>, int)> {
    if raw.len() < 8 || comp < 8 || comp > raw.len() {
        None
    } else {
        let enc = le32(raw, 0);
        let em = encryption_method(enc);
        if em > 2 || compression_method(enc) != 1 || decomp > usize::MAX {
            None
        } else {
            Some((decrypted_body(raw, comp, em), decomp))
        }
    }
}

/// The LZO1X input of a block, if it is LZO1X-compressed.
pub fn lzo_request(raw: &[u8], compressed_size: u64, decompressed_size: u64) -> (r: Option<(Vec<u8>, usize)>)
    ensures
        match lzo_input(raw@, compressed_size as int, decompressed_size as int) {
            None => r is None,
            Some((body, n)) => r matches Some((b, m)) && b@ == body && m == n,
        },
{
    let n = raw.len();
    if n < 8 || compressed_size < 8 || compressed_size > n as u64 {
        return None;
    }
    let enc = read_le_u32(raw, 0);
    let em = (enc / 16) % 16;
    if em > 2 || enc % 16 != 1 || decompressed_size > usize::MAX as u64 {
        return None;
    }
    Some((decrypt_body(raw, compressed_size as usize, em), decompressed_size as usize))
}

/// The block body `raw[8..comp]` decrypted under `method` (0, 1 or 2).
fn decrypt_body(raw: &[u8], comp: usize, method: u32) -> (r: Vec<u8>)
    requires
        8 <= comp <= raw@.len(),
        method <= 2,
    ensures
        r@ == decrypted_body(raw@, comp as int, method as int),
{
    let body = slice_of(raw, 8, comp);
    if method == 0 {
        vstd::slice::slice_to_vec(body)
    } else {
        let key = ripemd128(slice_of(raw, 4, 8));
        if method == 1 {
            fast_decrypt(body, key.as_slice())
        } else {
            let state = salsa_state(key.as_slice());
            salsa20_apply(&state, body)
        }
    }
}

/// Decodes one block: `raw[0..4]` is the little-endian method word,
/// `raw[4..8]` the big-endian Adler-32 of the result, `raw[8..compressed_size]`
/// the body. For an LZO1X-compressed block, `lzo` is the output of LZO1X
/// decompression of its `lzo_input`; without it the block is invalid.
pub fn decode_block(
    raw: &[u8],
    compressed_size: u64,
    decompressed_size: u64,
    section: &'static str,
    lzo: Option<&[u8]>,
) -> (r: Result<Vec<u8>, Error>)
    ensures
        reports_outcome(
            r,
            block_outcome(
                raw@,
                compressed_size as int,
                decompressed_size as int,
                match lzo {
                    Some(l) => Some(l@),
                    None => None,
                },
            ),
            section,
        ),
        r is Ok ==> adler32_of(r->Ok_0@) as int == be32(raw@, 4),
        r is Ok ==> 8 <= compressed_size <= raw@.len(),
{
    reveal(block_outcome);
    let n = raw.len();
    if n < 8 || compressed_size < 8 || compressed_size > n as u64 {
        return Err(Error::InvalidData);
    }
    let comp = compressed_size as usize;
    let enc = read_le_u32(raw, 0);
    let checksum = read_be_u32(raw, 4);
    let em = (enc / 16) % 16;
    let cm = enc % 16;
    if em > 2 {
        return Err(Error::InvalidEncryptMethod(em));
    }
    if cm > 2 {
        return Err(Error::InvalidCompressMethod(cm));
    }
    let plain = decrypt_body(raw, comp, em);
    let out: Vec<u8> = if cm == 0 {
        plain
    } else if cm == 1 {
        match lzo {
            Some(v) => vstd::slice::slice_to_vec(v),
            None => return Err(Error::InvalidData),
        }
    } else {
        match zlib_inflate(plain.as_slice()) {
            Some(v) => v,
            None => return Err(Error::InvalidData),
        }
    };
    if adler32(out.as_slice()) != checksum {
        return Err(Error::InvalidCheckSum(section));
    }
    Ok(out)
}

/// `s[start..end]`.
pub fn slice_of<T>(s: &[T], start: usize, end: usize) -> (r: &[T])
    requires
        start <= end <= s@.len(),
    ensures
        r@ == s@.subrange(start as int, end as int),
{
    &s[start..end]
}

} // verus!
