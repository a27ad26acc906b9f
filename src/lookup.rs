//! The lookup engine: bisection over the key blocks and their entries, the
//! translation of an entry offset into a record block, and the record bytes
//! of an entry.
use vstd::prelude::*;
use vstd::utf8::encode_utf8;
use crate::index::{BlockEntryInfo, KeyBlock, KeyEntry};

verus! {

/// Lexicographic comparison of byte strings: -1, 0 or 1.
pub open spec fn lex_cmp(a: Seq<u8>, b: Seq<u8>) -> int
    decreases a.len(),
{
    if a.len() == 0 {
        if b.len() == 0 {
            0
        } else {
            -1
        }
    } else if b.len() == 0 {
        1
    } else if a[0] < b[0] {
        -1
    } else if a[0] > b[0] {
        1
    } else {
        lex_cmp(a.drop_first(), b.drop_first())
    }
}

/// Comparison is antisymmetric, three-valued, and zero exactly on equal strings.
pub proof fn lemma_lex_cmp(a: Seq<u8>, b: Seq<u8>)
    ensures
        lex_cmp(a, b) == -lex_cmp(b, a),
        -1 <= lex_cmp(a, b) <= 1,
        lex_cmp(a, b) == 0 <==> a == b,
    decreases a.len(),
{
    if a.len() > 0 && b.len() > 0 && a[0] == b[0] {
        lemma_lex_cmp(a.drop_first(), b.drop_first());
        if a.drop_first() == b.drop_first() {
            assert(a =~= seq![a[0]] + a.drop_first());
            assert(b =~= seq![b[0]] + b.drop_first());
        }
    }
    if a.len() == 0 && b.len() == 0 {
        assert(a =~= b);
    }
}

/// Compares two byte strings.
pub fn compare(a: &[u8], b: &[u8]) -> (r: i8)
    ensures
        r == lex_cmp(a@, b@),
{
    let mut i: usize = 0;
    assert(a@.subrange(0, a@.len() as int) =~= a@);
    assert(b@.subrange(0, b@.len() as int) =~= b@);
    while i < a.len() && i < b.len() && a[i] == b[i]
        invariant
            i <= a@.len(),
            i <= b@.len(),
            lex_cmp(a@, b@) == lex_cmp(a@.subrange(i as int, a@.len() as int), b@.subrange(i as int, b@.len() as int)),
        decreases a@.len() - i,
    {
        proof {
            let sa = a@.subrange(i as int, a@.len() as int);
            let sb = b@.subrange(i as int, b@.len() as int);
            assert(sa.drop_first() =~= a@.subrange(i + 1, a@.len() as int));
            assert(sb.drop_first() =~= b@.subrange(i + 1, b@.len() as int));
        }
        i = i + 1;
    }
    let ghost sa = a@.subrange(i as int, a@.len() as int);
    let ghost sb = b@.subrange(i as int, b@.len() as int);
    if i == a.len() {
        if i == b.len() {
            0
        } else {
            -1
        }
    } else if i == b.len() {
        1
    } else if a[i] < b[i] {
        assert(sa[0] == a@[i as int] && sb[0] == b@[i as int]);
        -1
    } else {
        assert(sa[0] == a@[i as int] && sb[0] == b@[i as int]);
        1
    }
}

/// The bytes by which a key text is ordered: its UTF-8 encoding.
pub open spec fn key_bytes(t: Seq<char>) -> Seq<u8> {
    encode_utf8(t)
}

/// The model of the key index: per block, its (offset, text) entries.
pub type IndexModel = Seq<Seq<(u64, Seq<char>)>>;

/// (b, e) names an entry of the index.
pub open spec fn valid_entry(idx: IndexModel, b: int, e: int) -> bool {
    0 <= b < idx.len() && 0 <= e < idx[b].len()
}

/// The ordering bytes of entry (b, e).
pub open spec fn entry_key(idx: IndexModel, b: int, e: int) -> Seq<u8> {
    key_bytes(idx[b][e].1)
}

/// Entry (b1, e1) comes at or before entry (b2, e2) in file order.
pub open spec fn not_after(b1: int, e1: int, b2: int, e2: int) -> bool {
    b1 < b2 || (b1 == b2 && e1 <= e2)
}

/// Keys never decrease across the concatenation of all blocks.
pub open spec fn index_sorted(idx: IndexModel) -> bool {
    forall|b1: int, e1: int, b2: int, e2: int|
        valid_entry(idx, b1, e1) && valid_entry(idx, b2, e2) && not_after(b1, e1, b2, e2) ==> lex_cmp(
            #[trigger] entry_key(idx, b1, e1),
            #[trigger] entry_key(idx, b2, e2),
        ) <= 0
}

/// Every key block holds at least one entry.
pub open spec fn blocks_nonempty(idx: IndexModel) -> bool {
    forall|b: int| 0 <= b < idx.len() ==> #[trigger] idx[b].len() > 0
}

/// Some entry of the index has the key `q`.
pub open spec fn has_key(idx: IndexModel, q: Seq<u8>) -> bool {
    exists|b: int, e: int| valid_entry(idx, b, e) && #[trigger] entry_key(idx, b, e) == q
}

/// Block `b` holds an entry with the key `q`.
pub open spec fn block_has_key(idx: IndexModel, b: int, q: Seq<u8>) -> bool {
    exists|e: int| valid_entry(idx, b, e) && #[trigger] entry_key(idx, b, e) == q
}

/// The index model of decoded key blocks.
pub open spec fn index_of(blocks: Seq<KeyBlock>) -> IndexModel {
    blocks.map_values(|b: KeyBlock| b@)
}

fn text_of(entry: &KeyEntry) -> (r: &[u8])
    ensures
        r@ == key_bytes(entry.text@),
{
    entry.text.as_str().as_bytes()
}

/// How block `b` compares with the key `q`: greater (1) when its first key
/// is greater, else less (-1) when its last key is less, else equal (0); an
/// empty block does not compare.
pub open spec fn block_cmp(idx: IndexModel, b: int, q: Seq<u8>) -> Option<int> {
    if idx[b].len() == 0 {
        None
    } else if lex_cmp(entry_key(idx, b, 0), q) > 0 {
        Some(1)
    } else if lex_cmp(entry_key(idx, b, idx[b].len() - 1), q) < 0 {
        Some(-1)
    } else {
        Some(0)
    }
}

/// Compares key block `b` with the key `q` by its first and last keys.
pub fn compare_block(blocks: &Vec<KeyBlock>, b: usize, q: &[u8]) -> (r: Option<i8>)
    requires
        b < blocks@.len(),
    ensures
        match block_cmp(index_of(blocks@), b as int, q@) {
            None => r is None,
            Some(c) => r == Some(c as i8),
        },
{
    let ghost idx = index_of(blocks@);
    let entries = &blocks[b].entries;
    assert(idx[b as int] == blocks@[b as int]@);
    let n = entries.len();
    if n == 0 {
        return None;
    }
    let first = text_of(&entries[0]);
    assert(entry_key(idx, b as int, 0) == first@);
    if compare(first, q) > 0 {
        return Some(1);
    }
    let last = text_of(&entries[n - 1]);
    assert(entry_key(idx, b as int, n - 1) == last@);
    if compare(last, q) < 0 {
        Some(-1)
    } else {
        Some(0)
    }
}

/// In an ordered index, the blocks on either side of one that does not
/// straddle `q` do not straddle it either.
proof fn lemma_block_cmp_ordered(idx: IndexModel, m: int, b: int, q: Seq<u8>)
    requires
        index_sorted(idx),
        0 <= m < idx.len(),
        0 <= b < idx.len(),
        idx[b].len() > 0,
        (block_cmp(idx, m, q) == Some(1int) && m <= b) || (block_cmp(idx, m, q) == Some(-1int) && b
            <= m),
    ensures
        block_cmp(idx, b, q) != Some(0int),
{
    let lm = idx[m].len() - 1;
    let lb = idx[b].len() - 1;
    if block_cmp(idx, m, q) == Some(1int) {
        assert(valid_entry(idx, m, 0) && valid_entry(idx, b, 0));
        assert(lex_cmp(entry_key(idx, m, 0), entry_key(idx, b, 0)) <= 0);
        lemma_lex_cmp(entry_key(idx, m, 0), q);
        lemma_lex_cmp(entry_key(idx, b, 0), q);
        lemma_lex_cmp(entry_key(idx, m, 0), entry_key(idx, b, 0));
        if lex_cmp(entry_key(idx, b, 0), q) <= 0 {
            lemma_lex_trans(entry_key(idx, m, 0), entry_key(idx, b, 0), q);
        }
    } else {
        assert(valid_entry(idx, m, lm) && valid_entry(idx, b, lb));
        assert(lex_cmp(entry_key(idx, b, lb), entry_key(idx, m, lm)) <= 0);
        lemma_lex_cmp(entry_key(idx, m, lm), q);
        lemma_lex_cmp(entry_key(idx, b, lb), q);
        if lex_cmp(entry_key(idx, b, lb), q) >= 0 {
            lemma_lex_cmp(q, entry_key(idx, b, lb));
            lemma_lex_trans(q, entry_key(idx, b, lb), entry_key(idx, m, lm));
            lemma_lex_cmp(q, entry_key(idx, m, lm));
        }
    }
}

/// Bisects the blocks by `block_cmp`: a greater block sends the search left,
/// a less one right, an equal one ends it. An empty block met on the way ends
/// the search with nothing. The block found compares equal to `q`; in an
/// ordered index of non-empty blocks nothing is found only where no block
/// compares equal, and a block found holds `q` where the index does.
pub fn bisect_blocks(blocks: &Vec<KeyBlock>, q: &[u8]) -> (r: Option<usize>)
    ensures
        r is Some ==> r->0 < blocks@.len() && block_cmp(index_of(blocks@), r->0 as int, q@) == Some(0int),
        r is Some && index_sorted(index_of(blocks@)) && has_key(index_of(blocks@), q@) ==> block_has_key(
            index_of(blocks@),
            r->0 as int,
            q@,
        ),
        r is None && index_sorted(index_of(blocks@)) && blocks_nonempty(index_of(blocks@)) ==> forall|b: int|
            0 <= b < blocks@.len() ==> #[trigger] block_cmp(index_of(blocks@), b, q@) != Some(0int),
        r is None && index_sorted(index_of(blocks@)) && blocks_nonempty(index_of(blocks@)) ==> !has_key(
            index_of(blocks@),
            q@,
        ),
{
    let ghost idx = index_of(blocks@);
    let mut lo: usize = 0;
    let mut hi: usize = blocks.len();
    while lo < hi
        invariant
            lo <= hi <= blocks@.len(),
            idx == index_of(blocks@),
            index_sorted(idx) && blocks_nonempty(idx) ==> forall|b: int|
                0 <= b < idx.len() && !(lo <= b < hi) ==> #[trigger] block_cmp(idx, b, q@) != Some(0int),
            index_sorted(idx) && blocks_nonempty(idx) ==> forall|b: int, e: int|
                valid_entry(idx, b, e) && #[trigger] entry_key(idx, b, e) == q@ ==> lo <= b < hi,
        decreases hi - lo,
    {
        let mid = lo + (hi - lo) / 2;
        let c = match compare_block(blocks, mid, q) {
            None => return None,
            Some(c) => c,
        };
        let n = blocks[mid].entries.len();
        assert(idx[mid as int] == blocks@[mid as int]@);
        let ghost first = entry_key(idx, mid as int, 0);
        let ghost last = entry_key(idx, mid as int, n - 1);
        if c > 0 {
            proof {
                if index_sorted(idx) && blocks_nonempty(idx) {
                    assert forall|b: int| 0 <= b < idx.len() && !(lo <= b < mid) implies #[trigger] block_cmp(
                        idx,
                        b,
                        q@,
                    ) != Some(0int) by {
                        if mid <= b < hi {
                            lemma_block_cmp_ordered(idx, mid as int, b, q@);
                        }
                    }
                    assert forall|b: int, e: int|
                        valid_entry(idx, b, e) && #[trigger] entry_key(idx, b, e) == q@ implies lo <= b < mid by {
                        if b >= mid {
                            assert(valid_entry(idx, mid as int, 0));
                            assert(lex_cmp(entry_key(idx, mid as int, 0), entry_key(idx, b, e)) <= 0);
                            lemma_lex_cmp(first, q@);
                        }
                    }
                }
            }
            hi = mid;
        } else if c < 0 {
            proof {
                if index_sorted(idx) && blocks_nonempty(idx) {
                    assert forall|b: int| 0 <= b < idx.len() && !(mid < b < hi) implies #[trigger] block_cmp(
                        idx,
                        b,
                        q@,
                    ) != Some(0int) by {
                        if lo <= b <= mid {
                            lemma_block_cmp_ordered(idx, mid as int, b, q@);
                        }
                    }
                    assert forall|b: int, e: int|
                        valid_entry(idx, b, e) && #[trigger] entry_key(idx, b, e) == q@ implies mid < b < hi by {
                        if b <= mid {
                            assert(valid_entry(idx, mid as int, n - 1));
                            if b == mid {
                                assert(e <= n - 1);
                            }
                            assert(lex_cmp(entry_key(idx, b, e), entry_key(idx, mid as int, n - 1)) <= 0);
                            lemma_lex_cmp(last, q@);
                        }
                    }
                }
            }
            lo = mid + 1;
        } else {
            proof {
                if index_sorted(idx) && has_key(idx, q@) {
                    let (b, e) = choose|b: int, e: int| valid_entry(idx, b, e) && #[trigger] entry_key(idx, b, e) == q@;
                    lemma_lex_cmp(first, q@);
                    lemma_lex_cmp(last, q@);
                    if b < mid {
                        assert(valid_entry(idx, mid as int, 0));
                        assert(lex_cmp(entry_key(idx, b, e), entry_key(idx, mid as int, 0)) <= 0);
                        assert(entry_key(idx, mid as int, 0) == q@);
                    } else if b > mid {
                        assert(valid_entry(idx, mid as int, n - 1));
                        assert(lex_cmp(entry_key(idx, mid as int, n - 1), entry_key(idx, b, e)) <= 0);
                        assert(entry_key(idx, mid as int, n - 1) == q@);
                    } else {
                        assert(valid_entry(idx, mid as int, e) && entry_key(idx, mid as int, e) == q@);
                    }
                    assert(block_has_key(idx, mid as int, q@));
                }
            }
            return Some(mid);
        }
    }
    None
}

/// Bisects the entries of block `b` for the key `q`.
pub fn bisect_entries(blocks: &Vec<KeyBlock>, b: usize, q: &[u8]) -> (r: Option<usize>)
    requires
        b < blocks@.len(),
    ensures
        r is Some ==> valid_entry(index_of(blocks@), b as int, r->0 as int) && entry_key(
            index_of(blocks@),
            b as int,
            r->0 as int,
        ) == q@,
        r is None && index_sorted(index_of(blocks@)) ==> !block_has_key(index_of(blocks@), b as int, q@),
{
    let ghost idx = index_of(blocks@);
    let entries = &blocks[b].entries;
    assert(idx[b as int] == blocks@[b as int]@);
    let mut lo: usize = 0;
    let mut hi: usize = entries.len();
    while lo < hi
        invariant
            lo <= hi <= entries@.len(),
            b < blocks@.len(),
            idx == index_of(blocks@),
            entries == blocks@[b as int].entries,
            idx[b as int] == blocks@[b as int]@,
            index_sorted(idx) ==> forall|e: int|
                valid_entry(idx, b as int, e) && #[trigger] entry_key(idx, b as int, e) == q@ ==> lo <= e < hi,
        decreases hi - lo,
    {
        let mid = lo + (hi - lo) / 2;
        let t = text_of(&entries[mid]);
        assert(entry_key(idx, b as int, mid as int) == t@);
        let c = compare(t, q);
        if c == 0 {
            proof {
                lemma_lex_cmp(t@, q@);
            }
            return Some(mid);
        } else if c > 0 {
            proof {
                if index_sorted(idx) {
                    assert forall|e: int|
                        valid_entry(idx, b as int, e) && #[trigger] entry_key(idx, b as int, e) == q@ implies lo <= e < mid by {
                        if e >= mid {
                            assert(valid_entry(idx, b as int, mid as int));
                            assert(lex_cmp(entry_key(idx, b as int, mid as int), entry_key(idx, b as int, e)) <= 0);
                            lemma_lex_cmp(t@, q@);
                        }
                    }
                }
            }
            hi = mid;
        } else {
            proof {
                if index_sorted(idx) {
                    assert forall|e: int|
                        valid_entry(idx, b as int, e) && #[trigger] entry_key(idx, b as int, e) == q@ implies mid < e < hi by {
                        if e <= mid {
                            assert(valid_entry(idx, b as int, mid as int));
                            assert(lex_cmp(entry_key(idx, b as int, e), entry_key(idx, b as int, mid as int)) <= 0);
                            lemma_lex_cmp(t@, q@);
                        }
                    }
                }
            }
            lo = mid + 1;
        }
    }
    None
}

/// Where an entry's record lies: the offset of its record block from the
/// start of the record region, its offset inside the decoded block, and the
/// block's two sizes.
pub struct RecordOffset {
    pub buf_offset: u64,
    pub block_offset: u64,
    pub record_size: u64,
    pub decomp_size: u64,
}

/// Sum of the decompressed sizes of the first `k` record blocks.
pub open spec fn dsum(infos: Seq<BlockEntryInfo>, k: int) -> int
    decreases k,
{
    if k <= 0 {
        0
    } else {
        dsum(infos, k - 1) + infos[k - 1].decompressed_size
    }
}

/// Sum of the compressed sizes of the first `k` record blocks.
pub open spec fn csum(infos: Seq<BlockEntryInfo>, k: int) -> int
    decreases k,
{
    if k <= 0 {
        0
    } else {
        csum(infos, k - 1) + infos[k - 1].compressed_size
    }
}

/// Compressed sizes sum to no less over more blocks.
pub proof fn lemma_csum_grows(infos: Seq<BlockEntryInfo>, j: int, k: int)
    requires
        0 <= j <= k,
    ensures
        csum(infos, j) <= csum(infos, k),
    decreases k - j,
{
    if j < k {
        lemma_csum_grows(infos, j, k - 1);
    }
}

/// The first record block, from `k` on, whose decompressed span reaches past
/// the logical offset `off`; -1 where none does.
pub open spec fn record_block_of(infos: Seq<BlockEntryInfo>, off: int, k: int) -> int
    decreases infos.len() - k,
{
    if k < 0 || k >= infos.len() {
        -1
    } else if off < dsum(infos, k + 1) {
        k
    } else {
        record_block_of(infos, off, k + 1)
    }
}

/// The record block that holds the logical offset `off`, and the offset in it.
pub open spec fn record_offset_of(infos: Seq<BlockEntryInfo>, off: u64) -> Option<RecordOffset> {
    let k = record_block_of(infos, off as int, 0);
    if k < 0 || csum(infos, k) > u64::MAX {
        None
    } else {
        Some(
            RecordOffset {
                buf_offset: csum(infos, k) as u64,
                block_offset: (off - dsum(infos, k)) as u64,
                record_size: infos[k].compressed_size,
                decomp_size: infos[k].decompressed_size,
            },
        )
    }
}

/// Translates a logical record offset into its record block.
pub fn record_offset(records_info: &Vec<BlockEntryInfo>, offset: u64) -> (r: Option<RecordOffset>)
    ensures
        r == record_offset_of(records_info@, offset),
        r is Some ==> r->0.block_offset < r->0.decomp_size,
{
    let ghost infos = records_info@;
    let mut block_offset: u64 = 0;
    let mut buf_offset: u64 = 0;
    let mut k: usize = 0;
    while k < records_info.len()
        invariant
            infos == records_info@,
            k <= infos.len(),
            block_offset == dsum(infos, k as int),
            block_offset <= offset,
            buf_offset == csum(infos, k as int),
            record_block_of(infos, offset as int, 0) == record_block_of(infos, offset as int, k as int),
        decreases infos.len() - k,
    {
        let info = &records_info[k];
        if offset - block_offset < info.decompressed_size {
            return Some(
                RecordOffset {
                    buf_offset,
                    block_offset: offset - block_offset,
                    record_size: info.compressed_size,
                    decomp_size: info.decompressed_size,
                },
            );
        }
        block_offset = block_offset + info.decompressed_size;
        match buf_offset.checked_add(info.compressed_size) {
            Some(v) => {
                buf_offset = v;
            },
            None => {
                proof {
                    let kk = record_block_of(infos, offset as int, 0);
                    if kk >= 0 {
                        lemma_record_block_at_least(infos, offset as int, k + 1);
                        lemma_csum_grows(infos, k + 1, kk);
                    }
                }
                return None;
            },
        }
        k = k + 1;
    }
    None
}

/// A record block found from `k` on is block `k` or a later one.
pub proof fn lemma_record_block_at_least(infos: Seq<BlockEntryInfo>, off: int, k: int)
    requires
        0 <= k,
    ensures
        record_block_of(infos, off, k) == -1 || record_block_of(infos, off, k) >= k,
    decreases infos.len() - k,
{
    if k < infos.len() && off >= dsum(infos, k + 1) {
        lemma_record_block_at_least(infos, off, k + 1);
    }
}

/// The offset of the entry after (b, e) in file order, if there is one.
pub open spec fn next_offset(idx: IndexModel, b: int, e: int) -> Option<u64> {
    if e + 1 < idx[b].len() {
        Some(idx[b][e + 1].0)
    } else if b + 1 < idx.len() && idx[b + 1].len() > 0 {
        Some(idx[b + 1][0].0)
    } else {
        None
    }
}

/// The end, inside the decoded block, of the record that starts at `off`:
/// the next entry's offset where that lies further in the same block, else
/// the end of the block.
pub open spec fn span_end(rec: RecordOffset, off: u64, next: Option<u64>) -> u64 {
    match next {
        Some(n) => if off < n && n - off < rec.decomp_size - rec.block_offset {
            (rec.block_offset + (n - off)) as u64
        } else {
            rec.decomp_size
        },
        None => rec.decomp_size,
    }
}

/// Where the record of a found key lies.
pub struct Location {
    pub block: usize,
    pub entry: usize,
    pub record: RecordOffset,
    pub end: u64,
}

/// `l` locates the record of entry (l.block, l.entry), whose key is `q`.
pub open spec fn locates(idx: IndexModel, infos: Seq<BlockEntryInfo>, q: Seq<u8>, l: Location) -> bool {
    &&& valid_entry(idx, l.block as int, l.entry as int)
    &&& entry_key(idx, l.block as int, l.entry as int) == q
    &&& record_offset_of(infos, idx[l.block as int][l.entry as int].0) == Some(l.record)
    &&& l.end == span_end(
        l.record,
        idx[l.block as int][l.entry as int].0,
        next_offset(idx, l.block as int, l.entry as int),
    )
}

/// Some entry with the key `q` has an offset outside the record blocks.
pub open spec fn key_without_record(idx: IndexModel, infos: Seq<BlockEntryInfo>, q: Seq<u8>) -> bool {
    exists|b: int, e: int|
        valid_entry(idx, b, e) && #[trigger] entry_key(idx, b, e) == q && record_offset_of(
            infos,
            idx[b][e].0,
        ) is None
}

/// What a lookup of `q` yields: a location of an entry with that key; or, in
/// an ordered index of non-empty blocks, nothing only where no entry has the
/// key or one with it lies outside the record blocks.
pub open spec fn locate_post(
    idx: IndexModel,
    infos: Seq<BlockEntryInfo>,
    q: Seq<u8>,
    r: Option<Location>,
) -> bool {
    match r {
        Some(l) => locates(idx, infos, q, l),
        None => index_sorted(idx) && blocks_nonempty(idx) ==> !has_key(idx, q) || key_without_record(
            idx,
            infos,
            q,
        ),
    }
}

/// Finds the record of the key `q`: block-level bisection, entry-level
/// bisection, then offset translation.
pub fn locate(blocks: &Vec<KeyBlock>, records_info: &Vec<BlockEntryInfo>, q: &[u8]) -> (r: Option<Location>)
    ensures
        locate_post(index_of(blocks@), records_info@, q@, r),
{
    let ghost idx = index_of(blocks@);
    let b = match bisect_blocks(blocks, q) {
        None => return None,
        Some(b) => b,
    };
    let e = match bisect_entries(blocks, b, q) {
        None => return None,
        Some(e) => e,
    };
    let entries = &blocks[b].entries;
    assert(idx[b as int] == blocks@[b as int]@);
    let offset = entries[e].offset;
    let record = match record_offset(records_info, offset) {
        None => {
            assert(valid_entry(idx, b as int, e as int) && entry_key(idx, b as int, e as int) == q@);
            return None;
        },
        Some(rec) => rec,
    };
    let next: Option<u64> = if e < entries.len() - 1 {
        Some(entries[e + 1].offset)
    } else if b < blocks.len() - 1 && blocks[b + 1].entries.len() > 0 {
        assert(idx[b + 1] == blocks@[b + 1]@);
        Some(blocks[b + 1].entries[0].offset)
    } else {
        None
    };
    assert(next == next_offset(idx, b as int, e as int));
    let end: u64 = match next {
        Some(n) => if offset < n && n - offset < record.decomp_size - record.block_offset {
            record.block_offset + (n - offset)
        } else {
            record.decomp_size
        },
        None => record.decomp_size,
    };
    Some(Location { block: b, entry: e, record, end })
}

/// Offsets strictly increase from each entry to the next across the
/// concatenation of all blocks.
pub open spec fn offsets_increasing(idx: IndexModel) -> bool {
    forall|b: int, e: int|
        valid_entry(idx, b, e) && #[trigger] next_offset(idx, b, e) is Some ==> idx[b][e].0 < next_offset(
            idx,
            b,
            e,
        )->0
}

/// Every entry offset falls below the total decompressed size of the record
/// blocks.
pub open spec fn offsets_covered(idx: IndexModel, infos: Seq<BlockEntryInfo>) -> bool {
    forall|b: int, e: int| valid_entry(idx, b, e) ==> #[trigger] idx[b][e].0 < dsum(infos, infos.len() as int)
}

/// An offset below the total decompressed size lies in some record block.
pub proof fn lemma_record_block_found(infos: Seq<BlockEntryInfo>, off: int, k: int)
    requires
        0 <= k < infos.len(),
        0 <= off < dsum(infos, infos.len() as int),
    ensures
        k <= record_block_of(infos, off, k) < infos.len(),
    decreases infos.len() - k,
{
    if off >= dsum(infos, k + 1) {
        lemma_record_block_found(infos, off, k + 1);
    }
}

/// The record block found for `off` spans it.
pub proof fn lemma_record_block_bounds(infos: Seq<BlockEntryInfo>, off: int, j: int)
    requires
        0 <= j,
        dsum(infos, j) <= off,
        record_block_of(infos, off, j) >= 0,
    ensures
        dsum(infos, record_block_of(infos, off, j)) <= off < dsum(infos, record_block_of(infos, off, j) + 1),
        record_block_of(infos, off, j) < infos.len(),
    decreases infos.len() - j,
{
    if j < infos.len() && off >= dsum(infos, j + 1) {
        lemma_record_block_bounds(infos, off, j + 1);
    }
}

/// The record of a located entry lies inside its decoded block and is not
/// empty.
pub proof fn lemma_location_in_block(idx: IndexModel, infos: Seq<BlockEntryInfo>, q: Seq<u8>, l: Location)
    requires
        locates(idx, infos, q, l),
    ensures
        l.record.block_offset < l.end <= l.record.decomp_size,
{
    let off = idx[l.block as int][l.entry as int].0;
    let k = record_block_of(infos, off as int, 0);
    lemma_record_block_bounds(infos, off as int, 0);
}

/// In a well-formed index (keys never decreasing, no empty block, offsets
/// increasing and inside the record blocks, record region addressable), a
/// lookup of any key that the index holds finds an entry with that key. The
/// record it locates is non-empty and runs to the next entry's offset where
/// that lies inside the same record block, else to the end of the block.
pub proof fn lemma_present_key_located(
    idx: IndexModel,
    infos: Seq<BlockEntryInfo>,
    q: Seq<u8>,
    r: Option<Location>,
)
    requires
        locate_post(idx, infos, q, r),
        index_well_formed(idx, infos),
        has_key(idx, q),
    ensures
        r is Some,
        locates(idx, infos, q, r->0),
        r->0.record.block_offset < r->0.end <= r->0.record.decomp_size,
        ({
            let l = r->0;
            let off = idx[l.block as int][l.entry as int].0;
            let rest = l.record.decomp_size - l.record.block_offset;
            match next_offset(idx, l.block as int, l.entry as int) {
                Some(n) => {
                    &&& off < n
                    &&& l.end - l.record.block_offset == if n - off < rest {
                        n - off
                    } else {
                        rest
                    }
                },
                None => l.end == l.record.decomp_size,
            }
        }),
{
    if r is None {
        assert(key_without_record(idx, infos, q));
        let (b, e) = choose|b: int, e: int|
            valid_entry(idx, b, e) && #[trigger] entry_key(idx, b, e) == q && record_offset_of(
                infos,
                idx[b][e].0,
            ) is None;
        let off = idx[b][e].0;
        assert(off < dsum(infos, infos.len() as int));
        assert(infos.len() > 0);
        lemma_record_block_found(infos, off as int, 0);
        let k = record_block_of(infos, off as int, 0);
        lemma_csum_grows(infos, k, infos.len() as int);
    }
    let l = r->0;
    lemma_location_in_block(idx, infos, q, l);
    assert(valid_entry(idx, l.block as int, l.entry as int));
}

/// A key that no entry of the index has is never located.
pub proof fn lemma_missing_key_absent(
    idx: IndexModel,
    infos: Seq<BlockEntryInfo>,
    q: Seq<u8>,
    r: Option<Location>,
)
    requires
        locate_post(idx, infos, q, r),
        !has_key(idx, q),
    ensures
        r is None,
{
    if r is Some {
        let l = r->0;
        assert(valid_entry(idx, l.block as int, l.entry as int) && entry_key(idx, l.block as int, l.entry as int) == q);
    }
}

/// Comparison is transitive.
pub proof fn lemma_lex_trans(a: Seq<u8>, b: Seq<u8>, c: Seq<u8>)
    requires
        lex_cmp(a, b) <= 0,
        lex_cmp(b, c) <= 0,
    ensures
        lex_cmp(a, c) <= 0,
    decreases a.len(),
{
    if a.len() > 0 && b.len() > 0 && c.len() > 0 && a[0] == b[0] && b[0] == c[0] {
        lemma_lex_trans(a.drop_first(), b.drop_first(), c.drop_first());
    }
}

/// Entry (b1, e1) comes before position (b, e) in file order.
pub open spec fn before(b1: int, e1: int, b: int, e: int) -> bool {
    b1 < b || (b1 == b && e1 < e)
}

/// Keys never decrease among the entries before position (b, e).
pub open spec fn sorted_before(idx: IndexModel, b: int, e: int) -> bool {
    forall|b1: int, e1: int, b2: int, e2: int|
        valid_entry(idx, b1, e1) && valid_entry(idx, b2, e2) && before(b1, e1, b, e) && before(
            b2,
            e2,
            b,
            e,
        ) && not_after(b1, e1, b2, e2) ==> lex_cmp(
            #[trigger] entry_key(idx, b1, e1),
            #[trigger] entry_key(idx, b2, e2),
        ) <= 0
}

/// Whether the keys of the index never decrease across the concatenation of
/// all blocks.
pub fn index_ordered(blocks: &Vec<KeyBlock>) -> (r: bool)
    ensures
        r == index_sorted(index_of(blocks@)),
{
    let ghost idx = index_of(blocks@);
    let mut prev: Option<&[u8]> = None;
    let ghost mut pb: int = -1;
    let ghost mut pe: int = -1;
    let mut b: usize = 0;
    while b < blocks.len()
        invariant
            b <= blocks@.len(),
            idx == index_of(blocks@),
            sorted_before(idx, b as int, 0),
            prev is None ==> forall|b1: int, e1: int| valid_entry(idx, b1, e1) ==> !before(b1, e1, b as int, 0),
            prev is Some ==> {
                &&& valid_entry(idx, pb, pe)
                &&& before(pb, pe, b as int, 0)
                &&& entry_key(idx, pb, pe) == prev->0@
                &&& forall|b1: int, e1: int|
                    valid_entry(idx, b1, e1) && before(b1, e1, b as int, 0) ==> not_after(b1, e1, pb, pe)
            },
        decreases blocks@.len() - b,
    {
        let entries = &blocks[b].entries;
        assert(idx[b as int] == blocks@[b as int]@);
        let mut e: usize = 0;
        while e < entries.len()
            invariant
                b < blocks@.len(),
                e <= entries@.len(),
                idx == index_of(blocks@),
                entries == blocks@[b as int].entries,
                idx[b as int] == blocks@[b as int]@,
                sorted_before(idx, b as int, e as int),
                prev is None ==> forall|b1: int, e1: int| valid_entry(idx, b1, e1) ==> !before(b1, e1, b as int, e as int),
                prev is Some ==> {
                    &&& valid_entry(idx, pb, pe)
                    &&& before(pb, pe, b as int, e as int)
                    &&& entry_key(idx, pb, pe) == prev->0@
                    &&& forall|b1: int, e1: int|
                        valid_entry(idx, b1, e1) && before(b1, e1, b as int, e as int) ==> not_after(b1, e1, pb, pe)
                },
            decreases entries@.len() - e,
        {
            let cur = text_of(&entries[e]);
            assert(entry_key(idx, b as int, e as int) == cur@);
            assert(valid_entry(idx, b as int, e as int));
            match prev {
                Some(p) => {
                    if compare(p, cur) > 0 {
                        proof {
                            assert(not_after(pb, pe, b as int, e as int));
                            assert(lex_cmp(entry_key(idx, pb, pe), entry_key(idx, b as int, e as int)) > 0);
                        }
                        return false;
                    }
                    proof {
                        assert forall|b1: int, e1: int, b2: int, e2: int|
                            valid_entry(idx, b1, e1) && valid_entry(idx, b2, e2) && before(b1, e1, b as int, e + 1)
                                && before(b2, e2, b as int, e + 1) && not_after(b1, e1, b2, e2) implies lex_cmp(
                            #[trigger] entry_key(idx, b1, e1),
                            #[trigger] entry_key(idx, b2, e2),
                        ) <= 0 by {
                            if b2 == b && e2 == e {
                                if b1 == b && e1 == e {
                                    lemma_lex_cmp(cur@, cur@);
                                } else {
                                    assert(lex_cmp(entry_key(idx, b1, e1), entry_key(idx, pb, pe)) <= 0);
                                    lemma_lex_trans(entry_key(idx, b1, e1), prev->0@, cur@);
                                }
                            }
                        }
                    }
                },
                None => {
                    proof {
                        assert forall|b1: int, e1: int, b2: int, e2: int|
                            valid_entry(idx, b1, e1) && valid_entry(idx, b2, e2) && before(b1, e1, b as int, e + 1)
                                && before(b2, e2, b as int, e + 1) && not_after(b1, e1, b2, e2) implies lex_cmp(
                            #[trigger] entry_key(idx, b1, e1),
                            #[trigger] entry_key(idx, b2, e2),
                        ) <= 0 by {
                            lemma_lex_cmp(cur@, cur@);
                        }
                    }
                },
            }
            prev = Some(cur);
            proof {
                pb = b as int;
                pe = e as int;
            }
            e = e + 1;
        }
        proof {
            assert forall|b1: int, e1: int| valid_entry(idx, b1, e1) && before(b1, e1, b + 1, 0) implies before(
                b1,
                e1,
                b as int,
                e as int,
            ) by {}
        }
        b = b + 1;
    }
    proof {
        assert forall|b1: int, e1: int, b2: int, e2: int|
            valid_entry(idx, b1, e1) && valid_entry(idx, b2, e2) && not_after(b1, e1, b2, e2) implies lex_cmp(
            #[trigger] entry_key(idx, b1, e1),
            #[trigger] entry_key(idx, b2, e2),
        ) <= 0 by {
            assert(before(b1, e1, b as int, 0) && before(b2, e2, b as int, 0));
        }
    }
    true
}

/// The offset of the entry after (b, e), as `next_offset` gives it.
fn next_entry_offset(blocks: &Vec<KeyBlock>, b: usize, e: usize) -> (r: Option<u64>)
    requires
        valid_entry(index_of(blocks@), b as int, e as int),
    ensures
        r == next_offset(index_of(blocks@), b as int, e as int),
{
    let ghost idx = index_of(blocks@);
    let entries = &blocks[b].entries;
    assert(idx[b as int] == blocks@[b as int]@);
    if e < entries.len() - 1 {
        Some(entries[e + 1].offset)
    } else if b < blocks.len() - 1 && blocks[b + 1].entries.len() > 0 {
        assert(idx[b + 1] == blocks@[b + 1]@);
        Some(blocks[b + 1].entries[0].offset)
    } else {
        None
    }
}

/// Whether every entry's offset is below the next entry's.
pub fn offsets_ascending(blocks: &Vec<KeyBlock>) -> (r: bool)
    ensures
        r == offsets_increasing(index_of(blocks@)),
{
    let ghost idx = index_of(blocks@);
    let mut b: usize = 0;
    while b < blocks.len()
        invariant
            b <= blocks@.len(),
            idx == index_of(blocks@),
            forall|b1: int, e1: int|
                valid_entry(idx, b1, e1) && b1 < b && #[trigger] next_offset(idx, b1, e1) is Some ==> idx[b1][e1].0
                    < next_offset(idx, b1, e1)->0,
        decreases blocks@.len() - b,
    {
        let n = blocks[b].entries.len();
        assert(idx[b as int] == blocks@[b as int]@);
        let mut e: usize = 0;
        while e < n
            invariant
                b < blocks@.len(),
                e <= n,
                n == idx[b as int].len(),
                idx == index_of(blocks@),
                idx[b as int] == blocks@[b as int]@,
                forall|b1: int, e1: int|
                    valid_entry(idx, b1, e1) && before(b1, e1, b as int, e as int) && #[trigger] next_offset(idx, b1, e1) is Some
                        ==> idx[b1][e1].0 < next_offset(idx, b1, e1)->0,
            decreases n - e,
        {
            let off = blocks[b].entries[e].offset;
            match next_entry_offset(blocks, b, e) {
                Some(next) => {
                    if off >= next {
                        return false;
                    }
                },
                None => {},
            }
            e = e + 1;
        }
        b = b + 1;
    }
    true
}

/// Whether every entry offset falls inside the record blocks.
pub fn offsets_within(blocks: &Vec<KeyBlock>, records_info: &Vec<BlockEntryInfo>) -> (r: bool)
    ensures
        r == offsets_covered(index_of(blocks@), records_info@),
{
    let ghost idx = index_of(blocks@);
    let ghost infos = records_info@;
    let mut total: u64 = 0;
    let mut unbounded = false;
    let mut k: usize = 0;
    while k < records_info.len()
        invariant
            infos == records_info@,
            k <= infos.len(),
            !unbounded ==> total == dsum(infos, k as int),
            unbounded ==> dsum(infos, k as int) > u64::MAX,
        decreases infos.len() - k,
    {
        if !unbounded {
            match total.checked_add(records_info[k].decompressed_size) {
                Some(t) => {
                    total = t;
                },
                None => {
                    unbounded = true;
                },
            }
        } else {
            assert(dsum(infos, k + 1) >= dsum(infos, k as int));
        }
        k = k + 1;
    }
    if unbounded {
        return true;
    }
    let mut b: usize = 0;
    while b < blocks.len()
        invariant
            b <= blocks@.len(),
            idx == index_of(blocks@),
            total == dsum(infos, infos.len() as int),
            infos == records_info@,
            forall|b1: int, e1: int| valid_entry(idx, b1, e1) && b1 < b ==> #[trigger] idx[b1][e1].0 < total,
        decreases blocks@.len() - b,
    {
        let entries = &blocks[b].entries;
        assert(idx[b as int] == blocks@[b as int]@);
        let mut e: usize = 0;
        while e < entries.len()
            invariant
                b < blocks@.len(),
                e <= entries@.len(),
                idx == index_of(blocks@),
                entries == blocks@[b as int].entries,
                idx[b as int] == blocks@[b as int]@,
                total == dsum(infos, infos.len() as int),
                infos == records_info@,
                forall|b1: int, e1: int|
                    valid_entry(idx, b1, e1) && before(b1, e1, b as int, e as int) ==> #[trigger] idx[b1][e1].0 < total,
            decreases entries@.len() - e,
        {
            if entries[e].offset >= total {
                assert(valid_entry(idx, b as int, e as int));
                assert(idx[b as int][e as int].0 == entries@[e as int].offset);
                return false;
            }
            e = e + 1;
        }
        b = b + 1;
    }
    true
}

/// Whether no key block is empty.
pub fn blocks_filled(blocks: &Vec<KeyBlock>) -> (r: bool)
    ensures
        r == blocks_nonempty(index_of(blocks@)),
{
    let ghost idx = index_of(blocks@);
    let mut b: usize = 0;
    while b < blocks.len()
        invariant
            b <= blocks@.len(),
            idx == index_of(blocks@),
            forall|b1: int| 0 <= b1 < b ==> #[trigger] idx[b1].len() > 0,
        decreases blocks@.len() - b,
    {
        assert(idx[b as int] == blocks@[b as int]@);
        if blocks[b].entries.len() == 0 {
            return false;
        }
        b = b + 1;
    }
    true
}

/// Whether the compressed sizes of the record blocks sum within a file offset.
pub fn record_region_fits(records_info: &Vec<BlockEntryInfo>) -> (r: bool)
    ensures
        r == (csum(records_info@, records_info@.len() as int) <= u64::MAX),
{
    let ghost infos = records_info@;
    let mut total: u64 = 0;
    let mut k: usize = 0;
    while k < records_info.len()
        invariant
            infos == records_info@,
            k <= infos.len(),
            total == csum(infos, k as int),
        decreases infos.len() - k,
    {
        match total.checked_add(records_info[k].compressed_size) {
            Some(t) => {
                total = t;
            },
            None => {
                proof {
                    lemma_csum_grows(infos, k + 1, infos.len() as int);
                }
                return false;
            },
        }
        k = k + 1;
    }
    true
}

/// The properties of a well-formed file under which lookups are complete:
/// keys ordered, no empty key block, offsets increasing and inside the record
/// blocks, and the record region addressable by a file offset.
pub open spec fn index_well_formed(idx: IndexModel, infos: Seq<BlockEntryInfo>) -> bool {
    &&& index_sorted(idx)
    &&& blocks_nonempty(idx)
    &&& offsets_increasing(idx)
    &&& offsets_covered(idx, infos)
    &&& csum(infos, infos.len() as int) <= u64::MAX
}

/// In an ordered index each block's first key is at most its last key, and
/// each block's last key is at most the next block's first key.
pub proof fn lemma_block_ranges_ordered(idx: IndexModel)
    requires
        index_sorted(idx),
    ensures
        forall|b: int|
            0 <= b < idx.len() && idx[b].len() > 0 ==> lex_cmp(
                #[trigger] entry_key(idx, b, 0),
                entry_key(idx, b, idx[b].len() - 1),
            ) <= 0,
        forall|b: int|
            0 <= b && b + 1 < idx.len() && idx[b].len() > 0 && idx[b + 1].len() > 0 ==> lex_cmp(
                #[trigger] entry_key(idx, b, idx[b].len() - 1),
                entry_key(idx, b + 1, 0),
            ) <= 0,
{
    assert forall|b: int| 0 <= b < idx.len() && idx[b].len() > 0 implies lex_cmp(
        #[trigger] entry_key(idx, b, 0),
        entry_key(idx, b, idx[b].len() - 1),
    ) <= 0 by {
        assert(valid_entry(idx, b, 0) && valid_entry(idx, b, idx[b].len() - 1));
    }
    assert forall|b: int| 0 <= b && b + 1 < idx.len() && idx[b].len() > 0 && idx[b + 1].len() > 0 implies lex_cmp(
        #[trigger] entry_key(idx, b, idx[b].len() - 1),
        entry_key(idx, b + 1, 0),
    ) <= 0 by {
        assert(valid_entry(idx, b, idx[b].len() - 1) && valid_entry(idx, b + 1, 0));
    }
}

} // verus!
