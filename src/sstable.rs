//! Sorted-string tables: data blocks, an index block, a Bloom filter and a
//! checksummed footer in one immutable file.
use vstd::prelude::*;
use crate::block::{
    accepts, block_bytes, block_decodable, decoded_count, decoded_data, decoded_offsets,
    entries_bytes, entries_encodable, entry_key, entry_readable, entry_starts, entry_value,
    entry_value_len, lemma_block_round_trip, lemma_builder_encodable, lemma_entry_readable,
    lemma_entry_starts_len, Block, BlockBuilder,
};
use crate::bloom::{
    all_probes, bits_are, filter_len, filter_matches, key_fingerprint, fingerprints,
    lemma_bloom_no_false_negatives, probe_count, Bloom,
};
use crate::codec::{
    bytes_to_vec, crc32, crc32_of, get_u32_le, get_u64_le, le32, le64, lemma_le32_round_trip,
    lemma_le64_round_trip, lemma_read_le32_encode, lemma_read_le64_encode, put_bytes, put_u32_le,
    put_u64_le, read_le32, read_le64,
};
use crate::error::{format_error, LsmError, Result};
use crate::keys::{key_equal, key_le, key_less_or_equal, key_lt, lemma_key_lt_not_le};
use crate::memtable::{above_lower, below_upper, in_range, KeyBound};

verus! {

/// The footer size in bytes.
pub const FOOTER_SIZE: usize = 20;

/// The fixed-size trailer of a table file.
#[derive(Clone, Copy, Debug, PartialEq, Eq, Structural)]
pub struct Footer {
    pub file_size: u64,
    pub data_checksum: u32,
    pub index_checksum: u32,
    pub bloom_checksum: u32,
}

/// `file_size | data_checksum | index_checksum | bloom_checksum`, little-endian.
pub open spec fn footer_bytes(f: Footer) -> Seq<u8> {
    le64(f.file_size) + le32(f.data_checksum) + le32(f.index_checksum) + le32(f.bloom_checksum)
}

/// The footer that 20 bytes hold.
pub open spec fn decoded_footer(b: Seq<u8>) -> Footer {
    Footer {
        file_size: read_le64(b, 0) as u64,
        data_checksum: read_le32(b, 8) as u32,
        index_checksum: read_le32(b, 12) as u32,
        bloom_checksum: read_le32(b, 16) as u32,
    }
}

impl Footer {
    pub fn new(file_size: u64, data_checksum: u32, index_checksum: u32, bloom_checksum: u32) -> (r:
        Self)
        ensures
            r == (Footer { file_size, data_checksum, index_checksum, bloom_checksum }),
    {
        Self { file_size, data_checksum, index_checksum, bloom_checksum }
    }

    pub fn encode(&self) -> (r: Vec<u8>)
        ensures
            r@ == footer_bytes(*self),
    {
        let mut buf: Vec<u8> = Vec::new();
        put_u64_le(&mut buf, self.file_size);
        put_u32_le(&mut buf, self.data_checksum);
        put_u32_le(&mut buf, self.index_checksum);
        put_u32_le(&mut buf, self.bloom_checksum);
        assert(buf@ =~= footer_bytes(*self));
        buf
    }

    pub fn decode(buf: &[u8]) -> (r: Result<Self>)
        ensures
            buf@.len() == FOOTER_SIZE ==> r == Ok::<Footer, LsmError>(decoded_footer(buf@)),
            buf@.len() != FOOTER_SIZE ==> r is Err && r->Err_0 is Format,
    {
        if buf.len() != FOOTER_SIZE {
            return Err(format_error("invalid footer length"));
        }
        Ok(
            Self {
                file_size: get_u64_le(buf, 0),
                data_checksum: get_u32_le(buf, 8),
                index_checksum: get_u32_le(buf, 12),
                bloom_checksum: get_u32_le(buf, 16),
            },
        )
    }
}

/// Decoding an encoded footer gives the footer back.
pub proof fn lemma_footer_round_trip(f: Footer)
    ensures
        footer_bytes(f).len() == FOOTER_SIZE,
        decoded_footer(footer_bytes(f)) == f,
{
    let b = footer_bytes(f);
    lemma_le64_round_trip(f.file_size);
    lemma_le32_round_trip(f.data_checksum);
    lemma_le32_round_trip(f.index_checksum);
    lemma_le32_round_trip(f.bloom_checksum);
    assert(b.subrange(0, 8) =~= le64(f.file_size));
    assert(b.subrange(8, 12) =~= le32(f.data_checksum));
    assert(b.subrange(12, 16) =~= le32(f.index_checksum));
    assert(b.subrange(16, 20) =~= le32(f.bloom_checksum));
    assert(read_le64(b, 0) == read_le64(b.subrange(0, 8), 0));
    assert(read_le32(b, 8) == read_le32(b.subrange(8, 12), 0));
    assert(read_le32(b, 12) == read_le32(b.subrange(12, 16), 0));
    assert(read_le32(b, 16) == read_le32(b.subrange(16, 20), 0));
}

/// Encoding the footer that 20 bytes hold gives the same 20 bytes.
pub proof fn lemma_footer_bytes_round_trip(b: Seq<u8>)
    requires
        b.len() == FOOTER_SIZE,
    ensures
        footer_bytes(decoded_footer(b)) == b,
{
    lemma_read_le64_encode(b, 0);
    lemma_read_le32_encode(b, 8);
    lemma_read_le32_encode(b, 12);
    lemma_read_le32_encode(b, 16);
    assert(footer_bytes(decoded_footer(b)) =~= b);
}

/// The position and smallest key of one data block.
#[derive(Debug)]
pub struct BlockMeta {
    pub offset: u32,
    pub first_key: Vec<u8>,
}

/// The encoded data blocks, back to back.
pub open spec fn blocks_bytes(blocks: Seq<Seq<(Seq<u8>, Seq<u8>)>>) -> Seq<u8>
    decreases blocks.len(),
{
    if blocks.len() == 0 {
        Seq::empty()
    } else {
        blocks_bytes(blocks.drop_last()) + block_bytes(
            entries_bytes(blocks.last()),
            entry_starts(blocks.last()),
        )
    }
}

/// All entries of the blocks, in order.
pub open spec fn flatten(blocks: Seq<Seq<(Seq<u8>, Seq<u8>)>>) -> Seq<(Seq<u8>, Seq<u8>)>
    decreases blocks.len(),
{
    if blocks.len() == 0 {
        Seq::empty()
    } else {
        flatten(blocks.drop_last()) + blocks.last()
    }
}

/// The keys of the entries.
pub open spec fn keys_of(es: Seq<(Seq<u8>, Seq<u8>)>) -> Seq<Seq<u8>> {
    es.map_values(|e: (Seq<u8>, Seq<u8>)| e.0)
}

/// The metadata describes the blocks: block `i` starts where the blocks before
/// it end, and its first key is its first entry's key.
pub open spec fn metas_describe(metas: Seq<BlockMeta>, blocks: Seq<Seq<(Seq<u8>, Seq<u8>)>>) -> bool {
    &&& metas.len() == blocks.len()
    &&& forall|i: int|
        0 <= i < blocks.len() ==> {
            &&& (#[trigger] metas[i]).offset as int == blocks_bytes(blocks.take(i)).len()
            &&& metas[i].first_key@ == blocks[i][0].0
        }
}

/// Blocks that each hold at least one entry and can be encoded.
pub open spec fn blocks_ok(blocks: Seq<Seq<(Seq<u8>, Seq<u8>)>>) -> bool {
    forall|i: int| 0 <= i < blocks.len() ==> (#[trigger] blocks[i]).len() > 0 && entries_encodable(blocks[i])
}


/// The index entries: each block's first key with its offset as four bytes.
pub open spec fn index_entries(metas: Seq<BlockMeta>) -> Seq<(Seq<u8>, Seq<u8>)> {
    metas.map_values(|m: BlockMeta| (m.first_key@, le32(m.offset)))
}

/// The encoded index block.
pub open spec fn index_block_bytes(metas: Seq<BlockMeta>) -> Seq<u8> {
    block_bytes(entries_bytes(index_entries(metas)), entry_starts(index_entries(metas)))
}

/// Index entry `i` fits after the entries before it, in an index block
/// without a size cap.
pub open spec fn index_entry_fits(ie: Seq<(Seq<u8>, Seq<u8>)>, i: int) -> bool {
    accepts(ie.take(i), usize::MAX as nat, ie[i].0.len(), ie[i].1.len())
}

/// Every index entry fits into an index block without a size cap.
pub open spec fn index_fits(ie: Seq<(Seq<u8>, Seq<u8>)>) -> bool {
    forall|i: int| 0 <= i < ie.len() ==> #[trigger] index_entry_fits(ie, i)
}

/// The index entries of blocks laid out back to back.
pub open spec fn blocks_index(blocks: Seq<Seq<(Seq<u8>, Seq<u8>)>>) -> Seq<(Seq<u8>, Seq<u8>)> {
    Seq::new(
        blocks.len(),
        |i: int| (blocks[i][0].0, le32(blocks_bytes(blocks.take(i)).len() as u32)),
    )
}

/// Finished blocks holding `n_keys` keys in all can be built into a table:
/// the data, the index and the Bloom filter fit the layout's 32-bit offsets
/// and lengths, and the filter's size fits a `usize`.
pub open spec fn blocks_fit(blocks: Seq<Seq<(Seq<u8>, Seq<u8>)>>, n_keys: nat) -> bool {
    let ie = blocks_index(blocks);
    &&& blocks_bytes(blocks).len() <= u32::MAX
    &&& index_fits(ie)
    &&& block_bytes(entries_bytes(ie), entry_starts(ie)).len() <= u32::MAX
    &&& n_keys <= (usize::MAX - 64) / (BLOOM_BITS_PER_KEY as int)
    &&& filter_len(n_keys, BLOOM_BITS_PER_KEY as nat) + 1 <= u32::MAX
}

/// Building the table of builder `b` succeeds.
pub open spec fn build_succeeds(b: SsTableBuilder) -> bool {
    blocks_fit(finished_blocks(b.blocks(), b.current()), b.added().len())
}

/// How a builder with target block size `bs` that was given the entries `es`
/// in order has split them: the finished blocks, and the block being filled.
pub open spec fn partition(es: Seq<(Seq<u8>, Seq<u8>)>, bs: nat) -> (
    Seq<Seq<(Seq<u8>, Seq<u8>)>>,
    Seq<(Seq<u8>, Seq<u8>)>,
)
    decreases es.len(),
{
    if es.len() == 0 {
        (Seq::empty(), Seq::empty())
    } else {
        let p = partition(es.drop_last(), bs);
        let e = es.last();
        if accepts(p.1, bs, e.0.len(), e.1.len()) {
            (p.0, p.1.push(e))
        } else {
            (p.0.push(p.1), seq![e])
        }
    }
}

/// Adding entry `i` of `es` to a builder that was given the entries before it
/// succeeds: the entry fits the block being filled, or the data so far still
/// fits 32-bit offsets.
pub open spec fn add_succeeds(es: Seq<(Seq<u8>, Seq<u8>)>, i: int, bs: nat) -> bool {
    let p = partition(es.take(i), bs);
    accepts(p.1, bs, es[i].0.len(), es[i].1.len()) || blocks_bytes(p.0).len() <= u32::MAX
}

/// Adding each entry of `es` from index `from` on succeeds.
pub open spec fn adds_succeed(es: Seq<(Seq<u8>, Seq<u8>)>, from: int, bs: nat) -> bool {
    forall|i: int| from <= i < es.len() ==> #[trigger] add_succeeds(es, i, bs)
}

/// A fresh builder with target block size `bs`, given the entries `es` in
/// order, builds a table.
pub open spec fn table_builds(es: Seq<(Seq<u8>, Seq<u8>)>, bs: nat) -> bool {
    let p = partition(es, bs);
    adds_succeed(es, 0, bs) && blocks_fit(finished_blocks(p.0, p.1), es.len())
}

proof fn lemma_blocks_index(metas: Seq<BlockMeta>, blocks: Seq<Seq<(Seq<u8>, Seq<u8>)>>)
    requires
        metas_describe(metas, blocks),
    ensures
        index_entries(metas) == blocks_index(blocks),
{
    assert forall|i: int| 0 <= i < metas.len() implies #[trigger] index_entries(metas)[i]
        == blocks_index(blocks)[i] by {
        assert(metas[i].offset == blocks_bytes(blocks.take(i)).len() as u32);
    }
    assert(index_entries(metas) =~= blocks_index(blocks));
}

/// A table file: `data | index | bloom | bloom_len | index_len | footer`.
pub open spec fn sst_file(data: Seq<u8>, index: Seq<u8>, bloom: Seq<u8>, footer: Footer) -> Seq<u8> {
    data + index + bloom + le32(bloom.len() as u32) + le32(index.len() as u32) + footer_bytes(footer)
}

/// The blocks a builder holds once the block being filled is finished.
pub open spec fn finished_blocks(
    blocks: Seq<Seq<(Seq<u8>, Seq<u8>)>>,
    current: Seq<(Seq<u8>, Seq<u8>)>,
) -> Seq<Seq<(Seq<u8>, Seq<u8>)>> {
    if current.len() > 0 {
        blocks.push(current)
    } else {
        blocks
    }
}

/// The encoded Bloom filter.
pub open spec fn bloom_bytes(b: Bloom) -> Seq<u8> {
    b.filter@.push(b.k)
}

/// The Bloom density used for tables.
pub const BLOOM_BITS_PER_KEY: usize = 10;

/// The size of the trailer: the two length fields and the footer.
pub const TRAILER_SIZE: usize = 28;

/// The bloom length field of a table file.
pub open spec fn stored_bloom_len(file: Seq<u8>) -> int {
    read_le32(file, file.len() - 28)
}

/// The index length field of a table file.
pub open spec fn stored_index_len(file: Seq<u8>) -> int {
    read_le32(file, file.len() - 24)
}

/// The footer of a table file.
pub open spec fn stored_footer(file: Seq<u8>) -> Footer {
    decoded_footer(file.subrange(file.len() - 20, file.len() as int))
}

/// The file has a trailer, its footer gives its length, and the two regions
/// that the length fields describe fit before the trailer.
pub open spec fn layout_ok(file: Seq<u8>) -> bool {
    &&& file.len() >= 28
    &&& stored_footer(file).file_size == file.len()
    &&& stored_bloom_len(file) + stored_index_len(file) + 28 <= file.len()
}

/// Where the data region ends.
pub open spec fn data_len_of(file: Seq<u8>) -> int {
    file.len() - 28 - stored_bloom_len(file) - stored_index_len(file)
}

pub open spec fn data_region(file: Seq<u8>) -> Seq<u8> {
    file.subrange(0, data_len_of(file))
}

pub open spec fn index_region(file: Seq<u8>) -> Seq<u8> {
    file.subrange(data_len_of(file), data_len_of(file) + stored_index_len(file))
}

pub open spec fn bloom_region(file: Seq<u8>) -> Seq<u8> {
    file.subrange(data_len_of(file) + stored_index_len(file), file.len() - 28)
}

/// The three checksums in the footer match the regions.
pub open spec fn checksums_ok(file: Seq<u8>) -> bool {
    &&& crc32_of(data_region(file)) == stored_footer(file).data_checksum
    &&& crc32_of(index_region(file)) == stored_footer(file).index_checksum
    &&& crc32_of(bloom_region(file)) == stored_footer(file).bloom_checksum
}

/// An index block whose entries all read back with four-byte values.
pub open spec fn index_ok(bytes: Seq<u8>) -> bool {
    &&& block_decodable(bytes)
    &&& forall|i: int|
        0 <= i < decoded_count(bytes) ==> {
            &&& #[trigger] entry_readable(decoded_data(bytes), decoded_offsets(bytes), i)
            &&& entry_value_len(decoded_data(bytes), decoded_offsets(bytes), i) == 4
        }
}

/// The block descriptions are the entries of the index block.
pub open spec fn metas_from_index(metas: Seq<BlockMeta>, bytes: Seq<u8>) -> bool {
    &&& metas.len() == decoded_count(bytes)
    &&& forall|i: int|
        0 <= i < metas.len() ==> {
            &&& (#[trigger] metas[i]).first_key@ == entry_key(decoded_data(bytes), decoded_offsets(bytes), i)
            &&& metas[i].offset as int == read_le32(entry_value(decoded_data(bytes), decoded_offsets(bytes), i), 0)
        }
}

/// Bloom bytes that `Bloom::decode` accepts.
pub open spec fn bloom_ok(bytes: Seq<u8>) -> bool {
    bytes.len() >= 9 && (bytes.len() - 1) * 8 <= usize::MAX && 1 <= bytes.last() <= 30
}

/// The last block whose first key is at most `key`, among the first `n`.
pub open spec fn candidate_block(metas: Seq<BlockMeta>, key: Seq<u8>, n: int) -> Option<int>
    decreases n,
{
    if n <= 0 {
        None
    } else if key_le(metas[n - 1].first_key@, key) {
        Some(n - 1)
    } else {
        candidate_block(metas, key, n - 1)
    }
}

/// Scans the entries of a block from `j` on for `key`: `None` where an entry
/// cannot be read, `Some(None)` where no entry has the key, and otherwise the
/// value of the first entry that has it.
pub open spec fn scan_block(data: Seq<u8>, offsets: Seq<u16>, key: Seq<u8>, j: int) -> Option<
    Option<Seq<u8>>,
>
    decreases offsets.len() - j,
{
    if j < 0 || j >= offsets.len() {
        Some(None)
    } else if !entry_readable(data, offsets, j) {
        None
    } else if entry_key(data, offsets, j) == key {
        Some(Some(entry_value(data, offsets, j)))
    } else {
        scan_block(data, offsets, key, j + 1)
    }
}

/// Where block `i` ends: at the next block's start, or at the end of the data.
pub open spec fn block_end(data: Seq<u8>, metas: Seq<BlockMeta>, i: int) -> int {
    if i + 1 < metas.len() {
        metas[i + 1].offset as int
    } else {
        data.len() as int
    }
}

/// What a lookup of `key` finds past the Bloom filter: `None` where the
/// candidate block is malformed, else the value found, if any.
pub open spec fn table_lookup(data: Seq<u8>, metas: Seq<BlockMeta>, key: Seq<u8>) -> Option<
    Option<Seq<u8>>,
> {
    match candidate_block(metas, key, metas.len() as int) {
        None => Some(None),
        Some(i) => {
            let start = metas[i].offset as int;
            let end = block_end(data, metas, i);
            if !(start <= end <= data.len()) {
                None
            } else {
                let b = data.subrange(start, end);
                if !block_decodable(b) {
                    None
                } else {
                    scan_block(decoded_data(b), decoded_offsets(b), key, 0)
                }
            }
        }
    }
}

/// The result is a checksum mismatch with these two checksums.
pub open spec fn is_checksum_mismatch<T>(r: Result<T>, expected: u32, actual: u32) -> bool {
    match r {
        Err(LsmError::ChecksumMismatch { expected: e, actual: a }) => e == expected && a == actual,
        _ => false,
    }
}

/// What a table gives for `key`: `None` where the block it would be in is
/// malformed, else the value it holds, if any (a Bloom filter miss holds none).
pub open spec fn sst_lookup(t: SsTable, key: Seq<u8>) -> Option<Option<Seq<u8>>> {
    if !filter_matches(t.bloom.filter@, t.bloom.k as nat, key_fingerprint(key)) {
        Some(None)
    } else {
        table_lookup(t.data@, t.block_meta@, key)
    }
}

/// The bytes of block `c` of a table.
pub open spec fn block_region(t: SsTable, c: int) -> Seq<u8> {
    t.data@.subrange(t.block_meta@[c].offset as int, block_end(t.data@, t.block_meta@, c))
}

/// Block `c` of a table lies within the data and can be decoded.
pub open spec fn block_region_ok(t: SsTable, c: int) -> bool {
    &&& 0 <= c < t.block_meta@.len()
    &&& t.block_meta@[c].offset as int <= block_end(t.data@, t.block_meta@, c) <= t.data@.len()
    &&& block_decodable(block_region(t, c))
}

/// Entry `j` of block `c` of a table can be read.
pub open spec fn block_entry_ok(t: SsTable, c: int, j: int) -> bool {
    &&& block_region_ok(t, c)
    &&& entry_readable(decoded_data(block_region(t, c)), decoded_offsets(block_region(t, c)), j)
}

/// The key of entry `j` of block `c` of a table.
pub open spec fn block_entry_key(t: SsTable, c: int, j: int) -> Seq<u8> {
    entry_key(decoded_data(block_region(t, c)), decoded_offsets(block_region(t, c)), j)
}

/// Block `c` of a table decodes and every entry in it can be read.
pub open spec fn block_readable(t: SsTable, c: int) -> bool {
    &&& block_region_ok(t, c)
    &&& forall|j: int|
        0 <= j < decoded_offsets(block_region(t, c)).len() ==> #[trigger] block_entry_ok(t, c, j)
}

/// Every block of a table decodes and every entry in it can be read.
pub open spec fn table_readable(t: SsTable) -> bool {
    forall|c: int| 0 <= c < t.block_meta@.len() ==> #[trigger] block_readable(t, c)
}

/// Some readable entry of the table has key `k`.
pub open spec fn table_has_key(t: SsTable, k: Seq<u8>) -> bool {
    exists|c: int, j: int| block_entry_ok(t, c, j) && #[trigger] block_entry_key(t, c, j) == k
}

/// The keys as byte sequences.
pub open spec fn key_views(keys: Seq<Vec<u8>>) -> Seq<Seq<u8>> {
    keys.map_values(|k: Vec<u8>| k@)
}

proof fn lemma_scan_found(d: Seq<u8>, o: Seq<u16>, key: Seq<u8>, j: int) -> (r: int)
    requires
        scan_block(d, o, key, j) matches Some(Some(_)),
    ensures
        j <= r,
        entry_readable(d, o, r),
        entry_key(d, o, r) == key,
    decreases o.len() - j,
{
    if entry_readable(d, o, j) && entry_key(d, o, j) == key {
        j
    } else {
        lemma_scan_found(d, o, key, j + 1)
    }
}

proof fn lemma_scan_unreadable(d: Seq<u8>, o: Seq<u16>, key: Seq<u8>, j: int) -> (r: int)
    requires
        scan_block(d, o, key, j) is None,
    ensures
        j <= r < o.len(),
        0 <= r,
        !entry_readable(d, o, r),
    decreases o.len() - j,
{
    if !entry_readable(d, o, j) {
        j
    } else {
        lemma_scan_unreadable(d, o, key, j + 1)
    }
}

/// A lookup fails only on a table that is not readable.
pub proof fn lemma_lookup_fails_unreadable(t: SsTable, k: Seq<u8>)
    requires
        sst_lookup(t, k) is None,
    ensures
        !table_readable(t),
{
    let n = t.block_meta@.len() as int;
    lemma_candidate_range(t.block_meta@, k, n);
    let c = candidate_block(t.block_meta@, k, n)->Some_0;
    let b = block_region(t, c);
    if block_region_ok(t, c) {
        let j = lemma_scan_unreadable(decoded_data(b), decoded_offsets(b), k, 0);
        assert(!block_entry_ok(t, c, j));
    }
    assert(!block_readable(t, c));
}

/// A key that a table holds a value for is the key of one of its entries.
pub proof fn lemma_lookup_has_key(t: SsTable, k: Seq<u8>)
    requires
        sst_lookup(t, k) matches Some(Some(_)),
    ensures
        table_has_key(t, k),
{
    let n = t.block_meta@.len() as int;
    lemma_candidate_range(t.block_meta@, k, n);
    let c = candidate_block(t.block_meta@, k, n)->Some_0;
    let b = block_region(t, c);
    let j = lemma_scan_found(decoded_data(b), decoded_offsets(b), k, 0);
    assert(block_entry_ok(t, c, j) && block_entry_key(t, c, j) == k);
}

/// A sequence that holds `k` still holds it with one more element.
pub proof fn lemma_push_contains(s: Seq<Seq<u8>>, a: Seq<u8>, k: Seq<u8>)
    requires
        s.contains(k),
    ensures
        s.push(a).contains(k),
{
    let i = choose|i: int| 0 <= i < s.len() && s[i] == k;
    assert(s.push(a)[i] == k);
}

/// The view of an optional value.
pub open spec fn opt_view(o: Option<Vec<u8>>) -> Option<Seq<u8>> {
    match o {
        Some(v) => Some(v@),
        None => None,
    }
}

/// An opened or freshly built table.
pub struct SsTable {
    pub id: usize,
    pub block_meta: Vec<BlockMeta>,
    pub index_offset: u64,
    pub index_len: u64,
    pub bloom_offset: u64,
    pub bloom_len: u64,
    pub footer: Footer,
    /// The data blocks, back to back.
    pub data: Vec<u8>,
    pub bloom: Bloom,
}

impl SsTable {
    /// Opens a table from the bytes of its file, checking its layout and its
    /// three checksums.
    pub fn open(id: usize, file: &[u8]) -> (r: Result<SsTable>)
        ensures
            !layout_ok(file@) ==> r is Err && r->Err_0 is Format,
            layout_ok(file@) && crc32_of(data_region(file@)) != stored_footer(file@).data_checksum
                ==> is_checksum_mismatch(r, stored_footer(file@).data_checksum, crc32_of(data_region(file@))),
            layout_ok(file@) && crc32_of(data_region(file@)) == stored_footer(file@).data_checksum
                && crc32_of(index_region(file@)) != stored_footer(file@).index_checksum
                ==> is_checksum_mismatch(r, stored_footer(file@).index_checksum, crc32_of(index_region(file@))),
            layout_ok(file@) && crc32_of(data_region(file@)) == stored_footer(file@).data_checksum
                && crc32_of(index_region(file@)) == stored_footer(file@).index_checksum
                && crc32_of(bloom_region(file@)) != stored_footer(file@).bloom_checksum
                ==> is_checksum_mismatch(r, stored_footer(file@).bloom_checksum, crc32_of(bloom_region(file@))),
            layout_ok(file@) && checksums_ok(file@) && !(index_ok(index_region(file@)) && bloom_ok(
                bloom_region(file@),
            )) ==> r is Err && r->Err_0 is Format,
            r is Ok <==> layout_ok(file@) && checksums_ok(file@) && index_ok(index_region(file@))
                && bloom_ok(bloom_region(file@)),
            r is Ok ==> ({
                let t = r->Ok_0;
                &&& t.id == id
                &&& t.data@ == data_region(file@)
                &&& metas_from_index(t.block_meta@, index_region(file@))
                &&& t.bloom.filter@ == bloom_region(file@).drop_last()
                &&& t.bloom.k == bloom_region(file@).last()
                &&& t.bloom.wf()
                &&& t.footer == stored_footer(file@)
                &&& t.index_offset == data_len_of(file@)
                &&& t.index_len == stored_index_len(file@)
                &&& t.bloom_offset == data_len_of(file@) + stored_index_len(file@)
                &&& t.bloom_len == stored_bloom_len(file@)
            }),
    {
        let n = file.len();
        if n < TRAILER_SIZE {
            return Err(format_error("table file too short"));
        }
        let footer = match Footer::decode(vstd::slice::slice_subrange(file, n - FOOTER_SIZE, n)) {
            Ok(f) => f,
            Err(e) => {
                return Err(e);
            },
        };
        if footer.file_size != n as u64 {
            return Err(format_error("table file size mismatch"));
        }
        let bloom_len = get_u32_le(file, n - TRAILER_SIZE) as usize;
        let index_len = get_u32_le(file, n - TRAILER_SIZE + 4) as usize;
        if bloom_len > n - TRAILER_SIZE || index_len > n - TRAILER_SIZE - bloom_len {
            return Err(format_error("table region lengths exceed the file"));
        }
        let data_len = n - TRAILER_SIZE - bloom_len - index_len;
        let data = vstd::slice::slice_subrange(file, 0, data_len);
        let index = vstd::slice::slice_subrange(file, data_len, data_len + index_len);
        let bloom = vstd::slice::slice_subrange(file, data_len + index_len, n - TRAILER_SIZE);
        let actual = crc32(data);
        if actual != footer.data_checksum {
            return Err(LsmError::ChecksumMismatch { expected: footer.data_checksum, actual });
        }
        let actual = crc32(index);
        if actual != footer.index_checksum {
            return Err(LsmError::ChecksumMismatch { expected: footer.index_checksum, actual });
        }
        let actual = crc32(bloom);
        if actual != footer.bloom_checksum {
            return Err(LsmError::ChecksumMismatch { expected: footer.bloom_checksum, actual });
        }
        let block_meta = match decode_index(index) {
            Ok(m) => m,
            Err(e) => {
                return Err(e);
            },
        };
        let bloom = match Bloom::decode(bloom) {
            Ok(b) => b,
            Err(e) => {
                return Err(e);
            },
        };
        let data = bytes_to_vec(data);
        Ok(
            SsTable {
                id,
                block_meta,
                index_offset: data_len as u64,
                index_len: index_len as u64,
                bloom_offset: (data_len + index_len) as u64,
                bloom_len: bloom_len as u64,
                footer,
                data,
                bloom,
            },
        )
    }

    /// Appends the key of every entry between the two ends to `keys`; fails
    /// where a block of the table is malformed.
    pub fn collect_keys(&self, lower: &KeyBound, upper: &KeyBound, keys: &mut Vec<Vec<u8>>) -> (r:
        Result<()>)
        ensures
            r is Ok <==> table_readable(*self),
            r is Err ==> r->Err_0 is Format,
            forall|k: Seq<u8>| key_views(old(keys)@).contains(k) ==> key_views(final(keys)@).contains(k),
            forall|x: int|
                0 <= x < final(keys)@.len() ==> key_views(old(keys)@).contains(
                    #[trigger] final(keys)@[x]@,
                ) || above_lower(final(keys)@[x]@, *lower) && below_upper(final(keys)@[x]@, *upper),
            r is Ok ==> forall|k: Seq<u8>|
                table_has_key(*self, k) && above_lower(k, *lower) && below_upper(k, *upper)
                    ==> key_views(final(keys)@).contains(k),
    {
        let ghost start = key_views(keys@);
        proof {
            assert forall|x: int| 0 <= x < keys@.len() implies start.contains(#[trigger] keys@[x]@) by {
                assert(start[x] == keys@[x]@);
            }
        }
        let n = self.block_meta.len();
        let mut c: usize = 0;
        while c < n
            invariant
                start == key_views(old(keys)@),
                n == self.block_meta@.len(),
                c <= n,
                forall|cc: int| 0 <= cc < c ==> #[trigger] block_readable(*self, cc),
                forall|k: Seq<u8>| start.contains(k) ==> key_views(keys@).contains(k),
                forall|x: int|
                    0 <= x < keys@.len() ==> start.contains(#[trigger] keys@[x]@) || above_lower(
                        keys@[x]@,
                        *lower,
                    ) && below_upper(keys@[x]@, *upper),
                forall|cc: int, j: int|
                    0 <= cc < c && block_entry_ok(*self, cc, j) && above_lower(
                        block_entry_key(*self, cc, j),
                        *lower,
                    ) && below_upper(block_entry_key(*self, cc, j), *upper) ==> key_views(
                        keys@,
                    ).contains(#[trigger] block_entry_key(*self, cc, j)),
            decreases n - c,
        {
            let start_off = self.block_meta[c].offset as usize;
            let end = if c + 1 < n {
                self.block_meta[c + 1].offset as usize
            } else {
                self.data.len()
            };
            if start_off > end || end > self.data.len() {
                assert(!block_readable(*self, c as int));
                return Err(format_error("block offsets exceed the data"));
            }
            let bytes = vstd::slice::slice_subrange(self.data.as_slice(), start_off, end);
            assert(bytes@ == block_region(*self, c as int));
            if !Block::can_decode(bytes) {
                assert(!block_readable(*self, c as int));
                return Err(format_error("malformed data block"));
            }
            let block = Block::decode(bytes);
            assert(block.offsets@ =~= decoded_offsets(bytes@));
            let mut j: usize = 0;
            while j < block.offsets.len()
                invariant
                    start == key_views(old(keys)@),
                    n == self.block_meta@.len(),
                    c < n,
                    forall|cc: int| 0 <= cc < c ==> #[trigger] block_readable(*self, cc),
                    forall|jj: int| 0 <= jj < j ==> #[trigger] block_entry_ok(*self, c as int, jj),
                    block_region_ok(*self, c as int),
                    bytes@ == block_region(*self, c as int),
                    block.data@ == decoded_data(bytes@),
                    block.offsets@ == decoded_offsets(bytes@),
                    j <= block.offsets@.len(),
                    forall|k: Seq<u8>| start.contains(k) ==> key_views(keys@).contains(k),
                    forall|x: int|
                        0 <= x < keys@.len() ==> start.contains(#[trigger] keys@[x]@) || above_lower(
                            keys@[x]@,
                            *lower,
                        ) && below_upper(keys@[x]@, *upper),
                    forall|cc: int, jj: int|
                        0 <= cc < c && block_entry_ok(*self, cc, jj) && above_lower(
                            block_entry_key(*self, cc, jj),
                            *lower,
                        ) && below_upper(block_entry_key(*self, cc, jj), *upper) ==> key_views(
                            keys@,
                        ).contains(#[trigger] block_entry_key(*self, cc, jj)),
                    forall|jj: int|
                        0 <= jj < j && block_entry_ok(*self, c as int, jj) && above_lower(
                            block_entry_key(*self, c as int, jj),
                            *lower,
                        ) && below_upper(block_entry_key(*self, c as int, jj), *upper) ==> key_views(
                            keys@,
                        ).contains(#[trigger] block_entry_key(*self, c as int, jj)),
                decreases block.offsets@.len() - j,
            {
                if !block.has_entry(j) {
                    assert(!block_entry_ok(*self, c as int, j as int));
                    assert(!block_readable(*self, c as int));
                    return Err(format_error("malformed data block"));
                }
                assert(block_entry_ok(*self, c as int, j as int));
                let (k, _) = block.get_entry(j);
                assert(k@ == block_entry_key(*self, c as int, j as int));
                if in_range(k, lower, upper) {
                    let ghost before = key_views(keys@);
                    let ghost before_keys = keys@;
                    keys.push(bytes_to_vec(k));
                    proof {
                        assert(key_views(keys@) =~= before.push(k@));
                        assert forall|kk: Seq<u8>| before.contains(kk) implies key_views(
                            keys@,
                        ).contains(kk) by {
                            lemma_push_contains(before, k@, kk);
                        }
                        assert(key_views(keys@)[before.len() as int] == k@);
                        assert forall|x: int| 0 <= x < keys@.len() implies start.contains(
                            #[trigger] keys@[x]@,
                        ) || above_lower(keys@[x]@, *lower) && below_upper(keys@[x]@, *upper) by {
                            if x < before_keys.len() {
                                assert(keys@[x] == before_keys[x]);
                            }
                        }
                    }
                }
                j = j + 1;
            }
            assert(block_readable(*self, c as int));
            c = c + 1;
        }
        proof {
            assert forall|k: Seq<u8>|
                table_has_key(*self, k) && above_lower(k, *lower) && below_upper(k, *upper)
                implies key_views(keys@).contains(k) by {
                let (cc, jj) = choose|cc: int, jj: int|
                    block_entry_ok(*self, cc, jj) && #[trigger] block_entry_key(*self, cc, jj) == k;
                assert(cc < n);
            }
        }
        Ok(())
    }

    /// Looks `key` up: the Bloom filter first, then the last block whose first
    /// key is at most `key`, then that block's entries. An empty value is a
    /// tombstone and is returned as it is.
    pub fn get(&self, key: &[u8]) -> (r: Result<Option<Vec<u8>>>)
        requires
            self.bloom.filter@.len() * 8 <= usize::MAX,
        ensures
            r is Err <==> sst_lookup(*self, key@) is None,
            r is Ok ==> opt_view(r->Ok_0) == sst_lookup(*self, key@)->Some_0,
            r is Err ==> r->Err_0 is Format,
    {
        if !self.bloom.may_contain(key) {
            return Ok(None);
        }
        let i = match find_candidate(&self.block_meta, key) {
            None => {
                return Ok(None);
            },
            Some(i) => i,
        };
        let n = self.block_meta.len();
        let start = self.block_meta[i].offset as usize;
        let end = if i + 1 < n {
            self.block_meta[i + 1].offset as usize
        } else {
            self.data.len()
        };
        if start > end || end > self.data.len() {
            return Err(format_error("block offsets exceed the data"));
        }
        let bytes = vstd::slice::slice_subrange(self.data.as_slice(), start, end);
        if !Block::can_decode(bytes) {
            return Err(format_error("malformed data block"));
        }
        let block = Block::decode(bytes);
        assert(block.offsets@ =~= decoded_offsets(bytes@));
        assert(table_lookup(self.data@, self.block_meta@, key@) == scan_block(
            block.data@,
            block.offsets@,
            key@,
            0,
        ));
        let mut j: usize = 0;
        while j < block.offsets.len()
            invariant
                filter_matches(self.bloom.filter@, self.bloom.k as nat, key_fingerprint(key@)),
                table_lookup(self.data@, self.block_meta@, key@) == scan_block(
                    block.data@,
                    block.offsets@,
                    key@,
                    0,
                ),
                block.data@ == decoded_data(bytes@),
                block.offsets@ == decoded_offsets(bytes@),
                j <= block.offsets@.len(),
                scan_block(block.data@, block.offsets@, key@, 0) == scan_block(
                    block.data@,
                    block.offsets@,
                    key@,
                    j as int,
                ),
            decreases block.offsets@.len() - j,
        {
            if !block.has_entry(j) {
                return Err(format_error("malformed data block"));
            }
            let (k, v) = block.get_entry(j);
            if key_equal(k, key) {
                return Ok(Some(bytes_to_vec(v)));
            }
            j = j + 1;
        }
        Ok(None)
    }
}

/// The last block whose first key is at most `key`.
fn find_candidate(metas: &Vec<BlockMeta>, key: &[u8]) -> (r: Option<usize>)
    ensures
        r matches Some(i) ==> i < metas@.len() && candidate_block(metas@, key@, metas@.len() as int)
            == Some(i as int),
        r is None ==> candidate_block(metas@, key@, metas@.len() as int) is None,
{
    let mut n = metas.len();
    while n > 0
        invariant
            n <= metas@.len(),
            candidate_block(metas@, key@, metas@.len() as int) == candidate_block(
                metas@,
                key@,
                n as int,
            ),
        decreases n,
    {
        if key_less_or_equal(metas[n - 1].first_key.as_slice(), key) {
            return Some(n - 1);
        }
        n = n - 1;
    }
    None
}

/// Reads the block descriptions out of an index block.
fn decode_index(bytes: &[u8]) -> (r: Result<Vec<BlockMeta>>)
    ensures
        r is Ok <==> index_ok(bytes@),
        r is Ok ==> metas_from_index(r->Ok_0@, bytes@),
        r is Err ==> r->Err_0 is Format,
{
    if !Block::can_decode(bytes) {
        return Err(format_error("malformed index block"));
    }
    let block = Block::decode(bytes);
    let ghost d = decoded_data(bytes@);
    let ghost o = decoded_offsets(bytes@);
    assert(block.offsets@ =~= o);
    let mut metas: Vec<BlockMeta> = Vec::new();
    let mut i: usize = 0;
    while i < block.offsets.len()
        invariant
            d == decoded_data(bytes@),
            o == decoded_offsets(bytes@),
            block.data@ == d,
            block.offsets@ == o,
            o.len() == decoded_count(bytes@),
            i <= o.len(),
            metas@.len() == i,
            forall|j: int| 0 <= j < i ==> #[trigger] entry_readable(d, o, j),
            forall|j: int| 0 <= j < i ==> #[trigger] entry_value_len(d, o, j) == 4,
            forall|j: int|
                0 <= j < i ==> {
                    &&& (#[trigger] metas@[j]).first_key@ == entry_key(d, o, j)
                    &&& metas@[j].offset as int == read_le32(entry_value(d, o, j), 0)
                },
        decreases o.len() - i,
    {
        if !block.has_entry(i) {
            assert(!entry_readable(decoded_data(bytes@), decoded_offsets(bytes@), i as int));
            assert(!index_ok(bytes@));
            return Err(format_error("malformed index entry"));
        }
        let (key, value) = block.get_entry(i);
        if value.len() != 4 {
            assert(entry_value_len(decoded_data(bytes@), decoded_offsets(bytes@), i as int) != 4);
            assert(!index_ok(bytes@));
            return Err(format_error("malformed index entry"));
        }
        assert(entry_readable(d, o, i as int));
        assert(entry_value_len(d, o, i as int) == 4);
        let offset = get_u32_le(value, 0);
        metas.push(BlockMeta { offset, first_key: bytes_to_vec(key) });
        i = i + 1;
    }
    Ok(metas)
}

/// Encodes the index block for these block descriptions.
fn build_index_block(metas: &Vec<BlockMeta>) -> (r: Result<Vec<u8>>)
    requires
        forall|i: int| 0 <= i < metas@.len() ==> 0 < (#[trigger] metas@[i]).first_key@.len() <= 65535,
    ensures
        r is Ok <==> index_fits(index_entries(metas@)),
        r is Ok ==> r->Ok_0@ == index_block_bytes(metas@),
        r is Err ==> r->Err_0 is Format,
{
    let ghost ie = index_entries(metas@);
    let mut index_builder = BlockBuilder::new(usize::MAX);
    let mut i: usize = 0;
    while i < metas.len()
        invariant
            i <= metas@.len(),
            ie == index_entries(metas@),
            forall|j: int| 0 <= j < metas@.len() ==> 0 < (#[trigger] metas@[j]).first_key@.len() <= 65535,
            index_builder.wf(),
            index_builder.block_size() == usize::MAX,
            index_builder.entries() == ie.take(i as int),
            forall|j: int| 0 <= j < i ==> #[trigger] index_entry_fits(ie, j),
        decreases metas@.len() - i,
    {
        let mut offset_bytes: Vec<u8> = Vec::new();
        put_u32_le(&mut offset_bytes, metas[i].offset);
        if !index_builder.add(metas[i].first_key.as_slice(), offset_bytes.as_slice()) {
            assert(!index_entry_fits(ie, i as int));
            return Err(format_error("index block too large"));
        }
        assert(ie.take(i + 1) =~= ie.take(i as int).push(ie[i as int]));
        assert(index_entry_fits(ie, i as int));
        i = i + 1;
    }
    assert(ie.take(metas@.len() as int) =~= ie);
    assert(index_fits(ie));
    let block = index_builder.build();
    proof {
        lemma_entry_starts_len(ie);
    }
    Ok(block.encode())
}

/// Lays out a table file.
fn assemble_file(data: &[u8], index: &[u8], bloom: &[u8], footer: &Footer) -> (r: Vec<u8>)
    requires
        index@.len() <= u32::MAX,
        bloom@.len() <= u32::MAX,
    ensures
        r@ == sst_file(data@, index@, bloom@, *footer),
{
    let mut file: Vec<u8> = Vec::new();
    put_bytes(&mut file, data);
    put_bytes(&mut file, index);
    put_bytes(&mut file, bloom);
    put_u32_le(&mut file, bloom.len() as u32);
    put_u32_le(&mut file, index.len() as u32);
    let footer_enc = footer.encode();
    put_bytes(&mut file, footer_enc.as_slice());
    assert(file@ =~= sst_file(data@, index@, bloom@, *footer));
    file
}

/// The blocks' first keys are valid keys.
proof fn lemma_first_keys(metas: Seq<BlockMeta>, blocks: Seq<Seq<(Seq<u8>, Seq<u8>)>>)
    requires
        metas_describe(metas, blocks),
        blocks_ok(blocks),
    ensures
        forall|i: int| 0 <= i < metas.len() ==> 0 < (#[trigger] metas[i]).first_key@.len() <= 65535,
{
    assert forall|i: int| 0 <= i < metas.len() implies 0 < (#[trigger] metas[i]).first_key@.len()
        <= 65535 by {
        assert(blocks[i].len() > 0 && entries_encodable(blocks[i]));
    }
}

/// The table and file that `build` makes from builder `b` with this id.
pub open spec fn built_table(b: SsTableBuilder, id: usize, t: SsTable, file: Seq<u8>) -> bool {
    let blocks = finished_blocks(b.blocks(), b.current());
    let index = index_block_bytes(t.block_meta@);
    let bloom = bloom_bytes(t.bloom);
    &&& t.id == id
    &&& t.data@ == blocks_bytes(blocks)
    &&& metas_describe(t.block_meta@, blocks)
    &&& t.bloom.wf()
    &&& t.bloom.k == probe_count(BLOOM_BITS_PER_KEY as nat)
    &&& t.bloom.filter@.len() == filter_len(b.added().len(), BLOOM_BITS_PER_KEY as nat)
    &&& bits_are(
        t.bloom.filter@,
        all_probes(
            fingerprints(keys_of(b.added())),
            t.bloom.k as nat,
            t.bloom.filter@.len() * 8,
        ),
    )
    &&& t.index_offset == t.data@.len()
    &&& t.index_len == index.len()
    &&& t.bloom_offset == t.data@.len() + index.len()
    &&& t.bloom_len == bloom.len()
    &&& t.footer == (Footer {
        file_size: file.len() as u64,
        data_checksum: crc32_of(t.data@),
        index_checksum: crc32_of(index),
        bloom_checksum: crc32_of(bloom),
    })
    &&& file == sst_file(t.data@, index, bloom, t.footer)
}

/// Builds a table from entries added in ascending key order.
pub struct SsTableBuilder {
    block_size: usize,
    current_block: BlockBuilder,
    current_first_key: Option<Vec<u8>>,
    block_meta: Vec<BlockMeta>,
    data: Vec<u8>,
    keys: Vec<Vec<u8>>,
    blocks: Ghost<Seq<Seq<(Seq<u8>, Seq<u8>)>>>,
}

impl SsTableBuilder {
    /// The finished blocks' entries.
    pub closed spec fn blocks(&self) -> Seq<Seq<(Seq<u8>, Seq<u8>)>> {
        self.blocks@
    }

    /// The entries of the block being filled.
    pub closed spec fn current(&self) -> Seq<(Seq<u8>, Seq<u8>)> {
        self.current_block.entries()
    }

    /// The target block size.
    pub closed spec fn block_size(&self) -> nat {
        self.block_size as nat
    }

    /// Every entry added so far, in order.
    pub open spec fn added(&self) -> Seq<(Seq<u8>, Seq<u8>)> {
        flatten(self.blocks()) + self.current()
    }

    /// The blocks are the split of the entries added so far.
    pub open spec fn partitioned(&self) -> bool {
        (self.blocks(), self.current()) == partition(self.added(), self.block_size())
    }

    pub closed spec fn wf(&self) -> bool {
        &&& self.current_block.wf()
        &&& self.current_block.block_size() == self.block_size
        &&& self.current_block.entries().len() > 0 ==> self.current_first_key is Some
            && self.current_first_key->Some_0@ == self.current_block.entries()[0].0
        &&& self.data@ == blocks_bytes(self.blocks@)
        &&& metas_describe(self.block_meta@, self.blocks@)
        &&& blocks_ok(self.blocks@)
        &&& self.keys@.map_values(|k: Vec<u8>| k@) == keys_of(self.added())
    }

    pub fn new(block_size: usize) -> (r: Self)
        ensures
            r.wf(),
            r.partitioned(),
            r.added() == Seq::<(Seq<u8>, Seq<u8>)>::empty(),
            r.blocks() == Seq::<Seq<(Seq<u8>, Seq<u8>)>>::empty(),
            r.current() == Seq::<(Seq<u8>, Seq<u8>)>::empty(),
            r.block_size() == block_size,
    {
        let r = Self {
            block_size,
            current_block: BlockBuilder::new(block_size),
            current_first_key: None,
            block_meta: Vec::new(),
            data: Vec::new(),
            keys: Vec::new(),
            blocks: Ghost(Seq::empty()),
        };
        assert(r.data@ =~= blocks_bytes(r.blocks@));
        assert(r.added() =~= Seq::<(Seq<u8>, Seq<u8>)>::empty());
        assert(r.keys@.map_values(|k: Vec<u8>| k@) =~= keys_of(r.added()));
        r
    }

    /// Adds an entry; keys must come in strictly ascending order.
    pub fn add(&mut self, key: &[u8], value: &[u8]) -> (r: Result<()>)
        requires
            old(self).wf(),
            0 < key@.len() <= 65535,
            value@.len() <= 65535,
        ensures
            final(self).wf(),
            final(self).block_size() == old(self).block_size(),
            r is Ok <==> (accepts(old(self).current(), old(self).block_size(), key@.len(), value@.len())
                || blocks_bytes(old(self).blocks()).len() <= u32::MAX),
            r is Ok ==> final(self).added() == old(self).added().push((key@, value@)),
            r is Ok && accepts(old(self).current(), old(self).block_size(), key@.len(), value@.len())
                ==> final(self).blocks() == old(self).blocks() && final(self).current() == old(
                self,
            ).current().push((key@, value@)),
            r is Ok && !accepts(old(self).current(), old(self).block_size(), key@.len(), value@.len())
                ==> final(self).blocks() == old(self).blocks().push(old(self).current())
                && final(self).current() == seq![(key@, value@)],
            r is Err ==> r->Err_0 is Format && final(self).blocks() == old(self).blocks()
                && final(self).current() == old(self).current(),
            old(self).partitioned() ==> final(self).partitioned(),
    {
        let ghost old_added = self.added();
        if self.current_block.is_empty() {
            self.current_first_key = Some(bytes_to_vec(key));
        }
        if !self.current_block.add(key, value) {
            match self.flush_current_block() {
                Ok(()) => {},
                Err(e) => {
                    return Err(e);
                },
            }
            self.current_first_key = Some(bytes_to_vec(key));
            let added = self.current_block.add(key, value);
            if !added {
                return Err(format_error("entry too large for block"));
            }
            assert(self.current_block.entries() =~= seq![(key@, value@)]);
        }
        self.keys.push(bytes_to_vec(key));
        proof {
            assert(self.added() =~= old_added.push((key@, value@)));
            assert(self.added().drop_last() =~= old_added);
            assert(keys_of(self.added()) =~= keys_of(old_added).push(key@));
            assert(self.keys@.map_values(|k: Vec<u8>| k@) =~= keys_of(self.added()));
        }
        Ok(())
    }

    /// Finishes the table: returns its handle and the bytes of its file.
    pub fn build(self, id: usize) -> (r: Result<(SsTable, Vec<u8>)>)
        requires
            self.wf(),
        ensures
            r is Ok <==> build_succeeds(self),
            r is Err ==> r->Err_0 is Format,
            r is Ok ==> built_table(self, id, r->Ok_0.0, r->Ok_0.1@),
    {
        let ghost blocks = finished_blocks(self.blocks(), self.current());
        let ghost added = self.added();
        let ghost b0 = self;
        proof {
            if b0.current().len() > 0 {
                assert(blocks.drop_last() =~= b0.blocks());
            }
        }
        let mut this = self;
        match this.flush_current_block() {
            Ok(()) => {},
            Err(e) => {
                return Err(e);
            },
        }
        assert(this.blocks() == blocks);
        if this.data.len() > u32::MAX as usize {
            return Err(format_error("sstable data too large"));
        }
        proof {
            lemma_blocks_index(this.block_meta@, blocks);
        }
        let data_checksum = crc32(this.data.as_slice());
        proof {
            lemma_first_keys(this.block_meta@, blocks);
        }
        let index_bytes = match build_index_block(&this.block_meta) {
            Ok(b) => b,
            Err(e) => {
                return Err(e);
            },
        };
        if index_bytes.len() > u32::MAX as usize {
            return Err(format_error("index block too large"));
        }
        let index_checksum = crc32(index_bytes.as_slice());
        assert(this.keys@.map_values(|k: Vec<u8>| k@) == keys_of(added));
        assert(this.keys@.map_values(|k: Vec<u8>| k@).len() == this.keys@.len());
        assert(keys_of(added).len() == added.len());
        if this.keys.len() > (usize::MAX - 64) / BLOOM_BITS_PER_KEY {
            return Err(format_error("too many keys"));
        }
        let bloom = Bloom::build_from_keys(this.keys.as_slice(), BLOOM_BITS_PER_KEY);
        let mut bloom_bytes: Vec<u8> = Vec::new();
        bloom.encode(&mut bloom_bytes);
        if bloom_bytes.len() > u32::MAX as usize {
            return Err(format_error("bloom filter too large"));
        }
        let bloom_checksum = crc32(bloom_bytes.as_slice());
        let index_offset = this.data.len() as u64;
        let index_len = index_bytes.len() as u64;
        let bloom_offset = index_offset + index_len;
        let bloom_len = bloom_bytes.len() as u64;
        let file_size = bloom_offset + bloom_len + 8 + FOOTER_SIZE as u64;
        let footer = Footer::new(file_size, data_checksum, index_checksum, bloom_checksum);
        proof {
            lemma_footer_round_trip(footer);
            lemma_le32_round_trip(bloom_len as u32);
            lemma_le32_round_trip(index_len as u32);
        }
        let file = assemble_file(this.data.as_slice(), index_bytes.as_slice(), bloom_bytes.as_slice(), &footer);
        let table = SsTable {
            id,
            block_meta: this.block_meta,
            index_offset,
            index_len,
            bloom_offset,
            bloom_len,
            footer,
            data: this.data,
            bloom,
        };
        Ok((table, file))
    }

    /// Moves the block being filled, if any, into the data.
    fn flush_current_block(&mut self) -> (r: Result<()>)
        requires
            old(self).wf(),
        ensures
            final(self).wf(),
            final(self).block_size() == old(self).block_size(),
            final(self).added() == old(self).added(),
            old(self).current().len() == 0 ==> r is Ok && final(self).blocks() == old(self).blocks()
                && final(self).current() == old(self).current(),
            old(self).current().len() > 0 ==> (r is Ok <==> blocks_bytes(old(self).blocks()).len()
                <= u32::MAX),
            old(self).current().len() > 0 && r is Ok ==> final(self).blocks() == old(
                self,
            ).blocks().push(old(self).current()) && final(self).current().len() == 0,
            r is Err ==> r->Err_0 is Format && final(self).blocks() == old(self).blocks()
                && final(self).current() == old(self).current(),
    {
        if self.current_block.is_empty() {
            return Ok(());
        }
        if self.data.len() > u32::MAX as usize {
            return Err(format_error("sstable data too large"));
        }
        let first_key = match self.current_first_key.take() {
            Some(k) => k,
            None => {
                return Err(format_error("missing block first key"));
            },
        };
        let ghost old_blocks = self.blocks@;
        let ghost old_added = self.added();
        let ghost cur = self.current_block.entries();
        let mut block_builder = BlockBuilder::new(self.block_size);
        std::mem::swap(&mut self.current_block, &mut block_builder);
        let block = block_builder.build();
        proof {
            lemma_entry_starts_len(cur);
        }
        let encoded = block.encode();
        let offset = self.data.len() as u32;
        put_bytes(&mut self.data, encoded.as_slice());
        self.block_meta.push(BlockMeta { offset, first_key });
        let ghost new_blocks = old_blocks.push(cur);
        self.blocks = Ghost(new_blocks);
        proof {
            assert(new_blocks.drop_last() =~= old_blocks);
            assert(self.data@ =~= blocks_bytes(new_blocks));
            assert forall|i: int| 0 <= i < new_blocks.len() implies {
                &&& (#[trigger] self.block_meta@[i]).offset as int == blocks_bytes(
                    new_blocks.take(i),
                ).len()
                &&& self.block_meta@[i].first_key@ == new_blocks[i][0].0
            } by {
                if i < old_blocks.len() {
                    assert(new_blocks.take(i) =~= old_blocks.take(i));
                } else {
                    assert(new_blocks.take(i) =~= old_blocks);
                }
            }
            assert(self.current_block.entries() =~= Seq::<(Seq<u8>, Seq<u8>)>::empty());
            assert(flatten(new_blocks) == flatten(old_blocks) + cur);
            assert(self.added() =~= old_added);
        }
        Ok(())
    }
}

} // verus!

verus! {

/// Keys in strictly ascending order.
pub open spec fn strictly_ascending(es: Seq<(Seq<u8>, Seq<u8>)>) -> bool {
    forall|i: int, j: int| 0 <= i < j < es.len() ==> key_lt(#[trigger] es[i].0, #[trigger] es[j].0)
}

proof fn lemma_flatten_step(blocks: Seq<Seq<(Seq<u8>, Seq<u8>)>>, i: int)
    requires
        0 <= i < blocks.len(),
    ensures
        flatten(blocks.take(i + 1)) == flatten(blocks.take(i)) + blocks[i],
{
    assert(blocks.take(i + 1).drop_last() =~= blocks.take(i));
}

proof fn lemma_flatten_mono(blocks: Seq<Seq<(Seq<u8>, Seq<u8>)>>, i: int, k: int)
    requires
        0 <= i <= k <= blocks.len(),
    ensures
        flatten(blocks.take(i)).len() <= flatten(blocks.take(k)).len(),
    decreases k - i,
{
    if i < k {
        lemma_flatten_step(blocks, k - 1);
        lemma_flatten_mono(blocks, i, k - 1);
    }
}

proof fn lemma_flatten_at(blocks: Seq<Seq<(Seq<u8>, Seq<u8>)>>, bi: int, j: int)
    requires
        0 <= bi < blocks.len(),
        0 <= j < blocks[bi].len(),
    ensures
        flatten(blocks.take(bi)).len() + j < flatten(blocks).len(),
        flatten(blocks)[flatten(blocks.take(bi)).len() + j] == blocks[bi][j],
    decreases blocks.len(),
{
    let p = blocks.drop_last();
    if bi == blocks.len() - 1 {
        assert(blocks.take(bi) =~= p);
    } else {
        assert(p.take(bi) =~= blocks.take(bi));
        lemma_flatten_at(p, bi, j);
    }
}

proof fn lemma_flatten_locate(blocks: Seq<Seq<(Seq<u8>, Seq<u8>)>>, m: int) -> (r: (int, int))
    requires
        0 <= m < flatten(blocks).len(),
    ensures
        0 <= r.0 < blocks.len(),
        0 <= r.1 < blocks[r.0].len(),
        m == flatten(blocks.take(r.0)).len() + r.1,
    decreases blocks.len(),
{
    let p = blocks.drop_last();
    if m < flatten(p).len() {
        let r = lemma_flatten_locate(p, m);
        assert(p.take(r.0) =~= blocks.take(r.0));
        r
    } else {
        assert(blocks.take(blocks.len() - 1) =~= p);
        (blocks.len() - 1, m - flatten(p).len())
    }
}

proof fn lemma_blocks_prefix(blocks: Seq<Seq<(Seq<u8>, Seq<u8>)>>, i: int)
    requires
        0 <= i <= blocks.len(),
    ensures
        blocks_bytes(blocks.take(i)).len() <= blocks_bytes(blocks).len(),
        blocks_bytes(blocks).subrange(0, blocks_bytes(blocks.take(i)).len() as int) == blocks_bytes(
            blocks.take(i),
        ),
    decreases blocks.len(),
{
    if i == blocks.len() {
        assert(blocks.take(i) =~= blocks);
        assert(blocks_bytes(blocks).subrange(0, blocks_bytes(blocks).len() as int) =~= blocks_bytes(
            blocks,
        ));
    } else {
        let p = blocks.drop_last();
        assert(p.take(i) =~= blocks.take(i));
        lemma_blocks_prefix(p, i);
        let n = blocks_bytes(blocks.take(i)).len() as int;
        assert(blocks_bytes(blocks).subrange(0, n) =~= blocks_bytes(p).subrange(0, n));
    }
}

proof fn lemma_block_region(blocks: Seq<Seq<(Seq<u8>, Seq<u8>)>>, i: int)
    requires
        0 <= i < blocks.len(),
    ensures
        blocks_bytes(blocks.take(i + 1)).len() <= blocks_bytes(blocks).len(),
        blocks_bytes(blocks.take(i + 1)).len() == blocks_bytes(blocks.take(i)).len()
            + block_bytes(entries_bytes(blocks[i]), entry_starts(blocks[i])).len(),
        blocks_bytes(blocks).subrange(
            blocks_bytes(blocks.take(i)).len() as int,
            blocks_bytes(blocks.take(i + 1)).len() as int,
        ) == block_bytes(entries_bytes(blocks[i]), entry_starts(blocks[i])),
{
    let t = blocks.take(i + 1);
    assert(t.drop_last() =~= blocks.take(i));
    lemma_blocks_prefix(blocks, i + 1);
    let a = blocks_bytes(blocks.take(i)).len() as int;
    let b = blocks_bytes(t).len() as int;
    assert(blocks_bytes(blocks).subrange(a, b) =~= blocks_bytes(t).subrange(a, b));
    assert(blocks_bytes(t).subrange(a, b) =~= block_bytes(
        entries_bytes(blocks[i]),
        entry_starts(blocks[i]),
    ));
}

/// The candidate block is the last one whose first key is at most `key`.
proof fn lemma_candidate(metas: Seq<BlockMeta>, key: Seq<u8>, n: int, bi: int)
    requires
        0 <= bi < n <= metas.len(),
        key_le(metas[bi].first_key@, key),
        forall|i: int| bi < i < n ==> !key_le(#[trigger] metas[i].first_key@, key),
    ensures
        candidate_block(metas, key, n) == Some(bi),
    decreases n,
{
    if n - 1 > bi {
        lemma_candidate(metas, key, n - 1, bi);
    }
}

proof fn lemma_candidate_range(metas: Seq<BlockMeta>, key: Seq<u8>, n: int)
    requires
        n <= metas.len(),
    ensures
        candidate_block(metas, key, n) matches Some(c) ==> 0 <= c < n,
    decreases n,
{
    if n > 0 {
        lemma_candidate_range(metas, key, n - 1);
    }
}

proof fn lemma_scan_skip(d: Seq<u8>, o: Seq<u16>, key: Seq<u8>, j: int, target: int)
    requires
        0 <= j <= target <= o.len(),
        forall|i: int| j <= i < target ==> #[trigger] entry_readable(d, o, i) && entry_key(d, o, i) != key,
    ensures
        scan_block(d, o, key, j) == scan_block(d, o, key, target),
    decreases target - j,
{
    if j < target {
        lemma_scan_skip(d, o, key, j + 1, target);
    }
}

/// The region of the data that block `bi`'s description delimits decodes to
/// that block's entries.
proof fn lemma_table_block(
    data: Seq<u8>,
    metas: Seq<BlockMeta>,
    blocks: Seq<Seq<(Seq<u8>, Seq<u8>)>>,
    bi: int,
)
    requires
        data == blocks_bytes(blocks),
        metas_describe(metas, blocks),
        blocks_ok(blocks),
        0 <= bi < blocks.len(),
    ensures
        ({
            let start = metas[bi].offset as int;
            let end = block_end(data, metas, bi);
            let b = data.subrange(start, end);
            &&& start <= end <= data.len()
            &&& block_decodable(b)
            &&& decoded_data(b) == entries_bytes(blocks[bi])
            &&& decoded_offsets(b) == entry_starts(blocks[bi])
        }),
{
    let blk = blocks[bi];
    lemma_block_region(blocks, bi);
    if bi + 1 < blocks.len() {
        assert(metas[bi + 1].offset as int == blocks_bytes(blocks.take(bi + 1)).len());
    } else {
        assert(blocks.take(bi + 1) =~= blocks);
    }
    assert(blk.len() > 0 && entries_encodable(blk));
    lemma_block_round_trip(blk);
    lemma_entry_starts_len(blk);
    let start = metas[bi].offset as int;
    let end = block_end(data, metas, bi);
    let b = data.subrange(start, end);
    assert(b == block_bytes(entries_bytes(blk), entry_starts(blk)));
    assert(decoded_offsets(b) =~= entry_starts(blk));
}

/// A table built from a builder holds exactly the builder's entries, block by
/// block, and each block is non-empty and can be encoded.
pub proof fn lemma_built_blocks(b: SsTableBuilder)
    requires
        b.wf(),
    ensures
        flatten(finished_blocks(b.blocks(), b.current())) == b.added(),
        blocks_ok(finished_blocks(b.blocks(), b.current())),
{
    let blocks = finished_blocks(b.blocks(), b.current());
    lemma_builder_encodable(b.current_block);
    if b.current().len() > 0 {
        assert(blocks.drop_last() =~= b.blocks());
        assert forall|i: int| 0 <= i < blocks.len() implies (#[trigger] blocks[i]).len() > 0
            && entries_encodable(blocks[i]) by {
            if i < b.blocks().len() {
                assert(blocks[i] == b.blocks()[i]);
            }
        }
    } else {
        assert(b.added() =~= flatten(b.blocks()));
    }
}

/// No false negatives: every key written into a builder passes the Bloom
/// filter of the table built from it.
pub proof fn lemma_sst_bloom_sound(b: SsTableBuilder, id: usize, t: SsTable, file: Seq<u8>, m: int)
    requires
        b.wf(),
        built_table(b, id, t, file),
        0 <= m < b.added().len(),
    ensures
        filter_matches(t.bloom.filter@, t.bloom.k as nat, key_fingerprint(b.added()[m].0)),
{
    let hs = fingerprints(keys_of(b.added()));
    assert(hs[m] == key_fingerprint(b.added()[m].0));
    lemma_bloom_no_false_negatives(t.bloom.filter@, hs, t.bloom.k as nat, m);
}

/// The candidate block for the key of entry `m` is the block that holds it.
proof fn lemma_candidate_written(
    metas: Seq<BlockMeta>,
    blocks: Seq<Seq<(Seq<u8>, Seq<u8>)>>,
    m: int,
    bi: int,
    j: int,
)
    requires
        metas_describe(metas, blocks),
        blocks_ok(blocks),
        strictly_ascending(flatten(blocks)),
        0 <= bi < blocks.len(),
        0 <= j < blocks[bi].len(),
        m == flatten(blocks.take(bi)).len() + j,
    ensures
        candidate_block(metas, flatten(blocks)[m].0, metas.len() as int) == Some(bi),
{
    let es = flatten(blocks);
    let key = es[m].0;
    let base = flatten(blocks.take(bi)).len() as int;
    lemma_flatten_at(blocks, bi, j);
    lemma_flatten_at(blocks, bi, 0);
    assert(metas[bi].first_key@ == es[base].0);
    if base < m {
        assert(key_lt(es[base].0, es[m].0));
    }
    assert forall|i: int| bi < i < metas.len() implies !key_le(#[trigger] metas[i].first_key@, key) by {
        lemma_flatten_step(blocks, bi);
        lemma_flatten_mono(blocks, bi + 1, i);
        assert(blocks[i].len() > 0);
        lemma_flatten_at(blocks, i, 0);
        let pi = flatten(blocks.take(i)).len() as int;
        assert(metas[i].first_key@ == es[pi].0);
        assert(key_lt(es[m].0, es[pi].0));
        lemma_key_lt_not_le(es[m].0, es[pi].0);
    }
    lemma_candidate(metas, key, metas.len() as int, bi);
}

/// Scanning the block that holds entry `m` finds its value.
proof fn lemma_scan_written(blocks: Seq<Seq<(Seq<u8>, Seq<u8>)>>, m: int, bi: int, j: int)
    requires
        blocks_ok(blocks),
        strictly_ascending(flatten(blocks)),
        0 <= bi < blocks.len(),
        0 <= j < blocks[bi].len(),
        m == flatten(blocks.take(bi)).len() + j,
    ensures
        scan_block(entries_bytes(blocks[bi]), entry_starts(blocks[bi]), flatten(blocks)[m].0, 0)
            == Some(Some(flatten(blocks)[m].1)),
{
    let es = flatten(blocks);
    let key = es[m].0;
    let blk = blocks[bi];
    let base = flatten(blocks.take(bi)).len() as int;
    assert(blk.len() > 0 && entries_encodable(blk));
    let d = entries_bytes(blk);
    let o = entry_starts(blk);
    lemma_entry_starts_len(blk);
    lemma_entry_readable(blk, j);
    lemma_flatten_at(blocks, bi, j);
    assert forall|i: int| 0 <= i < j implies #[trigger] entry_readable(d, o, i) && entry_key(d, o, i)
        != key by {
        lemma_entry_readable(blk, i);
        lemma_flatten_at(blocks, bi, i);
        assert(key_lt(es[base + i].0, es[m].0));
        lemma_key_lt_not_le(es[base + i].0, es[m].0);
    }
    lemma_scan_skip(d, o, key, 0, j);
    assert(entry_readable(d, o, j));
}

/// In blocks laid out back to back and described by `metas`, the key of
/// every entry reads back its value.
proof fn lemma_lookup_written(
    data: Seq<u8>,
    metas: Seq<BlockMeta>,
    blocks: Seq<Seq<(Seq<u8>, Seq<u8>)>>,
    m: int,
)
    requires
        data == blocks_bytes(blocks),
        metas_describe(metas, blocks),
        blocks_ok(blocks),
        strictly_ascending(flatten(blocks)),
        0 <= m < flatten(blocks).len(),
    ensures
        table_lookup(data, metas, flatten(blocks)[m].0) == Some(Some(flatten(blocks)[m].1)),
{
    let (bi, j) = lemma_flatten_locate(blocks, m);
    let key = flatten(blocks)[m].0;
    lemma_candidate_written(metas, blocks, m, bi, j);
    lemma_table_block(data, metas, blocks, bi);
    lemma_scan_written(blocks, m, bi, j);
    let b = data.subrange(metas[bi].offset as int, block_end(data, metas, bi));
    assert(scan_block(decoded_data(b), decoded_offsets(b), key, 0) == Some(
        Some(flatten(blocks)[m].1),
    ));
}

/// In blocks laid out back to back and described by `metas`, a key that no
/// entry has reads back as absent.
proof fn lemma_lookup_absent(
    data: Seq<u8>,
    metas: Seq<BlockMeta>,
    blocks: Seq<Seq<(Seq<u8>, Seq<u8>)>>,
    key: Seq<u8>,
)
    requires
        data == blocks_bytes(blocks),
        metas_describe(metas, blocks),
        blocks_ok(blocks),
        forall|m: int| 0 <= m < flatten(blocks).len() ==> (#[trigger] flatten(blocks)[m]).0 != key,
    ensures
        table_lookup(data, metas, key) == Some(None::<Seq<u8>>),
{
    lemma_candidate_range(metas, key, metas.len() as int);
    match candidate_block(metas, key, metas.len() as int) {
        None => {},
        Some(c) => {
            let b = data.subrange(metas[c].offset as int, block_end(data, metas, c));
            lemma_table_block(data, metas, blocks, c);
            lemma_scan_absent(blocks, c, key);
            assert(scan_block(decoded_data(b), decoded_offsets(b), key, 0) == Some(None::<Seq<u8>>));
        },
    }
}

/// Scanning any block for a key that no entry has finds nothing.
proof fn lemma_scan_absent(blocks: Seq<Seq<(Seq<u8>, Seq<u8>)>>, c: int, key: Seq<u8>)
    requires
        blocks_ok(blocks),
        0 <= c < blocks.len(),
        forall|m: int| 0 <= m < flatten(blocks).len() ==> (#[trigger] flatten(blocks)[m]).0 != key,
    ensures
        scan_block(entries_bytes(blocks[c]), entry_starts(blocks[c]), key, 0) == Some(None::<Seq<u8>>),
{
    let blk = blocks[c];
    assert(blk.len() > 0 && entries_encodable(blk));
    lemma_entry_starts_len(blk);
    let d = entries_bytes(blk);
    let o = entry_starts(blk);
    let base = flatten(blocks.take(c)).len() as int;
    assert forall|i: int| 0 <= i < o.len() implies #[trigger] entry_readable(d, o, i) && entry_key(
        d,
        o,
        i,
    ) != key by {
        lemma_entry_readable(blk, i);
        lemma_flatten_at(blocks, c, i);
        assert(flatten(blocks)[base + i] == blk[i]);
    }
    lemma_scan_skip(d, o, key, 0, o.len() as int);
}

/// Every key written, in strictly ascending order, into a builder reads back
/// its value from the table built from it.
pub proof fn lemma_sst_get_written(b: SsTableBuilder, id: usize, t: SsTable, file: Seq<u8>, m: int)
    requires
        b.wf(),
        strictly_ascending(b.added()),
        built_table(b, id, t, file),
        0 <= m < b.added().len(),
    ensures
        sst_lookup(t, b.added()[m].0) == Some(Some(b.added()[m].1)),
{
    lemma_sst_bloom_sound(b, id, t, file, m);
    lemma_built_blocks(b);
    lemma_lookup_written(t.data@, t.block_meta@, finished_blocks(b.blocks(), b.current()), m);
}

/// A key that was not written into a builder reads back as absent from the
/// table built from it.
pub proof fn lemma_sst_get_absent(b: SsTableBuilder, id: usize, t: SsTable, file: Seq<u8>, key: Seq<u8>)
    requires
        b.wf(),
        built_table(b, id, t, file),
        forall|m: int| 0 <= m < b.added().len() ==> (#[trigger] b.added()[m]).0 != key,
    ensures
        sst_lookup(t, key) == Some(None::<Seq<u8>>),
{
    lemma_built_blocks(b);
    lemma_lookup_absent(t.data@, t.block_meta@, finished_blocks(b.blocks(), b.current()), key);
}

} // verus!
