//! Data blocks: sorted entries packed back to back, followed by the entry
//! start offsets and the entry count.
use vstd::prelude::*;
use crate::codec::{get_u16_le, le16, put_bytes, put_u16_le, read_le16, lemma_le16_round_trip};

verus! {

/// The size in bytes of a `u16` in the block layout.
pub const SIZEOF_U16: usize = 2;

/// One encoded entry: `key_len | key | value_len | value`.
pub open spec fn entry_bytes(key: Seq<u8>, value: Seq<u8>) -> Seq<u8> {
    le16(key.len() as u16) + key + le16(value.len() as u16) + value
}

/// The entries of `es` encoded back to back.
pub open spec fn entries_bytes(es: Seq<(Seq<u8>, Seq<u8>)>) -> Seq<u8>
    decreases es.len(),
{
    if es.len() == 0 {
        Seq::empty()
    } else {
        entries_bytes(es.drop_last()) + entry_bytes(es.last().0, es.last().1)
    }
}

/// The position at which each entry of `es` starts in `entries_bytes(es)`.
pub open spec fn entry_starts(es: Seq<(Seq<u8>, Seq<u8>)>) -> Seq<u16>
    decreases es.len(),
{
    if es.len() == 0 {
        Seq::empty()
    } else {
        entry_starts(es.drop_last()).push(entries_bytes(es.drop_last()).len() as u16)
    }
}

/// The offsets encoded back to back, each as two little-endian bytes.
pub open spec fn offsets_bytes(offsets: Seq<u16>) -> Seq<u8>
    decreases offsets.len(),
{
    if offsets.len() == 0 {
        Seq::empty()
    } else {
        offsets_bytes(offsets.drop_last()) + le16(offsets.last())
    }
}

/// A sequence of entries that a block can hold: non-empty keys, lengths that
/// fit the 16-bit length fields, and start offsets and a count that fit too.
pub open spec fn entries_encodable(es: Seq<(Seq<u8>, Seq<u8>)>) -> bool {
    &&& es.len() <= 65535
    &&& forall|i: int|
        0 <= i < es.len() ==> 0 < (#[trigger] es[i]).0.len() <= 65535 && es[i].1.len() <= 65535
    &&& es.len() > 0 ==> entries_bytes(es.drop_last()).len() <= 65535
}

/// The encoded form of a block with these data bytes and offsets.
pub open spec fn block_bytes(data: Seq<u8>, offsets: Seq<u16>) -> Seq<u8> {
    data + offsets_bytes(offsets) + le16(offsets.len() as u16)
}

/// Bytes that `Block::decode` accepts: a count field, and room for that many
/// offsets before it.
pub open spec fn block_decodable(bytes: Seq<u8>) -> bool {
    &&& bytes.len() >= 2
    &&& 2 + 2 * read_le16(bytes, bytes.len() - 2) <= bytes.len()
}

/// The entry count stored at the end of an encoded block.
pub open spec fn decoded_count(bytes: Seq<u8>) -> int {
    read_le16(bytes, bytes.len() - 2)
}

/// Where the data section of an encoded block ends.
pub open spec fn decoded_data_end(bytes: Seq<u8>) -> int {
    bytes.len() - 2 - 2 * decoded_count(bytes)
}

/// The data section of an encoded block.
pub open spec fn decoded_data(bytes: Seq<u8>) -> Seq<u8> {
    bytes.subrange(0, decoded_data_end(bytes))
}

/// The offsets of an encoded block.
pub open spec fn decoded_offsets(bytes: Seq<u8>) -> Seq<u16> {
    Seq::new(decoded_count(bytes) as nat, |i: int| decoded_offset(bytes, i) as u16)
}

/// The `i`-th offset of an encoded block.
pub open spec fn decoded_offset(bytes: Seq<u8>, i: int) -> int {
    read_le16(bytes, decoded_data_end(bytes) + 2 * i)
}

/// Where entry `i` ends: the next entry's start, or the end of the data.
pub open spec fn entry_end(data: Seq<u8>, offsets: Seq<u16>, i: int) -> int {
    if i + 1 < offsets.len() {
        offsets[i + 1] as int
    } else {
        data.len() as int
    }
}

/// The key length field of entry `i`.
pub open spec fn entry_key_len(data: Seq<u8>, offsets: Seq<u16>, i: int) -> int {
    read_le16(data, offsets[i] as int)
}

/// The value length field of entry `i`.
pub open spec fn entry_value_len(data: Seq<u8>, offsets: Seq<u16>, i: int) -> int {
    read_le16(data, offsets[i] + 2 + entry_key_len(data, offsets, i))
}

/// Entry `i` exists and its key and value lie within its extent.
pub open spec fn entry_readable(data: Seq<u8>, offsets: Seq<u16>, i: int) -> bool {
    let start = offsets[i] as int;
    let end = entry_end(data, offsets, i);
    &&& 0 <= i < offsets.len()
    &&& end <= data.len()
    &&& start + 2 <= end
    &&& start + 4 + entry_key_len(data, offsets, i) <= end
    &&& start + 4 + entry_key_len(data, offsets, i) + entry_value_len(data, offsets, i) <= end
}

/// The key of entry `i`.
pub open spec fn entry_key(data: Seq<u8>, offsets: Seq<u16>, i: int) -> Seq<u8> {
    let start = offsets[i] as int;
    data.subrange(start + 2, start + 2 + entry_key_len(data, offsets, i))
}

/// The value of entry `i`.
pub open spec fn entry_value(data: Seq<u8>, offsets: Seq<u16>, i: int) -> Seq<u8> {
    let vstart = offsets[i] + 4 + entry_key_len(data, offsets, i);
    data.subrange(vstart, vstart + entry_value_len(data, offsets, i))
}

/// A data block in an SSTable.
pub struct Block {
    pub data: Vec<u8>,
    pub offsets: Vec<u16>,
}

impl Block {
    /// Whether `data` has the shape `Block::decode` needs.
    pub fn can_decode(data: &[u8]) -> (r: bool)
        ensures
            r == block_decodable(data@),
    {
        let len = data.len();
        if len < SIZEOF_U16 {
            return false;
        }
        let num = get_u16_le(data, len - SIZEOF_U16) as usize;
        SIZEOF_U16 + 2 * num <= len
    }

    /// Decodes an encoded block.
    pub fn decode(data: &[u8]) -> (r: Block)
        requires
            block_decodable(data@),
        ensures
            r.data@ == decoded_data(data@),
            r.offsets@.len() == decoded_count(data@),
            forall|i: int|
                0 <= i < r.offsets@.len() ==> #[trigger] r.offsets@[i] as int == decoded_offset(
                    data@,
                    i,
                ),
    {
        let len = data.len();
        let num = get_u16_le(data, len - SIZEOF_U16) as usize;
        let data_end = len - SIZEOF_U16 - num * SIZEOF_U16;
        let mut offsets: Vec<u16> = Vec::new();
        let mut i: usize = 0;
        while i < num
            invariant
                i <= num,
                num == decoded_count(data@),
                data_end == decoded_data_end(data@),
                len == data@.len(),
                data_end + 2 * num + 2 == len,
                offsets@.len() == i,
                forall|j: int| 0 <= j < i ==> #[trigger] offsets@[j] as int == decoded_offset(data@, j),
            decreases num - i,
        {
            let off = get_u16_le(data, data_end + i * SIZEOF_U16);
            offsets.push(off);
            i = i + 1;
        }
        let mut bytes: Vec<u8> = Vec::new();
        put_bytes(&mut bytes, vstd::slice::slice_subrange(data, 0, data_end));
        assert(bytes@ =~= decoded_data(data@));
        Block { data: bytes, offsets }
    }

    /// Encodes the block: data, then the offsets, then the count.
    pub fn encode(&self) -> (r: Vec<u8>)
        requires
            self.offsets@.len() <= 65535,
        ensures
            r@ == block_bytes(self.data@, self.offsets@),
    {
        let mut buf: Vec<u8> = Vec::new();
        put_bytes(&mut buf, self.data.as_slice());
        let mut i: usize = 0;
        while i < self.offsets.len()
            invariant
                i <= self.offsets@.len(),
                buf@ == self.data@ + offsets_bytes(self.offsets@.take(i as int)),
            decreases self.offsets@.len() - i,
        {
            put_u16_le(&mut buf, self.offsets[i]);
            proof {
                let t = self.offsets@.take(i + 1);
                assert(t.drop_last() =~= self.offsets@.take(i as int));
            }
            i = i + 1;
        }
        assert(self.offsets@.take(self.offsets@.len() as int) =~= self.offsets@);
        put_u16_le(&mut buf, self.offsets.len() as u16);
        buf
    }

    /// The key and value of entry `idx`.
    pub fn get_entry(&self, idx: usize) -> (r: (&[u8], &[u8]))
        requires
            entry_readable(self.data@, self.offsets@, idx as int),
        ensures
            r.0@ == entry_key(self.data@, self.offsets@, idx as int),
            r.1@ == entry_value(self.data@, self.offsets@, idx as int),
    {
        let start = self.offsets[idx] as usize;
        let data = self.data.as_slice();
        let key_len = get_u16_le(data, start) as usize;
        let key = vstd::slice::slice_subrange(data, start + 2, start + 2 + key_len);
        let value_len = get_u16_le(data, start + 2 + key_len) as usize;
        let value = vstd::slice::slice_subrange(
            data,
            start + 4 + key_len,
            start + 4 + key_len + value_len,
        );
        (key, value)
    }

    /// Whether entry `idx` exists and lies within the block.
    pub fn has_entry(&self, idx: usize) -> (r: bool)
        ensures
            r == entry_readable(self.data@, self.offsets@, idx as int),
    {
        if idx >= self.offsets.len() {
            return false;
        }
        let start = self.offsets[idx] as usize;
        let end = if idx + 1 < self.offsets.len() {
            self.offsets[idx + 1] as usize
        } else {
            self.data.len()
        };
        if end > self.data.len() || start + 2 > end {
            return false;
        }
        let data = self.data.as_slice();
        let key_len = get_u16_le(data, start) as usize;
        if start + 4 + key_len > end {
            return false;
        }
        let value_len = get_u16_le(data, start + 2 + key_len) as usize;
        start + 4 + key_len + value_len <= end
    }
}

/// Builds a block with a target size.
pub struct BlockBuilder {
    offsets: Vec<u16>,
    data: Vec<u8>,
    block_size: usize,
    entries: Ghost<Seq<(Seq<u8>, Seq<u8>)>>,
}

/// The size a block would have after adding an entry with these key and value
/// lengths: data, offsets, the new entry, its offset and the count field.
pub open spec fn projected_size(es: Seq<(Seq<u8>, Seq<u8>)>, key_len: nat, value_len: nat) -> nat {
    entries_bytes(es).len() + 2 * es.len() + 2 + key_len + 2 + value_len + 2 + 2
}

/// Whether a builder holding `es` with target `block_size` takes one more
/// entry: an empty builder always does; otherwise the projected size must stay
/// within the target and the new entry's offset must fit its 16-bit field.
pub open spec fn accepts(
    es: Seq<(Seq<u8>, Seq<u8>)>,
    block_size: nat,
    key_len: nat,
    value_len: nat,
) -> bool {
    es.len() == 0 || (projected_size(es, key_len, value_len) <= block_size
        && entries_bytes(es).len() <= 65535)
}

impl BlockBuilder {
    /// The entries added so far, in order.
    pub closed spec fn entries(&self) -> Seq<(Seq<u8>, Seq<u8>)> {
        self.entries@
    }

    /// The target size in bytes.
    pub closed spec fn block_size(&self) -> nat {
        self.block_size as nat
    }

    /// The data and offsets are the encoding of the entries added so far.
    pub closed spec fn wf(&self) -> bool {
        &&& self.data@ == entries_bytes(self.entries@)
        &&& self.offsets@ == entry_starts(self.entries@)
        &&& entries_encodable(self.entries@)
        &&& 5 * self.entries@.len() <= self.data@.len()
        &&& self.data@.len() <= 200000
    }

    pub fn new(block_size: usize) -> (r: Self)
        ensures
            r.wf(),
            r.entries() == Seq::<(Seq<u8>, Seq<u8>)>::empty(),
            r.block_size() == block_size,
    {
        let r = Self {
            offsets: Vec::new(),
            data: Vec::new(),
            block_size,
            entries: Ghost(Seq::empty()),
        };
        assert(r.data@ =~= entries_bytes(r.entries@));
        assert(r.offsets@ =~= entry_starts(r.entries@));
        r
    }

    /// Adds a key-value pair to the block. Returns false if the block is full.
    pub fn add(&mut self, key: &[u8], value: &[u8]) -> (r: bool)
        requires
            old(self).wf(),
            0 < key@.len() <= 65535,
            value@.len() <= 65535,
        ensures
            final(self).wf(),
            final(self).block_size() == old(self).block_size(),
            r == accepts(old(self).entries(), old(self).block_size(), key@.len(), value@.len()),
            final(self).entries() == if r {
                old(self).entries().push((key@, value@))
            } else {
                old(self).entries()
            },
    {
        let ghost es = self.entries@;
        proof {
            lemma_entry_starts_len(es);
        }
        let entry_size = SIZEOF_U16 + key.len() + SIZEOF_U16 + value.len();
        let metadata_increase = SIZEOF_U16;
        let total_size_after = self.data.len() + (self.offsets.len() * SIZEOF_U16) + entry_size
            + metadata_increase + SIZEOF_U16;
        if !self.is_empty() && (total_size_after > self.block_size || self.data.len() > 65535) {
            return false;
        }
        let ghost new_es = es.push((key@, value@));
        proof {
            assert(new_es.drop_last() =~= es);
        }
        self.offsets.push(self.data.len() as u16);
        put_u16_le(&mut self.data, key.len() as u16);
        put_bytes(&mut self.data, key);
        put_u16_le(&mut self.data, value.len() as u16);
        put_bytes(&mut self.data, value);
        self.entries = Ghost(new_es);
        assert(self.data@ =~= entries_bytes(new_es));
        true
    }

    pub fn is_empty(&self) -> (r: bool)
        requires
            self.wf(),
        ensures
            r == (self.entries().len() == 0),
    {
        proof {
            lemma_entry_starts_len(self.entries@);
        }
        self.offsets.is_empty()
    }

    pub fn build(self) -> (r: Block)
        requires
            self.wf(),
        ensures
            r.data@ == entries_bytes(self.entries()),
            r.offsets@ == entry_starts(self.entries()),
            entries_encodable(self.entries()),
    {
        Block { data: self.data, offsets: self.offsets }
    }
}

/// The entries of a well-formed builder can be encoded as a block.
pub proof fn lemma_builder_encodable(b: BlockBuilder)
    requires
        b.wf(),
    ensures
        entries_encodable(b.entries()),
{
}

pub proof fn lemma_entry_starts_len(es: Seq<(Seq<u8>, Seq<u8>)>)
    ensures
        entry_starts(es).len() == es.len(),
    decreases es.len(),
{
    if es.len() > 0 {
        lemma_entry_starts_len(es.drop_last());
    }
}

/// Each start offset is the length of the encoding of the entries before it.
pub proof fn lemma_entry_starts(es: Seq<(Seq<u8>, Seq<u8>)>)
    ensures
        entry_starts(es).len() == es.len(),
        forall|i: int|
            0 <= i < es.len() ==> #[trigger] entry_starts(es)[i] == entries_bytes(es.take(i)).len() as u16,
    decreases es.len(),
{
    lemma_entry_starts_len(es);
    if es.len() > 0 {
        let p = es.drop_last();
        lemma_entry_starts(p);
        assert forall|i: int| 0 <= i < es.len() implies #[trigger] entry_starts(es)[i]
            == entries_bytes(es.take(i)).len() as u16 by {
            if i < p.len() {
                assert(p.take(i) =~= es.take(i));
            } else {
                assert(es.take(i) =~= p);
            }
        }
    }
}

/// The encoding of the first `i` entries is a prefix of the encoding of all.
pub proof fn lemma_entries_prefix(es: Seq<(Seq<u8>, Seq<u8>)>, i: int)
    requires
        0 <= i <= es.len(),
    ensures
        entries_bytes(es.take(i)).len() <= entries_bytes(es).len(),
        entries_bytes(es).subrange(0, entries_bytes(es.take(i)).len() as int) == entries_bytes(
            es.take(i),
        ),
    decreases es.len(),
{
    if i == es.len() {
        assert(es.take(i) =~= es);
        assert(entries_bytes(es).subrange(0, entries_bytes(es).len() as int) =~= entries_bytes(es));
    } else {
        let p = es.drop_last();
        assert(p.take(i) =~= es.take(i));
        lemma_entries_prefix(p, i);
        let n = entries_bytes(es.take(i)).len() as int;
        assert(entries_bytes(es).subrange(0, n) =~= entries_bytes(p).subrange(0, n));
    }
}

/// Entry `i` occupies the bytes between its start and the next start.
pub proof fn lemma_entry_at(es: Seq<(Seq<u8>, Seq<u8>)>, i: int)
    requires
        0 <= i < es.len(),
    ensures
        entries_bytes(es.take(i + 1)).len() <= entries_bytes(es).len(),
        entries_bytes(es.take(i + 1)) == entries_bytes(es.take(i)) + entry_bytes(es[i].0, es[i].1),
        entries_bytes(es).subrange(
            entries_bytes(es.take(i)).len() as int,
            entries_bytes(es.take(i + 1)).len() as int,
        ) == entry_bytes(es[i].0, es[i].1),
{
    let t = es.take(i + 1);
    assert(t.drop_last() =~= es.take(i));
    lemma_entries_prefix(es, i + 1);
    let a = entries_bytes(es.take(i)).len() as int;
    let b = entries_bytes(t).len() as int;
    assert(entries_bytes(es).subrange(a, b) =~= entries_bytes(t).subrange(a, b));
    assert(entries_bytes(t).subrange(a, b) =~= entry_bytes(es[i].0, es[i].1));
}

pub proof fn lemma_offsets_bytes(offsets: Seq<u16>)
    ensures
        offsets_bytes(offsets).len() == 2 * offsets.len(),
        forall|i: int|
            0 <= i < offsets.len() ==> read_le16(offsets_bytes(offsets), 2 * i)
                == #[trigger] offsets[i],
    decreases offsets.len(),
{
    if offsets.len() > 0 {
        let p = offsets.drop_last();
        lemma_offsets_bytes(p);
        lemma_le16_round_trip(offsets.last());
        let ob = offsets_bytes(offsets);
        assert forall|i: int| 0 <= i < offsets.len() implies read_le16(ob, 2 * i)
            == #[trigger] offsets[i] by {
            if i < p.len() {
                assert(ob[2 * i] == offsets_bytes(p)[2 * i]);
                assert(ob[2 * i + 1] == offsets_bytes(p)[2 * i + 1]);
                assert(offsets[i] == p[i]);
            } else {
                assert(ob[2 * i] == le16(offsets.last())[0]);
                assert(ob[2 * i + 1] == le16(offsets.last())[1]);
            }
        }
    }
}

/// Decoding the encoding of a built block gives back its data and offsets, and
/// each entry reads back as exactly the key and value that were added.
pub proof fn lemma_block_round_trip(es: Seq<(Seq<u8>, Seq<u8>)>)
    requires
        entries_encodable(es),
    ensures
        ({
            let data = entries_bytes(es);
            let offsets = entry_starts(es);
            let bytes = block_bytes(data, offsets);
            &&& block_decodable(bytes)
            &&& decoded_data(bytes) == data
            &&& decoded_count(bytes) == es.len()
            &&& forall|i: int| 0 <= i < es.len() ==> #[trigger] decoded_offset(bytes, i) == offsets[i]
            &&& forall|i: int|
                0 <= i < es.len() ==> {
                    &&& #[trigger] entry_readable(data, offsets, i)
                    &&& entry_key(data, offsets, i) == es[i].0
                    &&& entry_value(data, offsets, i) == es[i].1
                }
        }),
{
    let data = entries_bytes(es);
    let offsets = entry_starts(es);
    let bytes = block_bytes(data, offsets);
    lemma_entry_starts(es);
    lemma_offsets_bytes(offsets);
    let n = offsets.len();
    lemma_le16_round_trip(n as u16);
    let ob = offsets_bytes(offsets);
    let tail = le16(n as u16);
    assert(bytes.len() == data.len() + 2 * n + 2);
    assert(bytes[bytes.len() - 2] == tail[0]);
    assert(bytes[bytes.len() - 1] == tail[1]);
    assert(decoded_count(bytes) == n);
    assert(decoded_data(bytes) =~= data);
    assert forall|i: int| 0 <= i < es.len() implies #[trigger] decoded_offset(bytes, i)
        == offsets[i] by {
        assert(bytes[data.len() + 2 * i] == ob[2 * i]);
        assert(bytes[data.len() + 2 * i + 1] == ob[2 * i + 1]);
    }
    assert forall|i: int| 0 <= i < es.len() implies {
        &&& #[trigger] entry_readable(data, offsets, i)
        &&& entry_key(data, offsets, i) == es[i].0
        &&& entry_value(data, offsets, i) == es[i].1
    } by {
        lemma_entry_readable(es, i);
    }
}

/// An entry encoded at `s..t` of `data` reads back as its key and value.
proof fn lemma_entry_decode(data: Seq<u8>, s: int, t: int, k: Seq<u8>, v: Seq<u8>)
    requires
        0 <= s <= t <= data.len(),
        k.len() <= 65535,
        v.len() <= 65535,
        data.subrange(s, t) == entry_bytes(k, v),
    ensures
        t == s + 4 + k.len() + v.len(),
        read_le16(data, s) == k.len(),
        read_le16(data, s + 2 + k.len()) == v.len(),
        data.subrange(s + 2, s + 2 + k.len()) == k,
        data.subrange(s + 4 + k.len(), s + 4 + k.len() + v.len()) == v,
{
    let e = entry_bytes(k, v);
    let kl = k.len() as int;
    lemma_le16_round_trip(k.len() as u16);
    lemma_le16_round_trip(v.len() as u16);
    assert(e.len() == 4 + kl + v.len());
    assert forall|j: int| 0 <= j < e.len() implies data[s + j] == #[trigger] e[j] by {
        assert(data.subrange(s, t)[j] == e[j]);
    }
    assert(data[s] == e[0]);
    assert(data[s + 1] == e[1]);
    assert(data[s + 2 + kl] == e[2 + kl]);
    assert(data[s + 3 + kl] == e[3 + kl]);
    assert(e[2 + kl] == le16(v.len() as u16)[0]);
    assert(e[3 + kl] == le16(v.len() as u16)[1]);
    assert(data.subrange(s + 2, s + 2 + kl) =~= k) by {
        assert forall|j: int| 0 <= j < kl implies data.subrange(s + 2, s + 2 + kl)[j] == k[j] by {
            assert(data[s + 2 + j] == e[2 + j]);
        }
    }
    assert(data.subrange(s + 4 + kl, s + 4 + kl + v.len()) =~= v) by {
        assert forall|j: int| 0 <= j < v.len() implies data.subrange(
            s + 4 + kl,
            s + 4 + kl + v.len(),
        )[j] == v[j] by {
            assert(data[s + 4 + kl + j] == e[4 + kl + j]);
        }
    }
}

/// Entry `i` of encodable entries reads back as its key and value.
pub proof fn lemma_entry_readable(es: Seq<(Seq<u8>, Seq<u8>)>, i: int)
    requires
        entries_encodable(es),
        0 <= i < es.len(),
    ensures
        entry_readable(entries_bytes(es), entry_starts(es), i),
        entry_key(entries_bytes(es), entry_starts(es), i) == es[i].0,
        entry_value(entries_bytes(es), entry_starts(es), i) == es[i].1,
{
    let data = entries_bytes(es);
    let offsets = entry_starts(es);
    lemma_entry_starts(es);
    lemma_entry_at(es, i);
    let k = es[i].0;
    let v = es[i].1;
    let s = entries_bytes(es.take(i)).len() as int;
    let t = entries_bytes(es.take(i + 1)).len() as int;
    let p = es.drop_last();
    assert(p.take(i) =~= es.take(i));
    lemma_entries_prefix(p, i);
    assert(offsets[i] as int == s);
    if i + 1 < es.len() {
        assert(p.take(i + 1) =~= es.take(i + 1));
        lemma_entries_prefix(p, i + 1);
        assert(offsets[i + 1] as int == t);
    } else {
        assert(es.take(i + 1) =~= es);
    }
    assert(entry_end(data, offsets, i) == t);
    lemma_entry_decode(data, s, t, k, v);
}

} // verus!
