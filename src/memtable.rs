//! The in-memory ordered buffer of recent writes.
use vstd::prelude::*;
use crossbeam_skiplist::SkipMap;
use crate::keys::{key_le, key_less, key_less_or_equal, key_lt};
use crate::codec::bytes_to_vec;
use crate::error::Result;
use crate::sstable::{add_succeeds, adds_succeed, blocks_bytes, SsTableBuilder};

verus! {

#[verifier::external_type_specification]
#[verifier::external_body]
#[verifier::reject_recursive_types(K)]
#[verifier::reject_recursive_types(V)]
pub struct ExSkipMap<K, V>(SkipMap<K, V>);

/// A skip map from keys to values.
pub type ByteSkipMap = SkipMap<Vec<u8>, Vec<u8>>;

/// The empty map of keys to values.
pub open spec fn no_entries() -> Map<Seq<u8>, Seq<u8>> {
    Map::empty()
}

/// What a skip map of byte strings holds.
pub uninterp spec fn skipmap_contents(m: ByteSkipMap) -> Map<Seq<u8>, Seq<u8>>;

/// Relies on crossbeam_skiplist::SkipMap::new: a new map is empty.
#[verifier::external_body]
fn skipmap_new() -> (r: ByteSkipMap)
    ensures
        skipmap_contents(r) == no_entries(),
{
    SkipMap::new()
}

/// Relies on crossbeam_skiplist::SkipMap::get: the entry for the key, if any.
#[verifier::external_body]
fn skipmap_get(m: &ByteSkipMap, key: &[u8]) -> (r: Option<Vec<u8>>)
    ensures
        r is Some <==> skipmap_contents(*m).contains_key(key@),
        r is Some ==> r->Some_0@ == skipmap_contents(*m)[key@],
{
    m.get(key).map(|e| e.value().clone())
}

/// Relies on crossbeam_skiplist::SkipMap::insert: an existing entry with the
/// key is replaced.
#[verifier::external_body]
fn skipmap_insert(m: &mut ByteSkipMap, key: Vec<u8>, value: Vec<u8>)
    ensures
        skipmap_contents(*final(m)) == skipmap_contents(*old(m)).insert(key@, value@),
{
    m.insert(key, value);
}

/// Relies on crossbeam_skiplist::SkipMap::is_empty.
#[verifier::external_body]
fn skipmap_is_empty(m: &ByteSkipMap) -> (r: bool)
    ensures
        r == (skipmap_contents(*m) == no_entries()),
{
    m.is_empty()
}

/// Relies on crossbeam_skiplist::SkipMap::iter: every entry once, in
/// ascending key order (the `Ord` of `Vec<u8>`, lexicographic).
#[verifier::external_body]
fn skipmap_entries(m: &ByteSkipMap) -> (r: Vec<(Vec<u8>, Vec<u8>)>)
    ensures
        entries_match(r@, skipmap_contents(*m)),
{
    m.iter().map(|e| (e.key().clone(), e.value().clone())).collect()
}

/// The pairs are the map's entries in strictly ascending key order.
pub open spec fn entries_match(es: Seq<(Vec<u8>, Vec<u8>)>, m: Map<Seq<u8>, Seq<u8>>) -> bool {
    &&& forall|i: int, j: int| 0 <= i < j < es.len() ==> key_lt(#[trigger] es[i].0@, #[trigger] es[j].0@)
    &&& forall|i: int|
        0 <= i < es.len() ==> m.contains_key((#[trigger] es[i]).0@) && m[es[i].0@] == es[i].1@
    &&& forall|k: Seq<u8>| #[trigger] m.contains_key(k) ==> exists|i: int| 0 <= i < es.len() && (#[trigger] es[i]).0@ == k
}

/// The pairs as byte sequences.
pub open spec fn pair_views(es: Seq<(Vec<u8>, Vec<u8>)>) -> Seq<(Seq<u8>, Seq<u8>)> {
    es.map_values(|e: (Vec<u8>, Vec<u8>)| (e.0@, e.1@))
}

/// Keys and values whose lengths fit the 16-bit length fields of every layout.
pub open spec fn sizes_ok(m: Map<Seq<u8>, Seq<u8>>) -> bool {
    forall|k: Seq<u8>| #[trigger] m.contains_key(k) ==> 0 < k.len() <= 65535 && m[k].len() <= 65535
}

/// One end of a key range.
pub enum KeyBound {
    Included(Vec<u8>),
    Excluded(Vec<u8>),
    Unbounded,
}

/// `key` lies above the lower end of a range.
pub open spec fn above_lower(key: Seq<u8>, lower: KeyBound) -> bool {
    match lower {
        KeyBound::Included(b) => key_le(b@, key),
        KeyBound::Excluded(b) => key_lt(b@, key),
        KeyBound::Unbounded => true,
    }
}

/// `key` lies below the upper end of a range.
pub open spec fn below_upper(key: Seq<u8>, upper: KeyBound) -> bool {
    match upper {
        KeyBound::Included(b) => key_le(key, b@),
        KeyBound::Excluded(b) => key_lt(key, b@),
        KeyBound::Unbounded => true,
    }
}

/// The keys between the two ends.
pub open spec fn key_range(lower: KeyBound, upper: KeyBound) -> Set<Seq<u8>> {
    Set::new(|key: Seq<u8>| above_lower(key, lower) && below_upper(key, upper))
}

/// Whether `key` lies between the two ends.
pub fn in_range(key: &[u8], lower: &KeyBound, upper: &KeyBound) -> (r: bool)
    ensures
        r == (above_lower(key@, *lower) && below_upper(key@, *upper)),
{
    let above = match lower {
        KeyBound::Included(b) => key_less_or_equal(b.as_slice(), key),
        KeyBound::Excluded(b) => key_less(b.as_slice(), key),
        KeyBound::Unbounded => true,
    };
    if !above {
        return false;
    }
    match upper {
        KeyBound::Included(b) => key_less_or_equal(key, b.as_slice()),
        KeyBound::Excluded(b) => key_less(key, b.as_slice()),
        KeyBound::Unbounded => true,
    }
}

/// A cursor over the entries of a memtable range, taken when the scan began.
pub struct MemTableIterator {
    items: Vec<(Vec<u8>, Vec<u8>)>,
    pos: usize,
}

impl MemTableIterator {
    /// The entries the scan covers, in ascending key order.
    pub closed spec fn items(&self) -> Seq<(Vec<u8>, Vec<u8>)> {
        self.items@
    }

    /// How many entries have been handed out.
    pub closed spec fn position(&self) -> nat {
        self.pos as nat
    }

    pub closed spec fn wf(&self) -> bool {
        self.pos <= self.items@.len()
    }

    /// Whether entries are left.
    pub fn has_next(&self) -> (r: bool)
        requires
            self.wf(),
        ensures
            r == (self.position() < self.items().len()),
    {
        self.pos < self.items.len()
    }

    /// The next entry, if any.
    pub fn next(&mut self) -> (r: Option<(Vec<u8>, Vec<u8>)>)
        requires
            old(self).wf(),
        ensures
            final(self).wf(),
            final(self).items() == old(self).items(),
            old(self).position() == old(self).items().len() ==> r is None && final(self).position()
                == old(self).position(),
            old(self).position() < old(self).items().len() ==> final(self).position() == old(
                self,
            ).position() + 1 && r is Some,
            r matches Some(e) ==> e.0@ == old(self).items()[old(self).position() as int].0@ && e.1@
                == old(self).items()[old(self).position() as int].1@,
    {
        if self.pos >= self.items.len() {
            return None;
        }
        let key = bytes_to_vec(self.items[self.pos].0.as_slice());
        let value = bytes_to_vec(self.items[self.pos].1.as_slice());
        self.pos = self.pos + 1;
        Some((key, value))
    }
}

/// A memtable: an ordered map from keys to values, its id and the number of
/// key and value bytes written to it.
pub struct MemTable {
    map: ByteSkipMap,
    id: usize,
    approximate_size: usize,
}

impl MemTable {
    /// The entries, one value per key.
    pub closed spec fn contents(&self) -> Map<Seq<u8>, Seq<u8>> {
        skipmap_contents(self.map)
    }

    pub closed spec fn spec_id(&self) -> usize {
        self.id
    }

    pub closed spec fn spec_size(&self) -> usize {
        self.approximate_size
    }

    /// Every key and value has a length that the layouts can hold.
    pub open spec fn wf(&self) -> bool {
        sizes_ok(self.contents())
    }

    /// An empty memtable.
    pub fn new(id: usize) -> (r: Self)
        ensures
            r.contents() == no_entries(),
            r.spec_id() == id,
            r.spec_size() == 0,
            r.wf(),
    {
        Self { map: skipmap_new(), id, approximate_size: 0 }
    }

    /// The value stored for `key`, if any.
    pub fn get(&self, key: &[u8]) -> (r: Option<Vec<u8>>)
        ensures
            r is Some <==> self.contents().contains_key(key@),
            r is Some ==> r->Some_0@ == self.contents()[key@],
    {
        skipmap_get(&self.map, key)
    }

    /// Stores `value` for `key`, replacing any earlier value, and counts the
    /// bytes written (saturating at `usize::MAX`).
    pub fn put(&mut self, key: &[u8], value: &[u8])
        requires
            old(self).wf(),
            0 < key@.len() <= 65535,
            value@.len() <= 65535,
        ensures
            final(self).wf(),
            final(self).contents() == old(self).contents().insert(key@, value@),
            final(self).spec_id() == old(self).spec_id(),
            final(self).spec_size() == if old(self).spec_size() + key@.len() + value@.len()
                > usize::MAX {
                usize::MAX as int
            } else {
                old(self).spec_size() + key@.len() + value@.len()
            },
    {
        let estimated_size = key.len() + value.len();
        skipmap_insert(&mut self.map, bytes_to_vec(key), bytes_to_vec(value));
        self.approximate_size = self.approximate_size.saturating_add(estimated_size);
    }

    /// All entries in ascending key order.
    pub fn entries(&self) -> (r: Vec<(Vec<u8>, Vec<u8>)>)
        ensures
            entries_match(r@, self.contents()),
    {
        skipmap_entries(&self.map)
    }

    /// The entries whose keys lie between `lower` and `upper`, in ascending
    /// key order.
    pub fn scan(&self, lower: &KeyBound, upper: &KeyBound) -> (r: MemTableIterator)
        ensures
            r.wf(),
            r.position() == 0,
            entries_match(r.items(), self.contents().restrict(key_range(*lower, *upper))),
    {
        let all = self.entries();
        let ghost m = self.contents();
        let ghost range = key_range(*lower, *upper);
        let mut items: Vec<(Vec<u8>, Vec<u8>)> = Vec::new();
        let mut i: usize = 0;
        while i < all.len()
            invariant
                entries_match(all@, m),
                m == self.contents(),
                range == key_range(*lower, *upper),
                i <= all@.len(),
                forall|x: int, y: int|
                    0 <= x < y < items@.len() ==> key_lt(#[trigger] items@[x].0@, #[trigger] items@[y].0@),
                forall|x: int, j: int|
                    0 <= x < items@.len() && i <= j < all@.len() ==> key_lt(
                        #[trigger] items@[x].0@,
                        #[trigger] all@[j].0@,
                    ),
                forall|x: int|
                    0 <= x < items@.len() ==> m.contains_key((#[trigger] items@[x]).0@) && m[items@[x].0@]
                        == items@[x].1@ && range.contains(items@[x].0@),
                forall|j: int|
                    0 <= j < i && range.contains((#[trigger] all@[j]).0@) ==> exists|x: int|
                        0 <= x < items@.len() && (#[trigger] items@[x]).0@ == all@[j].0@,
            decreases all@.len() - i,
        {
            let ghost before = items@;
            if in_range(all[i].0.as_slice(), lower, upper) {
                let key = bytes_to_vec(all[i].0.as_slice());
                let value = bytes_to_vec(all[i].1.as_slice());
                items.push((key, value));
                proof {
                    let last = items@.len() - 1;
                    assert(items@[last].0@ == all@[i as int].0@);
                    assert forall|j: int|
                        0 <= j < i + 1 && range.contains((#[trigger] all@[j]).0@) implies exists|x: int|
                        0 <= x < items@.len() && (#[trigger] items@[x]).0@ == all@[j].0@ by {
                        if j < i {
                            let x = choose|x: int|
                                0 <= x < before.len() && (#[trigger] before[x]).0@ == all@[j].0@;
                            assert(items@[x] == before[x]);
                        } else {
                            assert(items@[last].0@ == all@[j].0@);
                        }
                    }
                }
            } else {
                proof {
                    assert forall|j: int|
                        0 <= j < i + 1 && range.contains((#[trigger] all@[j]).0@) implies exists|x: int|
                        0 <= x < items@.len() && (#[trigger] items@[x]).0@ == all@[j].0@ by {
                        if j == i {
                            assert(!range.contains(all@[j].0@));
                        }
                    }
                }
            }
            i = i + 1;
        }
        let r = MemTableIterator { items, pos: 0 };
        proof {
            let sub = m.restrict(range);
            assert forall|k: Seq<u8>| #[trigger] sub.contains_key(k) implies exists|x: int|
                0 <= x < r.items@.len() && (#[trigger] r.items@[x]).0@ == k by {
                assert(m.contains_key(k) && range.contains(k));
                let j = choose|j: int| 0 <= j < all@.len() && (#[trigger] all@[j]).0@ == k;
                assert(range.contains(all@[j].0@));
                let x = choose|x: int| 0 <= x < r.items@.len() && (#[trigger] r.items@[x]).0@ == all@[j].0@;
                assert(r.items@[x].0@ == k);
            }
        }
        r
    }

    /// Adds every entry, in ascending key order, to `builder`; stops at the
    /// first add that fails.
    pub fn flush(&self, builder: &mut SsTableBuilder) -> (r: Result<()>)
        requires
            self.wf(),
            old(builder).wf(),
            old(builder).partitioned(),
        ensures
            final(builder).wf(),
            final(builder).partitioned(),
            final(builder).block_size() == old(builder).block_size(),
            exists|es: Seq<(Vec<u8>, Vec<u8>)>|
                {
                    &&& entries_match(es, self.contents())
                    &&& r is Ok <==> adds_succeed(
                        old(builder).added() + pair_views(es),
                        old(builder).added().len() as int,
                        old(builder).block_size(),
                    )
                    &&& r is Ok ==> final(builder).added() == old(builder).added() + pair_views(es)
                },
            r is Err ==> r->Err_0 is Format && blocks_bytes(final(builder).blocks()).len() > u32::MAX,
    {
        let entries = self.entries();
        let ghost start = builder.added();
        let ghost bs = builder.block_size();
        let ghost all = start + pair_views(entries@);
        let mut i: usize = 0;
        while i < entries.len()
            invariant
                self.wf(),
                entries_match(entries@, self.contents()),
                i <= entries@.len(),
                builder.wf(),
                builder.partitioned(),
                builder.block_size() == bs,
                bs == old(builder).block_size(),
                start == old(builder).added(),
                all == start + pair_views(entries@),
                builder.added() == start + pair_views(entries@).take(i as int),
                forall|x: int| start.len() <= x < start.len() + i ==> #[trigger] add_succeeds(all, x, bs),
            decreases entries@.len() - i,
        {
            let ghost k = entries@[i as int].0@;
            let ghost idx = start.len() + i;
            assert(self.contents().contains_key(k));
            assert(all.take(idx) =~= builder.added());
            assert(all[idx] == (entries@[i as int].0@, entries@[i as int].1@));
            match builder.add(entries[i].0.as_slice(), entries[i].1.as_slice()) {
                Ok(()) => {},
                Err(e) => {
                    assert(!add_succeeds(all, idx, bs));
                    assert(!adds_succeed(all, start.len() as int, bs));
                    return Err(e);
                },
            }
            assert(pair_views(entries@).take(i + 1) =~= pair_views(entries@).take(i as int).push(
                (entries@[i as int].0@, entries@[i as int].1@),
            ));
            i = i + 1;
        }
        assert(pair_views(entries@).take(entries@.len() as int) =~= pair_views(entries@));
        assert(adds_succeed(all, start.len() as int, bs));
        Ok(())
    }

    pub fn id(&self) -> (r: usize)
        ensures
            r == self.spec_id(),
    {
        self.id
    }

    pub fn approximate_size(&self) -> (r: usize)
        ensures
            r == self.spec_size(),
    {
        self.approximate_size
    }

    pub fn is_empty(&self) -> (r: bool)
        ensures
            r <==> self.contents() == no_entries(),
    {
        skipmap_is_empty(&self.map)
    }
}

/// The last write of a key wins: after two puts of the same key, the map
/// holds the second value.
pub proof fn lemma_last_writer_wins(
    m: Map<Seq<u8>, Seq<u8>>,
    key: Seq<u8>,
    v1: Seq<u8>,
    v2: Seq<u8>,
)
    ensures
        m.insert(key, v1).insert(key, v2).contains_key(key),
        m.insert(key, v1).insert(key, v2)[key] == v2,
{
}

} // verus!
