//! The storage state: the active memtable, the immutable memtables waiting to
//! be flushed, the level-0 tables and the deeper levels.
use vstd::prelude::*;
use std::collections::HashMap;
use crate::error::{format_error, Result};
use crate::codec::bytes_to_vec;
use crate::keys::{key_equal, key_less, key_lt, lemma_key_lt_transitive, lemma_key_trichotomy};
use crate::memtable::{
    above_lower, below_upper, entries_match, key_range, no_entries, pair_views, KeyBound, MemTable,
};
use crate::sstable::{
    adds_succeed, built_table, key_views, table_builds, lemma_sst_get_absent, lemma_sst_get_written,
    strictly_ascending, lemma_lookup_fails_unreadable, lemma_lookup_has_key,
    lemma_push_contains, opt_view, sst_lookup, table_has_key, table_readable, SsTable, SsTableBuilder,
};

verus! {

broadcast use vstd::std_specs::hash::group_hash_axioms;

/// The default size in bytes at which the active memtable is rotated.
pub const DEFAULT_MEMTABLE_THRESHOLD: usize = 1048576;

/// Ids that strictly decrease from first to last.
pub open spec fn ids_descending(ids: Seq<usize>) -> bool {
    forall|i: int, j: int| 0 <= i < j < ids.len() ==> #[trigger] ids[i] > #[trigger] ids[j]
}

/// The ids of all levels' tables, level by level.
pub open spec fn levels_ids(levels: Seq<(usize, Vec<usize>)>) -> Seq<usize>
    decreases levels.len(),
{
    if levels.len() == 0 {
        Seq::empty()
    } else {
        levels_ids(levels.drop_last()) + levels.last().1@
    }
}

/// The first of the memtables from `i` on that holds `key`, and its value.
pub open spec fn mem_lookup(ms: Seq<MemTable>, key: Seq<u8>, i: int) -> Option<Seq<u8>>
    decreases ms.len() - i,
{
    if i < 0 || i >= ms.len() {
        None
    } else if ms[i].contents().contains_key(key) {
        Some(ms[i].contents()[key])
    } else {
        mem_lookup(ms, key, i + 1)
    }
}

/// Probes the tables with ids `ids[i..]` in order; the first hit or failure
/// wins.
pub open spec fn ssts_lookup(
    tables: Map<usize, SsTable>,
    ids: Seq<usize>,
    key: Seq<u8>,
    i: int,
) -> Option<Option<Seq<u8>>>
    decreases ids.len() - i,
{
    if i < 0 || i >= ids.len() {
        Some(None)
    } else {
        match sst_lookup(tables[ids[i]], key) {
            None => None,
            Some(Some(v)) => Some(Some(v)),
            Some(None) => ssts_lookup(tables, ids, key, i + 1),
        }
    }
}

/// A hit with an empty value is a tombstone: the key is absent.
pub open spec fn visible(v: Option<Seq<u8>>) -> Option<Seq<u8>> {
    match v {
        Some(v) => if v.len() > 0 {
            Some(v)
        } else {
            None
        },
        None => None,
    }
}

/// The state behind the structural lock.
pub struct LsmStorageState {
    pub memtable: MemTable,
    /// Newest first.
    pub imm_memtables: Vec<MemTable>,
    /// Newest first.
    pub l0_sstables: Vec<usize>,
    /// `(level_id, sst_ids)`.
    pub levels: Vec<(usize, Vec<usize>)>,
    pub sstables: HashMap<usize, SsTable>,
}

impl LsmStorageState {
    /// The memtables from newest to oldest: the active one first.
    pub open spec fn memtables(&self) -> Seq<MemTable> {
        seq![self.memtable] + self.imm_memtables@
    }

    /// The memtable ids from newest to oldest.
    pub open spec fn memtable_ids(&self) -> Seq<usize> {
        self.memtables().map_values(|m: MemTable| m.spec_id())
    }

    /// The table ids in probe order: level 0 newest first, then each level.
    pub open spec fn sst_ids(&self) -> Seq<usize> {
        self.l0_sstables@ + levels_ids(self.levels@)
    }

    /// What a read of `key` finds: `None` where a probed table is malformed,
    /// else the first hit, if any.
    pub open spec fn lookup(&self, key: Seq<u8>) -> Option<Option<Seq<u8>>> {
        match mem_lookup(self.memtables(), key, 0) {
            Some(v) => Some(Some(v)),
            None => ssts_lookup(self.sstables@, self.sst_ids(), key, 0),
        }
    }

    /// The value a read of `key` returns, where the read succeeds.
    pub open spec fn readable_value(&self, key: Seq<u8>) -> Option<Seq<u8>> {
        match self.lookup(key) {
            Some(v) => visible(v),
            None => None,
        }
    }

    pub open spec fn wf(&self) -> bool {
        &&& forall|i: int| 0 <= i < self.memtables().len() ==> (#[trigger] self.memtables()[i]).wf()
        &&& ids_descending(self.memtable_ids())
        &&& forall|i: int|
            0 <= i < self.sst_ids().len() ==> self.sstables@.contains_key(#[trigger] self.sst_ids()[i])
        &&& forall|id: usize| #[trigger]
            self.sstables@.contains_key(id) ==> self.sstables@[id].bloom.filter@.len() * 8
                <= usize::MAX
    }

    fn create(memtable: MemTable) -> (r: Self)
        ensures
            r.memtable == memtable,
            r.imm_memtables@.len() == 0,
            r.l0_sstables@.len() == 0,
            r.levels@.len() == 0,
            r.sstables@ == Map::<usize, SsTable>::empty(),
    {
        Self {
            memtable,
            imm_memtables: Vec::new(),
            l0_sstables: Vec::new(),
            levels: Vec::new(),
            sstables: HashMap::new(),
        }
    }
}

/// The size a memtable reaches after a put: the bytes written, saturating.
pub open spec fn size_after(size: usize, key_len: nat, value_len: nat) -> int {
    if size + key_len + value_len > usize::MAX {
        usize::MAX as int
    } else {
        size + key_len + value_len
    }
}

/// A value as a read returns it: an empty value is a tombstone.
fn visible_value(v: Vec<u8>) -> (r: Option<Vec<u8>>)
    ensures
        opt_view(r) == visible(Some(v@)),
{
    if v.len() == 0 {
        None
    } else {
        Some(v)
    }
}

/// The table ids in probe order.
fn sst_probe_order(state: &LsmStorageState) -> (r: Vec<usize>)
    ensures
        r@ == state.sst_ids(),
{
    let mut r: Vec<usize> = Vec::new();
    let mut i: usize = 0;
    while i < state.l0_sstables.len()
        invariant
            i <= state.l0_sstables@.len(),
            r@ == state.l0_sstables@.take(i as int),
        decreases state.l0_sstables@.len() - i,
    {
        r.push(state.l0_sstables[i]);
        i = i + 1;
        assert(r@ =~= state.l0_sstables@.take(i as int));
    }
    assert(state.l0_sstables@.take(i as int) =~= state.l0_sstables@);
    let mut l: usize = 0;
    while l < state.levels.len()
        invariant
            l <= state.levels@.len(),
            r@ == state.l0_sstables@ + levels_ids(state.levels@.take(l as int)),
        decreases state.levels@.len() - l,
    {
        let ids = &state.levels[l].1;
        let ghost base = r@;
        let mut j: usize = 0;
        while j < ids.len()
            invariant
                j <= ids@.len(),
                r@ == base + ids@.take(j as int),
            decreases ids@.len() - j,
        {
            r.push(ids[j]);
            j = j + 1;
            assert(r@ =~= base + ids@.take(j as int));
        }
        proof {
            let t = state.levels@.take(l + 1);
            assert(t.drop_last() =~= state.levels@.take(l as int));
            assert(ids@.take(j as int) =~= ids@);
            assert(r@ =~= state.l0_sstables@ + levels_ids(t));
        }
        l = l + 1;
    }
    assert(state.levels@.take(l as int) =~= state.levels@);
    r
}

/// Memtables that agree on `key`, the second list shifted by `d`, read it
/// alike.
proof fn lemma_mem_lookup_agree(a: Seq<MemTable>, b: Seq<MemTable>, key: Seq<u8>, i: int, d: int)
    requires
        0 <= i,
        0 <= d,
        a.len() == b.len() + d,
        forall|j: int|
            0 <= j < b.len() ==> (#[trigger] b[j]).contents().contains_key(key) == a[j
                + d].contents().contains_key(key),
        forall|j: int|
            0 <= j < b.len() && (#[trigger] b[j]).contents().contains_key(key) ==> b[j].contents()[key]
                == a[j + d].contents()[key],
    ensures
        mem_lookup(a, key, i + d) == mem_lookup(b, key, i),
    decreases b.len() - i,
{
    if i < b.len() {
        lemma_mem_lookup_agree(a, b, key, i + 1, d);
    }
}

/// A tombstone in the newest memtable that holds a key hides every older
/// value of that key, in memtables and tables alike.
pub proof fn lemma_tombstone_shadows(state: LsmStorageState, key: Seq<u8>)
    requires
        mem_lookup(state.memtables(), key, 0) == Some(Seq::<u8>::empty()),
    ensures
        state.lookup(key) == Some(Some(Seq::<u8>::empty())),
        visible(state.lookup(key)->Some_0) is None,
{
}

/// A read of `key` is unchanged by a change that reads the memtables alike
/// for `key` and keeps the tables: in particular a tombstone stays in force
/// across puts and deletes of other keys and the rotations they cause.
pub proof fn lemma_read_unchanged(before: LsmStorageState, after: LsmStorageState, key: Seq<u8>)
    requires
        mem_lookup(after.memtables(), key, 0) == mem_lookup(before.memtables(), key, 0),
        after.sst_ids() == before.sst_ids(),
        after.sstables@ == before.sstables@,
    ensures
        after.lookup(key) == before.lookup(key),
        after.readable_value(key) == before.readable_value(key),
{
}

proof fn lemma_mem_lookup_drop_last(ms: Seq<MemTable>, key: Seq<u8>, i: int)
    requires
        0 <= i < ms.len(),
    ensures
        mem_lookup(ms, key, i) == match mem_lookup(ms.drop_last(), key, i) {
            Some(v) => Some(v),
            None => if ms.last().contents().contains_key(key) {
                Some(ms.last().contents()[key])
            } else {
                None
            },
        },
    decreases ms.len() - i,
{
    if i < ms.len() - 1 {
        assert(ms.drop_last()[i] == ms[i]);
        lemma_mem_lookup_drop_last(ms, key, i + 1);
    } else {
        assert(ms[i] == ms.last());
        assert(mem_lookup(ms, key, i + 1) is None);
        assert(mem_lookup(ms.drop_last(), key, i) is None);
    }
}

proof fn lemma_ssts_lookup_shift(
    a: Map<usize, SsTable>,
    ia: Seq<usize>,
    b: Map<usize, SsTable>,
    ib: Seq<usize>,
    key: Seq<u8>,
    i: int,
    d: int,
)
    requires
        0 <= i,
        0 <= d,
        ia.len() == ib.len() + d,
        forall|j: int| 0 <= j < ib.len() ==> ia[j + d] == #[trigger] ib[j] && a[ib[j]] == b[ib[j]],
    ensures
        ssts_lookup(a, ia, key, i + d) == ssts_lookup(b, ib, key, i),
    decreases ib.len() - i,
{
    if i < ib.len() {
        lemma_ssts_lookup_shift(a, ia, b, ib, key, i + 1, d);
    }
}

/// What a table built from a memtable's entries gives for `key`: the
/// memtable's value if it holds the key, else nothing.
proof fn lemma_built_from_memtable(
    m: MemTable,
    b: SsTableBuilder,
    es: Seq<(Vec<u8>, Vec<u8>)>,
    id: usize,
    t: SsTable,
    file: Seq<u8>,
    key: Seq<u8>,
)
    requires
        entries_match(es, m.contents()),
        b.wf(),
        b.added() == pair_views(es),
        built_table(b, id, t, file),
    ensures
        sst_lookup(t, key) == if m.contents().contains_key(key) {
            Some(Some(m.contents()[key]))
        } else {
            Some(None::<Seq<u8>>)
        },
{
    let pv = pair_views(es);
    assert forall|i: int, j: int| 0 <= i < j < pv.len() implies key_lt(#[trigger] pv[i].0, #[trigger] pv[j].0) by {
        assert(key_lt(es[i].0@, es[j].0@));
    }
    assert(strictly_ascending(b.added()));
    if m.contents().contains_key(key) {
        let x = choose|x: int| 0 <= x < es.len() && (#[trigger] es[x]).0@ == key;
        assert(pv[x] == (es[x].0@, es[x].1@));
        lemma_sst_get_written(b, id, t, file, x);
    } else {
        assert forall|x: int| 0 <= x < b.added().len() implies (#[trigger] b.added()[x]).0 != key by {
            assert(pv[x] == (es[x].0@, es[x].1@));
            assert(m.contents().contains_key(es[x].0@));
        }
        lemma_sst_get_absent(b, id, t, file, key);
    }
}

/// Flushing preserves every read: retiring the oldest immutable memtable in
/// favour of a table built from its entries, placed first in level 0, leaves
/// what a read of any key finds unchanged.
pub proof fn lemma_flush_preserves_reads(
    before: LsmStorageState,
    after: LsmStorageState,
    b: SsTableBuilder,
    es: Seq<(Vec<u8>, Vec<u8>)>,
    t: SsTable,
    file: Seq<u8>,
    key: Seq<u8>,
)
    requires
        before.wf(),
        before.imm_memtables@.len() > 0,
        entries_match(es, before.imm_memtables@.last().contents()),
        b.wf(),
        b.added() == pair_views(es),
        built_table(b, t.id, t, file),
        !before.sstables@.contains_key(t.id),
        after.memtable == before.memtable,
        after.imm_memtables@ == before.imm_memtables@.drop_last(),
        after.l0_sstables@ == seq![t.id] + before.l0_sstables@,
        after.levels@ == before.levels@,
        after.sstables@ == before.sstables@.insert(t.id, t),
    ensures
        after.lookup(key) == before.lookup(key),
{
    let ms = before.memtables();
    let last = before.imm_memtables@.last();
    assert(after.memtables() =~= ms.drop_last());
    assert(ms.last() == last);
    lemma_mem_lookup_drop_last(ms, key, 0);
    lemma_built_from_memtable(last, b, es, t.id, t, file, key);
    let ids = before.sst_ids();
    assert(after.sst_ids() =~= seq![t.id] + ids);
    assert forall|j: int| 0 <= j < ids.len() implies after.sst_ids()[j + 1] == #[trigger] ids[j]
        && after.sstables@[ids[j]] == before.sstables@[ids[j]] by {
        assert(before.sstables@.contains_key(ids[j]));
    }
    lemma_ssts_lookup_shift(after.sstables@, after.sst_ids(), before.sstables@, ids, key, 0, 1);
    assert(after.sstables@[t.id] == t);
}

/// Rotation keeps memtable ids increasing: each memtable's id is greater
/// than the id of every memtable before it.
pub proof fn lemma_rotation_monotonic(state: LsmStorageState, i: int, j: int)
    requires
        state.wf(),
        0 <= i < j < state.memtables().len(),
    ensures
        state.memtables()[i].spec_id() > state.memtables()[j].spec_id(),
{
    assert(state.memtable_ids()[i] > state.memtable_ids()[j]);
}

/// The keys of the pairs.
pub open spec fn out_keys(out: Seq<(Vec<u8>, Vec<u8>)>) -> Seq<Seq<u8>> {
    out.map_values(|e: (Vec<u8>, Vec<u8>)| e.0@)
}

/// The pairs' keys strictly ascend.
pub open spec fn sorted_keys(out: Seq<(Vec<u8>, Vec<u8>)>) -> bool {
    forall|x: int, y: int| 0 <= x < y < out.len() ==> key_lt(#[trigger] out[x].0@, #[trigger] out[y].0@)
}

/// A pair that a scan of the range returns: its key lies in the range and a
/// read of the key returns its value.
pub open spec fn scan_entry_ok(
    state: LsmStorageState,
    lower: KeyBound,
    upper: KeyBound,
    e: (Vec<u8>, Vec<u8>),
) -> bool {
    above_lower(e.0@, lower) && below_upper(e.0@, upper) && state.readable_value(e.0@) == Some(e.1@)
}

proof fn lemma_mem_found(ms: Seq<MemTable>, key: Seq<u8>, i: int) -> (r: int)
    requires
        mem_lookup(ms, key, i) is Some,
    ensures
        i <= r < ms.len(),
        0 <= r,
        ms[r].contents().contains_key(key),
    decreases ms.len() - i,
{
    if ms[i].contents().contains_key(key) {
        i
    } else {
        lemma_mem_found(ms, key, i + 1)
    }
}

proof fn lemma_ssts_found(tables: Map<usize, SsTable>, ids: Seq<usize>, key: Seq<u8>, i: int) -> (r:
    int)
    requires
        ssts_lookup(tables, ids, key, i) matches Some(Some(_)),
    ensures
        i <= r < ids.len(),
        0 <= r,
        sst_lookup(tables[ids[r]], key) matches Some(Some(_)),
    decreases ids.len() - i,
{
    if sst_lookup(tables[ids[i]], key) matches Some(Some(_)) {
        i
    } else {
        lemma_ssts_found(tables, ids, key, i + 1)
    }
}

proof fn lemma_ssts_fail(tables: Map<usize, SsTable>, ids: Seq<usize>, key: Seq<u8>, i: int) -> (r:
    int)
    requires
        ssts_lookup(tables, ids, key, i) is None,
    ensures
        i <= r < ids.len(),
        0 <= r,
        sst_lookup(tables[ids[r]], key) is None,
    decreases ids.len() - i,
{
    if sst_lookup(tables[ids[i]], key) is None {
        i
    } else {
        lemma_ssts_fail(tables, ids, key, i + 1)
    }
}

/// Some table in the probe order cannot be read in full.
pub open spec fn some_table_unreadable(state: LsmStorageState) -> bool {
    exists|i: int|
        0 <= i < state.sst_ids().len() && !table_readable(
            #[trigger] state.sstables@[state.sst_ids()[i]],
        )
}

/// Appends the keys of a memtable's entries between the two ends.
fn collect_memtable_keys(m: &MemTable, lower: &KeyBound, upper: &KeyBound, keys: &mut Vec<Vec<u8>>)
    ensures
        forall|k: Seq<u8>| key_views(old(keys)@).contains(k) ==> key_views(final(keys)@).contains(k),
        forall|x: int|
            0 <= x < final(keys)@.len() ==> key_views(old(keys)@).contains(#[trigger] final(keys)@[x]@)
                || above_lower(final(keys)@[x]@, *lower) && below_upper(final(keys)@[x]@, *upper),
        forall|k: Seq<u8>|
            m.contents().contains_key(k) && above_lower(k, *lower) && below_upper(k, *upper)
                ==> key_views(final(keys)@).contains(k),
{
    let ghost start = key_views(keys@);
    proof {
        assert forall|x: int| 0 <= x < keys@.len() implies start.contains(#[trigger] keys@[x]@) by {
            assert(start[x] == keys@[x]@);
        }
    }
    let mut it = m.scan(lower, upper);
    let ghost items = it.items();
    let ghost sub = m.contents().restrict(key_range(*lower, *upper));
    while it.has_next()
        invariant
            start == key_views(old(keys)@),
            it.wf(),
            it.items() == items,
            entries_match(items, sub),
            sub == m.contents().restrict(key_range(*lower, *upper)),
            forall|k: Seq<u8>| start.contains(k) ==> key_views(keys@).contains(k),
            forall|x: int|
                0 <= x < keys@.len() ==> start.contains(#[trigger] keys@[x]@) || above_lower(
                    keys@[x]@,
                    *lower,
                ) && below_upper(keys@[x]@, *upper),
            forall|x: int| 0 <= x < it.position() ==> key_views(keys@).contains(#[trigger] items[x].0@),
        decreases items.len() - it.position(),
    {
        let ghost pos = it.position();
        let next = it.next();
        match next {
            Some((k, _)) => {
                let ghost before = key_views(keys@);
                let ghost before_keys = keys@;
                assert(sub.contains_key(items[pos as int].0@));
                keys.push(k);
                proof {
                    assert(key_views(keys@) =~= before.push(items[pos as int].0@));
                    assert forall|kk: Seq<u8>| before.contains(kk) implies key_views(keys@).contains(
                        kk,
                    ) by {
                        lemma_push_contains(before, items[pos as int].0@, kk);
                    }
                    assert(key_views(keys@)[before.len() as int] == items[pos as int].0@);
                    assert forall|x: int| 0 <= x < keys@.len() implies start.contains(
                        #[trigger] keys@[x]@,
                    ) || above_lower(keys@[x]@, *lower) && below_upper(keys@[x]@, *upper) by {
                        if x < before_keys.len() {
                            assert(keys@[x] == before_keys[x]);
                        }
                    }
                }
            },
            None => {},
        }
    }
    proof {
        assert forall|k: Seq<u8>|
            m.contents().contains_key(k) && above_lower(k, *lower) && below_upper(k, *upper)
            implies key_views(keys@).contains(k) by {
            assert(sub.contains_key(k));
            let x = choose|x: int| 0 <= x < items.len() && (#[trigger] items[x]).0@ == k;
            assert(key_views(keys@).contains(items[x].0@));
        }
    }
}

/// Inserts a pair into pairs whose keys strictly ascend, keeping them so;
/// a key already there is left as it is.
fn insert_sorted(out: &mut Vec<(Vec<u8>, Vec<u8>)>, key: Vec<u8>, value: Vec<u8>)
    requires
        sorted_keys(old(out)@),
    ensures
        sorted_keys(final(out)@),
        forall|k: Seq<u8>| out_keys(old(out)@).contains(k) ==> out_keys(final(out)@).contains(k),
        out_keys(final(out)@).contains(key@),
        forall|y: int|
            0 <= y < final(out)@.len() ==> old(out)@.contains(#[trigger] final(out)@[y])
                || final(out)@[y] == (key, value),
{
    let ghost old_out = out@;
    let mut p: usize = 0;
    while p < out.len() && key_less(out[p].0.as_slice(), key.as_slice())
        invariant
            out@ == old_out,
            p <= out@.len(),
            forall|x: int| 0 <= x < p ==> key_lt(#[trigger] out@[x].0@, key@),
        decreases out@.len() - p,
    {
        p = p + 1;
    }
    if p < out.len() && key_equal(out[p].0.as_slice(), key.as_slice()) {
        assert(out_keys(out@)[p as int] == key@);
        assert forall|y: int| 0 <= y < out@.len() implies old_out.contains(#[trigger] out@[y]) by {
            assert(old_out[y] == out@[y]);
        }
        return;
    }
    proof {
        if p < out@.len() {
            lemma_key_trichotomy(out@[p as int].0@, key@);
        }
    }
    out.insert(p, (key, value));
    proof {
        let e = (key, value);
        assert(out@ =~= old_out.insert(p as int, e));
        assert forall|x: int, y: int| 0 <= x < y < out@.len() implies key_lt(
            #[trigger] out@[x].0@,
            #[trigger] out@[y].0@,
        ) by {
            if y < p {
            } else if y == p {
            } else if x < p {
                assert(out@[y] == old_out[y - 1]);
                assert(key_lt(old_out[x].0@, old_out[y - 1].0@));
            } else if x == p {
                assert(out@[y] == old_out[y - 1]);
                if y - 1 > p {
                    assert(key_lt(old_out[p as int].0@, old_out[y - 1].0@));
                    lemma_key_lt_transitive(key@, old_out[p as int].0@, old_out[y - 1].0@);
                }
            } else {
                assert(out@[x] == old_out[x - 1]);
                assert(out@[y] == old_out[y - 1]);
            }
        }
        assert forall|k: Seq<u8>| out_keys(old_out).contains(k) implies out_keys(out@).contains(k) by {
            let i = choose|i: int| 0 <= i < old_out.len() && out_keys(old_out)[i] == k;
            if i < p {
                assert(out_keys(out@)[i] == k);
            } else {
                assert(out_keys(out@)[i + 1] == k);
            }
        }
        assert(out_keys(out@)[p as int] == key@);
        assert forall|y: int| 0 <= y < out@.len() implies old_out.contains(#[trigger] out@[y]) || out@[y]
            == e by {
            if y < p {
                assert(old_out[y] == out@[y]);
            } else if y > p {
                assert(old_out[y - 1] == out@[y]);
            }
        }
    }
}

/// The storage engine's in-memory state machine.
pub struct LsmStorage {
    state: LsmStorageState,
    memtable_threshold: usize,
    next_sst_id: usize,
}

impl LsmStorage {
    pub closed spec fn spec_state(&self) -> LsmStorageState {
        self.state
    }

    pub closed spec fn threshold(&self) -> usize {
        self.memtable_threshold
    }

    pub closed spec fn spec_next_sst_id(&self) -> usize {
        self.next_sst_id
    }

    /// The state is well formed and every table id is below the next one.
    pub open spec fn wf(&self) -> bool {
        &&& self.spec_state().wf()
        &&& forall|id: usize| #[trigger]
            self.spec_state().sstables@.contains_key(id) ==> id < self.spec_next_sst_id()
    }

    /// A fresh engine: an empty memtable with id 0 and nothing else.
    pub fn open(memtable_threshold: usize) -> (r: Self)
        ensures
            r.wf(),
            r.threshold() == memtable_threshold,
            r.spec_state().memtable.contents() == no_entries(),
            r.spec_state().memtable.spec_id() == 0,
            r.spec_state().memtable.spec_size() == 0,
            r.spec_state().imm_memtables@.len() == 0,
            r.spec_state().l0_sstables@.len() == 0,
            r.spec_state().levels@.len() == 0,
            r.spec_state().sstables@ == Map::<usize, SsTable>::empty(),
            r.spec_state().sst_ids().len() == 0,
    {
        let state = LsmStorageState::create(MemTable::new(0));
        let r = Self { state, memtable_threshold, next_sst_id: 1 };
        assert(r.state.memtables() =~= seq![r.state.memtable]);
        assert(r.state.sst_ids() =~= Seq::<usize>::empty());
        r
    }

    /// Reads `key`: the active memtable, the immutable memtables newest
    /// first, then the tables of level 0 newest first and the deeper levels.
    /// The first hit wins; an empty value reads as absent.
    pub fn get(&self, key: &[u8]) -> (r: Result<Option<Vec<u8>>>)
        requires
            self.wf(),
        ensures
            r is Err <==> self.spec_state().lookup(key@) is None,
            r is Ok ==> opt_view(r->Ok_0) == visible(self.spec_state().lookup(key@)->Some_0),
            r is Err ==> r->Err_0 is Format,
    {
        let ghost ms = self.state.memtables();
        match self.state.memtable.get(key) {
            Some(v) => {
                return Ok(visible_value(v));
            },
            None => {},
        }
        let mut i: usize = 0;
        while i < self.state.imm_memtables.len()
            invariant
                ms == self.state.memtables(),
                i <= self.state.imm_memtables@.len(),
                mem_lookup(ms, key@, 0) == mem_lookup(ms, key@, i + 1),
            decreases self.state.imm_memtables@.len() - i,
        {
            assert(ms[i + 1] == self.state.imm_memtables@[i as int]);
            match self.state.imm_memtables[i].get(key) {
                Some(v) => {
                    return Ok(visible_value(v));
                },
                None => {},
            }
            i = i + 1;
        }
        assert(mem_lookup(ms, key@, 0) is None);
        let ids = sst_probe_order(&self.state);
        let mut j: usize = 0;
        while j < ids.len()
            invariant
                self.wf(),
                ids@ == self.state.sst_ids(),
                j <= ids@.len(),
                self.state.lookup(key@) == ssts_lookup(self.state.sstables@, ids@, key@, j as int),
            decreases ids@.len() - j,
        {
            let id = ids[j];
            assert(self.state.sstables@.contains_key(ids@[j as int]));
            let t = match self.state.sstables.get(&id) {
                Some(t) => t,
                None => {
                    return Err(format_error("missing table"));
                },
            };
            match t.get(key) {
                Err(e) => {
                    return Err(e);
                },
                Ok(Some(v)) => {
                    return Ok(visible_value(v));
                },
                Ok(None) => {},
            }
            j = j + 1;
        }
        Ok(None)
    }

    /// The pairs whose keys lie between `lower` and `upper` and whose reads
    /// return a value, in ascending key order; tombstoned keys are left out.
    /// Fails where a table that is probed has a malformed block.
    pub fn scan(&self, lower: &KeyBound, upper: &KeyBound) -> (r: Result<Vec<(Vec<u8>, Vec<u8>)>>)
        requires
            self.wf(),
        ensures
            r is Err ==> r->Err_0 is Format && some_table_unreadable(self.spec_state()),
            r is Ok ==> sorted_keys(r->Ok_0@),
            r is Ok ==> forall|x: int|
                0 <= x < r->Ok_0@.len() ==> scan_entry_ok(
                    self.spec_state(),
                    *lower,
                    *upper,
                    #[trigger] r->Ok_0@[x],
                ),
            r is Ok ==> forall|k: Seq<u8>|
                above_lower(k, *lower) && below_upper(k, *upper) && (
                #[trigger] self.spec_state().readable_value(k)) is Some ==> out_keys(
                    r->Ok_0@,
                ).contains(k),
    {
        let ghost ms = self.state.memtables();
        let mut cands: Vec<Vec<u8>> = Vec::new();
        collect_memtable_keys(&self.state.memtable, lower, upper, &mut cands);
        let mut i: usize = 0;
        while i < self.state.imm_memtables.len()
            invariant
                self.wf(),
                ms == self.state.memtables(),
                i <= self.state.imm_memtables@.len(),
                forall|x: int|
                    0 <= x < cands@.len() ==> above_lower(#[trigger] cands@[x]@, *lower) && below_upper(
                        cands@[x]@,
                        *upper,
                    ),
                forall|mi: int, k: Seq<u8>|
                    0 <= mi <= i && #[trigger] ms[mi].contents().contains_key(k) && above_lower(
                        k,
                        *lower,
                    ) && below_upper(k, *upper) ==> key_views(cands@).contains(k),
            decreases self.state.imm_memtables@.len() - i,
        {
            assert(ms[i + 1] == self.state.imm_memtables@[i as int]);
            collect_memtable_keys(&self.state.imm_memtables[i], lower, upper, &mut cands);
            i = i + 1;
        }
        let ids = sst_probe_order(&self.state);
        let mut t: usize = 0;
        while t < ids.len()
            invariant
                self.wf(),
                ms == self.state.memtables(),
                ids@ == self.state.sst_ids(),
                t <= ids@.len(),
                forall|x: int|
                    0 <= x < cands@.len() ==> above_lower(#[trigger] cands@[x]@, *lower) && below_upper(
                        cands@[x]@,
                        *upper,
                    ),
                forall|mi: int, k: Seq<u8>|
                    0 <= mi < ms.len() && #[trigger] ms[mi].contents().contains_key(k) && above_lower(
                        k,
                        *lower,
                    ) && below_upper(k, *upper) ==> key_views(cands@).contains(k),
                forall|ti: int, k: Seq<u8>|
                    0 <= ti < t && #[trigger] table_has_key(self.state.sstables@[ids@[ti]], k)
                        && above_lower(k, *lower) && below_upper(k, *upper) ==> key_views(
                        cands@,
                    ).contains(k),
            decreases ids@.len() - t,
        {
            let id = ids[t];
            assert(self.state.sstables@.contains_key(ids@[t as int]));
            let table = match self.state.sstables.get(&id) {
                Some(table) => table,
                None => {
                    return Err(format_error("missing table"));
                },
            };
            match table.collect_keys(lower, upper, &mut cands) {
                Ok(()) => {},
                Err(e) => {
                    assert(!table_readable(self.state.sstables@[self.state.sst_ids()[t as int]]));
                    return Err(e);
                },
            }
            t = t + 1;
        }
        let mut out: Vec<(Vec<u8>, Vec<u8>)> = Vec::new();
        let mut c: usize = 0;
        while c < cands.len()
            invariant
                self.wf(),
                c <= cands@.len(),
                forall|x: int|
                    0 <= x < cands@.len() ==> above_lower(#[trigger] cands@[x]@, *lower) && below_upper(
                        cands@[x]@,
                        *upper,
                    ),
                sorted_keys(out@),
                forall|x: int|
                    0 <= x < out@.len() ==> scan_entry_ok(self.state, *lower, *upper, #[trigger] out@[x]),
                forall|x: int|
                    0 <= x < c && self.state.readable_value(#[trigger] cands@[x]@) is Some ==> out_keys(
                        out@,
                    ).contains(cands@[x]@),
            decreases cands@.len() - c,
        {
            match self.get(cands[c].as_slice()) {
                Err(e) => {
                    proof {
                        let k = cands@[c as int]@;
                        let ti = lemma_ssts_fail(self.state.sstables@, self.state.sst_ids(), k, 0);
                        lemma_lookup_fails_unreadable(self.state.sstables@[self.state.sst_ids()[ti]], k);
                    }
                    return Err(e);
                },
                Ok(None) => {},
                Ok(Some(v)) => {
                    let ghost before = out@;
                    let key = bytes_to_vec(cands[c].as_slice());
                    insert_sorted(&mut out, key, v);
                    proof {
                        assert forall|x: int| 0 <= x < out@.len() implies scan_entry_ok(
                            self.state,
                            *lower,
                            *upper,
                            #[trigger] out@[x],
                        ) by {
                            if before.contains(out@[x]) {
                                let y = choose|y: int| 0 <= y < before.len() && before[y] == out@[x];
                                assert(scan_entry_ok(self.state, *lower, *upper, before[y]));
                            }
                        }
                    }
                },
            }
            c = c + 1;
        }
        proof {
            assert forall|k: Seq<u8>|
                above_lower(k, *lower) && below_upper(k, *upper) && (
                #[trigger] self.state.readable_value(k)) is Some implies out_keys(out@).contains(k) by {
                match mem_lookup(ms, k, 0) {
                    Some(_) => {
                        let mi = lemma_mem_found(ms, k, 0);
                        assert(ms[mi].contents().contains_key(k));
                    },
                    None => {
                        let ti = lemma_ssts_found(self.state.sstables@, ids@, k, 0);
                        lemma_lookup_has_key(self.state.sstables@[ids@[ti]], k);
                    },
                }
                let x = choose|x: int| 0 <= x < cands@.len() && key_views(cands@)[x] == k;
                assert(cands@[x]@ == k);
            }
        }
        Ok(out)
    }

    /// Writes `key`; rotates the active memtable when its size passes the
    /// threshold. Returns the id of the new active memtable if it rotated.
    pub fn put(&mut self, key: &[u8], value: &[u8]) -> (r: Option<usize>)
        requires
            old(self).wf(),
            0 < key@.len() <= 65535,
            value@.len() <= 65535,
        ensures
            final(self).wf(),
            final(self).threshold() == old(self).threshold(),
            final(self).spec_next_sst_id() == old(self).spec_next_sst_id(),
            mem_lookup(final(self).spec_state().memtables(), key@, 0) == Some(value@),
            forall|k: Seq<u8>|
                k != key@ ==> #[trigger] mem_lookup(final(self).spec_state().memtables(), k, 0)
                    == mem_lookup(old(self).spec_state().memtables(), k, 0),
            final(self).spec_state().sst_ids() == old(self).spec_state().sst_ids(),
            final(self).spec_state().l0_sstables@ == old(self).spec_state().l0_sstables@,
            final(self).spec_state().levels@ == old(self).spec_state().levels@,
            final(self).spec_state().sstables@ == old(self).spec_state().sstables@,
            r is Some <==> size_after(old(self).spec_state().memtable.spec_size(), key@.len(), value@.len())
                > old(self).threshold() && old(self).spec_state().memtable.spec_id() < usize::MAX,
            r is None ==> final(self).spec_state().memtable.contents() == old(
                self,
            ).spec_state().memtable.contents().insert(key@, value@)
                && final(self).spec_state().memtable.spec_id() == old(self).spec_state().memtable.spec_id()
                && final(self).spec_state().memtable.spec_size() == size_after(
                old(self).spec_state().memtable.spec_size(),
                key@.len(),
                value@.len(),
            ) && final(self).spec_state().imm_memtables@ == old(self).spec_state().imm_memtables@,
            r matches Some(id) ==> {
                &&& id == old(self).spec_state().memtable.spec_id() + 1
                &&& final(self).spec_state().memtable.spec_id() == id
                &&& final(self).spec_state().memtable.spec_size() == 0
                &&& final(self).spec_state().memtable.contents() == no_entries()
                &&& final(self).spec_state().imm_memtables@.len() == old(self).spec_state().imm_memtables@.len() + 1
                &&& final(self).spec_state().imm_memtables@[0].contents() == old(
                    self,
                ).spec_state().memtable.contents().insert(key@, value@)
                &&& final(self).spec_state().imm_memtables@.drop_first() == old(self).spec_state().imm_memtables@
            },
    {
        let ghost old_state = self.state;
        assert(old_state.memtables()[0] == old_state.memtable);
        self.state.memtable.put(key, value);
        proof {
            assert(self.state.sst_ids() == old_state.sst_ids());
            let ms = self.state.memtables();
            assert(ms[0].contents().contains_key(key@));
            assert(mem_lookup(ms, key@, 0) == Some(value@));
            assert(self.state.memtables()[0] == self.state.memtable);
            assert forall|i: int| 0 <= i < self.state.memtables().len() implies (
            #[trigger] self.state.memtables()[i]).wf() by {
                if i > 0 {
                    assert(self.state.memtables()[i] == old_state.memtables()[i]);
                }
            }
            assert(self.state.memtable_ids() =~= old_state.memtable_ids());
            assert forall|k: Seq<u8>| k != key@ implies #[trigger] mem_lookup(ms, k, 0) == mem_lookup(
                old_state.memtables(),
                k,
                0,
            ) by {
                lemma_mem_lookup_agree(ms, old_state.memtables(), k, 0, 0);
            }
        }
        let ghost after_put = self.state.memtables();
        let size = self.state.memtable.approximate_size();
        if size > self.memtable_threshold {
            let ghost before = self.state;
            let r = self.force_freeze_memtable();
            proof {
                if r is Some {
                    let ms = self.state.memtables();
                    assert(ms[1] == before.memtable);
                    assert(!ms[0].contents().contains_key(key@));
                    assert(ms[1].contents().contains_key(key@));
                    assert(mem_lookup(ms, key@, 1) == Some(value@));
                    assert(self.state.imm_memtables@.drop_first() =~= before.imm_memtables@);
                    assert forall|k: Seq<u8>| k != key@ implies #[trigger] mem_lookup(ms, k, 0)
                        == mem_lookup(after_put, k, 0) by {
                        assert(!ms[0].contents().contains_key(k));
                        assert forall|j: int| 0 <= j < after_put.len() implies #[trigger] after_put[j]
                            == ms[j + 1] by {}
                        lemma_mem_lookup_agree(ms, after_put, k, 0, 1);
                    }
                }
            }
            r
        } else {
            None
        }
    }

    /// Deletes `key` by writing a tombstone, an empty value.
    pub fn delete(&mut self, key: &[u8]) -> (r: Option<usize>)
        requires
            old(self).wf(),
            0 < key@.len() <= 65535,
        ensures
            final(self).wf(),
            final(self).threshold() == old(self).threshold(),
            final(self).spec_next_sst_id() == old(self).spec_next_sst_id(),
            mem_lookup(final(self).spec_state().memtables(), key@, 0) == Some(Seq::<u8>::empty()),
            forall|k: Seq<u8>|
                k != key@ ==> #[trigger] mem_lookup(final(self).spec_state().memtables(), k, 0)
                    == mem_lookup(old(self).spec_state().memtables(), k, 0),
            final(self).spec_state().sst_ids() == old(self).spec_state().sst_ids(),
            final(self).spec_state().l0_sstables@ == old(self).spec_state().l0_sstables@,
            final(self).spec_state().levels@ == old(self).spec_state().levels@,
            final(self).spec_state().sstables@ == old(self).spec_state().sstables@,
            r is Some <==> size_after(old(self).spec_state().memtable.spec_size(), key@.len(), 0)
                > old(self).threshold() && old(self).spec_state().memtable.spec_id() < usize::MAX,
            r is None ==> final(self).spec_state().memtable.contents() == old(
                self,
            ).spec_state().memtable.contents().insert(key@, Seq::<u8>::empty())
                && final(self).spec_state().memtable.spec_id() == old(self).spec_state().memtable.spec_id()
                && final(self).spec_state().memtable.spec_size() == size_after(
                old(self).spec_state().memtable.spec_size(),
                key@.len(),
                0,
            ) && final(self).spec_state().imm_memtables@ == old(self).spec_state().imm_memtables@,
            r matches Some(id) ==> {
                &&& id == old(self).spec_state().memtable.spec_id() + 1
                &&& final(self).spec_state().memtable.spec_id() == id
                &&& final(self).spec_state().memtable.spec_size() == 0
                &&& final(self).spec_state().memtable.contents() == no_entries()
                &&& final(self).spec_state().imm_memtables@.len() == old(self).spec_state().imm_memtables@.len() + 1
                &&& final(self).spec_state().imm_memtables@[0].contents() == old(
                    self,
                ).spec_state().memtable.contents().insert(key@, Seq::<u8>::empty())
                &&& final(self).spec_state().imm_memtables@.drop_first() == old(self).spec_state().imm_memtables@
            },
    {
        let empty: Vec<u8> = Vec::new();
        assert(empty@ =~= Seq::<u8>::empty());
        self.put(key, empty.as_slice())
    }

    /// Rotates the active memtable into the immutable memtables if its size
    /// is above the threshold. Returns the id of the new active memtable.
    pub fn force_freeze_memtable(&mut self) -> (r: Option<usize>)
        requires
            old(self).wf(),
        ensures
            final(self).wf(),
            final(self).threshold() == old(self).threshold(),
            final(self).spec_next_sst_id() == old(self).spec_next_sst_id(),
            final(self).spec_state().sst_ids() == old(self).spec_state().sst_ids(),
            final(self).spec_state().l0_sstables@ == old(self).spec_state().l0_sstables@,
            final(self).spec_state().levels@ == old(self).spec_state().levels@,
            final(self).spec_state().sstables@ == old(self).spec_state().sstables@,
            r is Some <==> old(self).spec_state().memtable.spec_size() > old(self).threshold() && old(
                self,
            ).spec_state().memtable.spec_id() < usize::MAX,
            r is None ==> final(self).spec_state() == old(self).spec_state(),
            r matches Some(id) ==> {
                &&& id == old(self).spec_state().memtable.spec_id() + 1
                &&& final(self).spec_state().memtable.spec_id() == id
                &&& final(self).spec_state().memtable.spec_size() == 0
                &&& final(self).spec_state().memtable.contents() == no_entries()
                &&& final(self).spec_state().imm_memtables@ == seq![old(self).spec_state().memtable]
                    + old(self).spec_state().imm_memtables@
            },
    {
        if self.state.memtable.approximate_size() <= self.memtable_threshold {
            return None;
        }
        let old_id = self.state.memtable.id();
        if old_id == usize::MAX {
            return None;
        }
        let ghost old_state = self.state;
        let new_id = old_id + 1;
        let mut memtable = MemTable::new(new_id);
        std::mem::swap(&mut self.state.memtable, &mut memtable);
        self.state.imm_memtables.insert(0, memtable);
        proof {
            assert(self.state.sst_ids() == old_state.sst_ids());
            assert(self.state.imm_memtables@ =~= seq![old_state.memtable] + old_state.imm_memtables@);
            assert(self.state.memtables() =~= seq![self.state.memtable] + old_state.memtables());
            let ids = self.state.memtable_ids();
            let old_ids = old_state.memtable_ids();
            assert(ids =~= seq![new_id] + old_ids);
            assert forall|i: int, j: int| 0 <= i < j < ids.len() implies #[trigger] ids[i]
                > #[trigger] ids[j] by {
                if i > 0 {
                    assert(old_ids[i - 1] > old_ids[j - 1]);
                } else if j > 1 {
                    assert(old_ids[0] > old_ids[j - 1]);
                }
            }
            assert forall|i: int| 0 <= i < self.state.memtables().len() implies (
            #[trigger] self.state.memtables()[i]).wf() by {
                if i > 0 {
                    assert(self.state.memtables()[i] == old_state.memtables()[i - 1]);
                }
            }
        }
        Some(new_id)
    }

    /// Builds a table, with a fresh id, from the oldest immutable memtable.
    /// The state is left as it is: the caller writes the file durably, then
    /// installs the table with `install_flushed`.
    pub fn build_flush(&mut self, block_size: usize) -> (r: Result<Option<(SsTable, Vec<u8>)>>)
        requires
            old(self).wf(),
        ensures
            final(self).wf(),
            final(self).spec_state() == old(self).spec_state(),
            final(self).threshold() == old(self).threshold(),
            old(self).spec_state().imm_memtables@.len() == 0 ==> (r matches Ok(None))
                && final(self).spec_next_sst_id() == old(self).spec_next_sst_id(),
            old(self).spec_state().imm_memtables@.len() > 0 ==> !(r matches Ok(None)),
            r is Err ==> r->Err_0 is Format,
            r is Err ==> final(self).spec_next_sst_id() == old(self).spec_next_sst_id(),
            r is Err ==> old(self).spec_next_sst_id() == usize::MAX || exists|
                es: Seq<(Vec<u8>, Vec<u8>)>,
            |
                entries_match(es, old(self).spec_state().imm_memtables@.last().contents())
                    && !table_builds(pair_views(es), block_size as nat),
            r matches Ok(Some(p)) ==> {
                &&& p.0.id == old(self).spec_next_sst_id()
                &&& final(self).spec_next_sst_id() == old(self).spec_next_sst_id() + 1
                &&& exists|b: SsTableBuilder, es: Seq<(Vec<u8>, Vec<u8>)>|
                    entries_match(es, old(self).spec_state().imm_memtables@.last().contents())
                        && b.wf() && b.added() == pair_views(es) && built_table(b, p.0.id, p.0, p.1@)
            },
    {
        let n = self.state.imm_memtables.len();
        if n == 0 {
            return Ok(None);
        }
        if self.next_sst_id == usize::MAX {
            return Err(format_error("table ids exhausted"));
        }
        let id = self.next_sst_id;
        let oldest = &self.state.imm_memtables[n - 1];
        assert(self.state.memtables()[n as int] == *oldest);
        let mut builder = SsTableBuilder::new(block_size);
        let ghost empty = builder.added();
        let ghost bs = builder.block_size();
        let flushed = oldest.flush(&mut builder);
        let ghost es = choose|es: Seq<(Vec<u8>, Vec<u8>)>|
            {
                &&& entries_match(es, oldest.contents())
                &&& flushed is Ok <==> adds_succeed(empty + pair_views(es), 0, bs)
                &&& flushed is Ok ==> builder.added() == empty + pair_views(es)
            };
        assert(empty + pair_views(es) =~= pair_views(es));
        match flushed {
            Ok(()) => {},
            Err(e) => {
                assert(!adds_succeed(pair_views(es), 0, bs));
                assert(!table_builds(pair_views(es), block_size as nat));
                assert(self.state.imm_memtables@.last() == *oldest);
                return Err(e);
            },
        }
        let ghost b = builder;
        let built = builder.build(id);
        match built {
            Ok(p) => {
                self.next_sst_id = id + 1;
                Ok(Some(p))
            },
            Err(e) => {
                assert(!table_builds(pair_views(es), block_size as nat));
                assert(self.state.imm_memtables@.last() == *oldest);
                Err(e)
            },
        }
    }

    /// Installs a flushed table: records it, puts its id first in level 0
    /// and retires the oldest immutable memtable.
    pub fn install_flushed(&mut self, table: SsTable)
        requires
            old(self).wf(),
            old(self).spec_state().imm_memtables@.len() > 0,
            !old(self).spec_state().sstables@.contains_key(table.id),
            table.id < old(self).spec_next_sst_id(),
            table.bloom.filter@.len() * 8 <= usize::MAX,
        ensures
            final(self).wf(),
            final(self).threshold() == old(self).threshold(),
            final(self).spec_next_sst_id() == old(self).spec_next_sst_id(),
            final(self).spec_state().memtable == old(self).spec_state().memtable,
            final(self).spec_state().imm_memtables@ == old(self).spec_state().imm_memtables@.drop_last(),
            final(self).spec_state().l0_sstables@ == seq![table.id] + old(self).spec_state().l0_sstables@,
            final(self).spec_state().levels@ == old(self).spec_state().levels@,
            final(self).spec_state().sstables@ == old(self).spec_state().sstables@.insert(table.id, table),
    {
        let ghost old_state = self.state;
        let id = table.id;
        self.state.sstables.insert(id, table);
        self.state.l0_sstables.insert(0, id);
        self.state.imm_memtables.pop();
        proof {
            assert(self.state.l0_sstables@ =~= seq![id] + old_state.l0_sstables@);
            assert(self.state.sst_ids() =~= seq![id] + old_state.sst_ids());
            assert(self.state.imm_memtables@ =~= old_state.imm_memtables@.drop_last());
            assert(self.state.memtables() =~= old_state.memtables().drop_last());
            let ids = self.state.memtable_ids();
            let old_ids = old_state.memtable_ids();
            assert(ids =~= old_ids.drop_last());
            assert forall|i: int, j: int| 0 <= i < j < ids.len() implies #[trigger] ids[i]
                > #[trigger] ids[j] by {
                assert(old_ids[i] > old_ids[j]);
            }
            assert forall|i: int| 0 <= i < self.state.memtables().len() implies (
            #[trigger] self.state.memtables()[i]).wf() by {
                assert(self.state.memtables()[i] == old_state.memtables()[i]);
            }
            assert forall|i: int| 0 <= i < self.state.sst_ids().len() implies self.state.sstables@.contains_key(
                #[trigger] self.state.sst_ids()[i],
            ) by {
                if i > 0 {
                    assert(self.state.sst_ids()[i] == old_state.sst_ids()[i - 1]);
                }
            }
        }
    }

    /// The id the next flushed table gets.
    pub fn next_sst_id(&self) -> (r: usize)
        ensures
            r == self.spec_next_sst_id(),
    {
        self.next_sst_id
    }

    /// The current state.
    pub fn state(&self) -> (r: &LsmStorageState)
        ensures
            *r == self.spec_state(),
    {
        &self.state
    }
}

} // verus!
