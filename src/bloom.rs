//! A Bloom filter over a set of keys, probed with one 32-bit fingerprint per key.
use vstd::prelude::*;
use crate::codec::put_bytes;
use crate::error::{format_error, Result};

verus! {

/// The 64-bit fingerprint hash of `key`.
pub uninterp spec fn fingerprint64_of(key: Seq<u8>) -> u64;

/// Relies on farmhash::fingerprint64: a 64-bit hash that depends on the bytes
/// alone and is stable across platforms and releases. It does not panic on
/// any input: every step of it either wraps on overflow or stays far below
/// the bounds of its integer type.
#[verifier::external_body]
fn fingerprint64(key: &[u8]) -> (r: u64)
    ensures
        r == fingerprint64_of(key@),
{
    farmhash::fingerprint64(key)
}

/// The 32-bit hash a key is probed with: the low half of its 64-bit
/// fingerprint.
pub open spec fn key_fingerprint(key: Seq<u8>) -> u32 {
    (fingerprint64_of(key) % 0x1_0000_0000) as u32
}

/// The 32-bit hash of `key`.
fn key_hash(key: &[u8]) -> (r: u32)
    ensures
        r == key_fingerprint(key@),
{
    let h = fingerprint64(key);
    (h % 0x1_0000_0000) as u32
}

/// The fingerprints of each key, in order.
pub open spec fn fingerprints(keys: Seq<Seq<u8>>) -> Seq<u32> {
    keys.map_values(|key: Seq<u8>| key_fingerprint(key))
}

/// The stride between probes: `h` rotated right by 17 bits.
pub open spec fn probe_stride(h: u32) -> u32 {
    (h >> 17u32) | (h << 15u32)
}

/// The hash of the `i`-th probe: `h + i * delta(h)`, wrapping at 2^32.
pub open spec fn probe_hash(h: u32, i: nat) -> u32
    decreases i,
{
    if i == 0 {
        h
    } else {
        probe_hash(h, (i - 1) as nat).wrapping_add(probe_stride(h))
    }
}

/// The bit position of the `i`-th probe in a filter of `nbits` bits.
pub open spec fn probe(h: u32, i: nat, nbits: nat) -> nat {
    (probe_hash(h, i) as nat) % nbits
}

/// The positions of the first `k` probes of `h`.
pub open spec fn key_probes(h: u32, k: nat, nbits: nat) -> Set<nat>
    decreases k,
{
    if k == 0 {
        Set::empty()
    } else {
        key_probes(h, (k - 1) as nat, nbits).insert(probe(h, (k - 1) as nat, nbits))
    }
}

/// The positions of the first `k` probes of every hash in `hs`.
pub open spec fn all_probes(hs: Seq<u32>, k: nat, nbits: nat) -> Set<nat>
    decreases hs.len(),
{
    if hs.len() == 0 {
        Set::empty()
    } else {
        all_probes(hs.drop_last(), k, nbits).union(key_probes(hs.last(), k, nbits))
    }
}

/// Whether bit `pos` of the filter is set (bit `pos % 8` of byte `pos / 8`).
pub open spec fn bit_set(filter: Seq<u8>, pos: nat) -> bool {
    filter[(pos / 8) as int] & (1u8 << ((pos % 8) as u8)) != 0
}

/// The bits set in `filter` are exactly the positions in `positions`.
pub open spec fn bits_are(filter: Seq<u8>, positions: Set<nat>) -> bool {
    forall|p: nat| p < filter.len() * 8 ==> (#[trigger] bit_set(filter, p) <==> positions.contains(p))
}

/// All `k` probe bits of `h` are set.
pub open spec fn filter_matches(filter: Seq<u8>, k: nat, h: u32) -> bool {
    &&& filter.len() > 0
    &&& forall|i: nat| i < k ==> #[trigger] bit_set(filter, probe(h, i, filter.len() * 8))
}

/// The number of probes for a density of `bits_per_key`: 0.69 bits per key,
/// rounded down and clamped to 1..=30.
pub open spec fn probe_count(bits_per_key: nat) -> nat {
    let raw = bits_per_key * 69 / 100;
    if raw < 1 {
        1
    } else if raw > 30 {
        30
    } else {
        raw
    }
}

/// The filter size in bytes: `max(n_keys * bits_per_key, 64)` bits, rounded up.
pub open spec fn filter_len(n_keys: nat, bits_per_key: nat) -> nat {
    let raw = n_keys * bits_per_key;
    let nbits = if raw < 64 {
        64
    } else {
        raw
    };
    ((nbits + 7) / 8) as nat
}

/// A simple Bloom filter.
pub struct Bloom {
    /// The filter bits.
    pub filter: Vec<u8>,
    /// The number of probes per key.
    pub k: u8,
}

impl Bloom {
    /// At least 64 bits, 1 to 30 probes, and a bit count that fits a `usize`.
    pub open spec fn wf(&self) -> bool {
        &&& self.filter@.len() >= 8
        &&& self.filter@.len() * 8 <= usize::MAX
        &&& 1 <= self.k <= 30
    }

    /// Builds a filter from keys with `bits_per_key` bits of density per key.
    pub fn build_from_keys(keys: &[Vec<u8>], bits_per_key: usize) -> (r: Self)
        requires
            keys@.len() * bits_per_key + 64 <= usize::MAX,
        ensures
            r.wf(),
            r.k == probe_count(bits_per_key as nat),
            r.filter@.len() == filter_len(keys@.len(), bits_per_key as nat),
            bits_are(
                r.filter@,
                all_probes(
                    fingerprints(keys@.map_values(|key: Vec<u8>| key@)),
                    r.k as nat,
                    r.filter@.len() * 8,
                ),
            ),
    {
        let mut hashes: Vec<u32> = Vec::new();
        let mut j: usize = 0;
        while j < keys.len()
            invariant
                j <= keys@.len(),
                hashes@ == fingerprints(keys@.map_values(|key: Vec<u8>| key@)).take(j as int),
            decreases keys@.len() - j,
        {
            let h = key_hash(keys[j].as_slice());
            hashes.push(h);
            j = j + 1;
            assert(hashes@ =~= fingerprints(keys@.map_values(|key: Vec<u8>| key@)).take(j as int));
        }
        assert(hashes@ =~= fingerprints(keys@.map_values(|key: Vec<u8>| key@)));
        Self::build_from_hashes(hashes.as_slice(), bits_per_key)
    }

    /// Builds a filter from the fingerprints of the keys.
    pub fn build_from_hashes(hashes: &[u32], bits_per_key: usize) -> (r: Self)
        requires
            hashes@.len() * bits_per_key + 64 <= usize::MAX,
        ensures
            r.wf(),
            r.k == probe_count(bits_per_key as nat),
            r.filter@.len() == filter_len(hashes@.len(), bits_per_key as nat),
            bits_are(r.filter@, all_probes(hashes@, r.k as nat, r.filter@.len() * 8)),
    {
        let k: u8 = if bits_per_key >= 100 {
            30
        } else {
            let raw = bits_per_key * 69 / 100;
            if raw < 1 {
                1
            } else if raw > 30 {
                30
            } else {
                raw as u8
            }
        };
        let raw = hashes.len() * bits_per_key;
        let nbits = if raw < 64 {
            64
        } else {
            raw
        };
        let nbytes = (nbits + 7) / 8;
        let nbits = nbytes * 8;
        let mut filter: Vec<u8> = Vec::new();
        while filter.len() < nbytes
            invariant
                filter@.len() <= nbytes,
                forall|b: int| 0 <= b < filter@.len() ==> #[trigger] filter@[b] == 0u8,
            decreases nbytes - filter@.len(),
        {
            filter.push(0u8);
        }
        proof {
            assert forall|p: nat| p < filter@.len() * 8 implies (#[trigger] bit_set(filter@, p)
                <==> all_probes(hashes@.take(0), k as nat, nbits as nat).contains(p)) by {
                let b = filter@[(p / 8) as int];
                let s = (p % 8) as u8;
                assert(b == 0u8);
                assert(0u8 & (1u8 << s) == 0u8) by (bit_vector);
            }
        }
        let mut j: usize = 0;
        while j < hashes.len()
            invariant
                j <= hashes@.len(),
                filter@.len() == nbytes,
                nbits == nbytes * 8,
                nbits > 0,
                bits_are(filter@, all_probes(hashes@.take(j as int), k as nat, nbits as nat)),
            decreases hashes@.len() - j,
        {
            let h0 = hashes[j];
            let delta = (h0 >> 17u32) | (h0 << 15u32);
            let mut h = h0;
            let mut i: u8 = 0;
            let ghost done = all_probes(hashes@.take(j as int), k as nat, nbits as nat);
            while i < k
                invariant
                    i <= k,
                    filter@.len() == nbytes,
                    nbits == nbytes * 8,
                    nbits > 0,
                    h0 == hashes@[j as int],
                    delta == probe_stride(h0),
                    h == probe_hash(h0, i as nat),
                    bits_are(filter@, done.union(key_probes(h0, i as nat, nbits as nat))),
                decreases k - i,
            {
                let bit_pos = (h as usize) % nbits;
                let idx = bit_pos / 8;
                let shift = (bit_pos % 8) as u8;
                let old_byte = filter[idx];
                let ghost old_filter = filter@;
                filter.set(idx, old_byte | (1u8 << shift));
                proof {
                    let covered = done.union(key_probes(h0, (i + 1) as nat, nbits as nat));
                    assert(bit_pos == probe(h0, i as nat, nbits as nat));
                    assert forall|p: nat| p < filter@.len() * 8 implies (#[trigger] bit_set(
                        filter@,
                        p,
                    ) <==> covered.contains(p)) by {
                        assert(bit_set(old_filter, p) <==> done.union(
                            key_probes(h0, i as nat, nbits as nat),
                        ).contains(p));
                        if p / 8 == idx {
                            let t = (p % 8) as u8;
                            assert(t < 8 && shift < 8);
                            lemma_set_bit(old_byte, shift, t);
                            if t == shift {
                                assert(p == bit_pos);
                            }
                        }
                    }
                }
                h = h.wrapping_add(delta);
                i = i + 1;
            }
            proof {
                let t = hashes@.take(j + 1);
                assert(t.drop_last() =~= hashes@.take(j as int));
                assert(all_probes(t, k as nat, nbits as nat) == done.union(
                    key_probes(h0, k as nat, nbits as nat),
                ));
            }
            j = j + 1;
        }
        assert(hashes@.take(hashes@.len() as int) =~= hashes@);
        Self { filter, k }
    }

    /// Decodes a filter: the bits, then the probe count as the last byte.
    pub fn decode(buf: &[u8]) -> (r: Result<Self>)
        ensures
            r is Ok <==> (buf@.len() >= 9 && (buf@.len() - 1) * 8 <= usize::MAX && 1
                <= buf@.last() <= 30),
            r is Ok ==> r->Ok_0.filter@ == buf@.take(buf@.len() - 1) && r->Ok_0.k
                == buf@.last(),
            r is Err ==> r->Err_0 is Format,
    {
        let len = buf.len();
        if len < 9 || len - 1 > usize::MAX / 8 {
            return Err(format_error("invalid bloom filter length"));
        }
        let k = buf[len - 1];
        if k < 1 || k > 30 {
            return Err(format_error("invalid bloom filter probe count"));
        }
        let mut filter: Vec<u8> = Vec::new();
        put_bytes(&mut filter, vstd::slice::slice_subrange(buf, 0, len - 1));
        Ok(Self { filter, k })
    }

    /// Appends the encoded filter: the bits, then the probe count.
    pub fn encode(&self, buf: &mut Vec<u8>)
        ensures
            final(buf)@ == old(buf)@ + self.filter@.push(self.k),
    {
        put_bytes(buf, self.filter.as_slice());
        buf.push(self.k);
        assert(final(buf)@ =~= old(buf)@ + self.filter@.push(self.k));
    }

    /// Whether a key with fingerprint `h` may be in the set.
    pub fn may_contain_hash(&self, h: u32) -> (r: bool)
        requires
            self.filter@.len() * 8 <= usize::MAX,
        ensures
            r == filter_matches(self.filter@, self.k as nat, h),
    {
        let nbits = self.filter.len() * 8;
        if nbits == 0 {
            return false;
        }
        let delta = (h >> 17u32) | (h << 15u32);
        let mut cur = h;
        let mut i: u8 = 0;
        while i < self.k
            invariant
                i <= self.k,
                nbits == self.filter@.len() * 8,
                nbits > 0,
                delta == probe_stride(h),
                cur == probe_hash(h, i as nat),
                forall|j: nat| j < i ==> #[trigger] bit_set(self.filter@, probe(h, j, nbits as nat)),
            decreases self.k - i,
        {
            let bit_pos = (cur as usize) % nbits;
            if (self.filter[bit_pos / 8] & (1u8 << ((bit_pos % 8) as u8))) == 0 {
                assert(!bit_set(self.filter@, probe(h, i as nat, nbits as nat)));
                return false;
            }
            cur = cur.wrapping_add(delta);
            i = i + 1;
        }
        true
    }

    /// Whether `key` may be in the set.
    pub fn may_contain(&self, key: &[u8]) -> (r: bool)
        requires
            self.filter@.len() * 8 <= usize::MAX,
        ensures
            r == filter_matches(self.filter@, self.k as nat, key_fingerprint(key@)),
    {
        let h = key_hash(key);
        self.may_contain_hash(h)
    }
}

/// Setting bit `s` of a byte sets exactly that bit.
pub proof fn lemma_set_bit(b: u8, s: u8, t: u8)
    requires
        s < 8,
        t < 8,
    ensures
        ((b | (1u8 << s)) & (1u8 << t) != 0) <==> ((b & (1u8 << t)) != 0 || s == t),
{
    assert(s < 8 && t < 8 ==> (((b | (1u8 << s)) & (1u8 << t) != 0) <==> ((b & (1u8 << t)) != 0
        || s == t))) by (bit_vector);
}

/// Every probe of a key's hash lies among that key's probes.
pub proof fn lemma_key_probes(h: u32, k: nat, nbits: nat, i: nat)
    requires
        i < k,
    ensures
        key_probes(h, k, nbits).contains(probe(h, i, nbits)),
    decreases k,
{
    if i < k - 1 {
        lemma_key_probes(h, (k - 1) as nat, nbits, i);
    }
}

/// Every hash that went into the filter's probes matches.
pub proof fn lemma_all_probes(hs: Seq<u32>, k: nat, nbits: nat, j: int, i: nat)
    requires
        0 <= j < hs.len(),
        i < k,
    ensures
        all_probes(hs, k, nbits).contains(probe(hs[j], i, nbits)),
    decreases hs.len(),
{
    if j == hs.len() - 1 {
        lemma_key_probes(hs.last(), k, nbits, i);
    } else {
        lemma_all_probes(hs.drop_last(), k, nbits, j, i);
    }
}

/// No false negatives: a filter whose bits are the probes of a set of hashes
/// matches every hash of that set.
pub proof fn lemma_bloom_no_false_negatives(filter: Seq<u8>, hs: Seq<u32>, k: nat, j: int)
    requires
        filter.len() > 0,
        bits_are(filter, all_probes(hs, k, filter.len() * 8)),
        0 <= j < hs.len(),
    ensures
        filter_matches(filter, k, hs[j]),
{
    let nbits = filter.len() * 8;
    assert forall|i: nat| i < k implies #[trigger] bit_set(filter, probe(hs[j], i, nbits)) by {
        lemma_all_probes(hs, k, nbits, j, i);
    }
}

} // verus!
