//! The write-ahead log record format.
use vstd::prelude::*;
use crate::block::entry_bytes;
use crate::codec::{
    bytes_to_vec, crc32, crc32_of, get_u16_le, get_u32_le, le16, le32, lemma_le16_round_trip,
    lemma_le32_round_trip, put_bytes, put_u16_le, put_u32_le, read_le16, read_le32,
};

verus! {

/// One log record: `key_len | key | value_len | value | crc32`, where the
/// checksum covers the bytes before it.
pub open spec fn wal_record(key: Seq<u8>, value: Seq<u8>) -> Seq<u8> {
    entry_bytes(key, value) + le32(crc32_of(entry_bytes(key, value)))
}

/// Encodes one log record for `put(key, value)`.
pub fn encode_record(key: &[u8], value: &[u8]) -> (r: Vec<u8>)
    requires
        key@.len() <= 65535,
        value@.len() <= 65535,
    ensures
        r@ == wal_record(key@, value@),
{
    let mut buf: Vec<u8> = Vec::new();
    put_u16_le(&mut buf, key.len() as u16);
    put_bytes(&mut buf, key);
    put_u16_le(&mut buf, value.len() as u16);
    put_bytes(&mut buf, value);
    assert(buf@ =~= entry_bytes(key@, value@));
    let checksum = crc32(buf.as_slice());
    put_u32_le(&mut buf, checksum);
    buf
}

/// The length of the record at the start of `log` without its checksum, if
/// its length fields and bytes are all there.
pub open spec fn record_body_len(log: Seq<u8>) -> Option<int> {
    if log.len() < 2 {
        None
    } else {
        let kl = read_le16(log, 0);
        if 2 + kl + 2 > log.len() {
            None
        } else {
            let body = 4 + kl + read_le16(log, 2 + kl);
            if body + 4 > log.len() {
                None
            } else {
                Some(body)
            }
        }
    }
}

/// The records of a log, in order, up to the first one that is torn or whose
/// checksum does not match.
pub open spec fn replay_records(log: Seq<u8>) -> Seq<(Seq<u8>, Seq<u8>)>
    decreases log.len(),
{
    match record_body_len(log) {
        None => Seq::empty(),
        Some(body) => {
            if read_le32(log, body) != crc32_of(log.take(body)) {
                Seq::empty()
            } else {
                let kl = read_le16(log, 0);
                seq![(log.subrange(2, 2 + kl), log.subrange(4 + kl, body))] + replay_records(
                    log.skip(body + 4),
                )
            }
        }
    }
}

/// Reads the records of a log back, stopping at the first torn record or
/// checksum mismatch.
pub fn replay(log: &[u8]) -> (r: Vec<(Vec<u8>, Vec<u8>)>)
    ensures
        r@.map_values(|e: (Vec<u8>, Vec<u8>)| (e.0@, e.1@)) == replay_records(log@),
{
    let mut r: Vec<(Vec<u8>, Vec<u8>)> = Vec::new();
    let mut pos: usize = 0;
    let n = log.len();
    assert(log@.skip(0) =~= log@);
    assert(r@.map_values(|e: (Vec<u8>, Vec<u8>)| (e.0@, e.1@)) =~= Seq::<(Seq<u8>, Seq<u8>)>::empty());
    while pos < n
        invariant
            pos <= n,
            n == log@.len(),
            replay_records(log@) == r@.map_values(|e: (Vec<u8>, Vec<u8>)| (e.0@, e.1@))
                + replay_records(log@.skip(pos as int)),
        ensures
            pos <= n,
            replay_records(log@) == r@.map_values(|e: (Vec<u8>, Vec<u8>)| (e.0@, e.1@))
                + replay_records(log@.skip(pos as int)),
            pos >= n || replay_records(log@.skip(pos as int)) == Seq::<(Seq<u8>, Seq<u8>)>::empty(),
        decreases n - pos,
    {
        let ghost rest = log@.skip(pos as int);
        if n - pos < 2 {
            assert(record_body_len(rest) is None);
            break;
        }
        let kl = get_u16_le(log, pos) as usize;
        assert(kl == read_le16(rest, 0));
        if kl + 4 > n - pos {
            assert(record_body_len(rest) is None);
            break;
        }
        let vl = get_u16_le(log, pos + 2 + kl) as usize;
        assert(vl == read_le16(rest, 2 + kl));
        let body = 4 + kl + vl;
        if body + 4 > n - pos {
            assert(record_body_len(rest) is None);
            break;
        }
        let stored = get_u32_le(log, pos + body);
        assert(stored == read_le32(rest, body as int));
        let actual = crc32(vstd::slice::slice_subrange(log, pos, pos + body));
        assert(log@.subrange(pos as int, pos + body) =~= rest.take(body as int));
        if stored != actual {
            assert(record_body_len(rest) == Some(body as int));
            break;
        }
        let key = bytes_to_vec(vstd::slice::slice_subrange(log, pos + 2, pos + 2 + kl));
        let value = bytes_to_vec(vstd::slice::slice_subrange(log, pos + 4 + kl, pos + body));
        let ghost before = r@;
        r.push((key, value));
        proof {
            assert(key@ =~= rest.subrange(2, 2 + kl));
            assert(value@ =~= rest.subrange(4 + kl, body as int));
            assert(rest.skip(body + 4) =~= log@.skip(pos + body + 4));
            assert(r@.map_values(|e: (Vec<u8>, Vec<u8>)| (e.0@, e.1@)) =~= before.map_values(
                |e: (Vec<u8>, Vec<u8>)| (e.0@, e.1@),
            ).push((key@, value@)));
        }
        pos = pos + body + 4;
    }
    proof {
        if pos >= n {
            assert(log@.skip(pos as int) =~= Seq::<u8>::empty());
        }
    }
    assert(replay_records(log@) =~= r@.map_values(|e: (Vec<u8>, Vec<u8>)| (e.0@, e.1@)));
    r
}

/// Replaying a record written by `encode_record` and followed by more log
/// gives that record back, then the records of the rest.
pub proof fn lemma_replay_record(key: Seq<u8>, value: Seq<u8>, rest: Seq<u8>)
    requires
        key.len() <= 65535,
        value.len() <= 65535,
    ensures
        replay_records(wal_record(key, value) + rest) == seq![(key, value)] + replay_records(rest),
{
    let body = entry_bytes(key, value);
    let c = crc32_of(body);
    let log = wal_record(key, value) + rest;
    let kl = key.len() as int;
    let vl = value.len() as int;
    lemma_le16_round_trip(key.len() as u16);
    lemma_le16_round_trip(value.len() as u16);
    lemma_le32_round_trip(c);
    assert(body.len() == 4 + kl + vl);
    assert(log[0] == le16(key.len() as u16)[0]);
    assert(log[1] == le16(key.len() as u16)[1]);
    assert(read_le16(log, 0) == kl);
    assert(log[2 + kl] == le16(value.len() as u16)[0]);
    assert(log[3 + kl] == le16(value.len() as u16)[1]);
    assert(read_le16(log, 2 + kl) == vl);
    assert(record_body_len(log) == Some(4 + kl + vl));
    let b = 4 + kl + vl;
    assert(log.subrange(b, b + 4) =~= le32(c));
    assert(read_le32(log, b) == read_le32(log.subrange(b, b + 4), 0));
    assert(log.take(b) =~= body);
    assert(log.subrange(2, 2 + kl) =~= key);
    assert(log.subrange(4 + kl, b) =~= value);
    assert(log.skip(b + 4) =~= rest);
}

} // verus!
