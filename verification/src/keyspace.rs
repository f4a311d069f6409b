//! Layout of the ordered store: a configuration segment with two fixed keys,
//! a log segment with fixed-width keys and a data segment with keys of any
//! length. Each segment is told apart by the first eight bytes of its keys.

use bytes::BufMut;
use vstd::bytes::spec_u64_to_le_bytes;
use vstd::bytes::spec_u64_to_le_bytes_to_open;
use vstd::prelude::*;
use vstd::string::StringSliceAdditionalSpecFns;

verus! {

/// Tag of the configuration segment.
pub const CONF_PREFIX: u8 = 0;

/// Tag of the log segment.
pub const RAFT_PREFIX: u8 = 1;

/// Tag of the data segment.
pub const DATA_PREFIX: u8 = 2;

/// Width of a segment tag inside a key.
pub const PREFIX_LEN: usize = 8;

/// Width of a log key: the tag followed by the index.
pub const LOG_KEY_LEN: usize = 16;

/// The key of a log entry: the log tag, then the index, both as eight
/// little-endian bytes.
pub open spec fn log_key(idx: u64) -> Seq<u8> {
    spec_u64_to_le_bytes(RAFT_PREFIX as u64) + spec_u64_to_le_bytes(idx)
}

/// The key of a data record: the data tag as eight little-endian bytes, then
/// the bytes of the user's key.
pub open spec fn data_key(user_key: Seq<u8>) -> Seq<u8> {
    spec_u64_to_le_bytes(DATA_PREFIX as u64) + user_key
}

/// The key under which the configuration state is kept.
pub open spec fn conf_state_key() -> Seq<u8> {
    seq![0u8, 0u8, 0u8, 0u8, 0u8, 0u8, 0u8, 67u8, 111u8, 110u8, 102u8, 83u8, 116u8, 97u8, 116u8, 101u8]
}

/// The key under which the hard state is kept.
pub open spec fn hard_state_key() -> Seq<u8> {
    seq![0u8, 0u8, 0u8, 0u8, 0u8, 0u8, 0u8, 72u8, 97u8, 114u8, 100u8, 83u8, 116u8, 97u8, 116u8, 101u8]
}

/// A key of the configuration segment.
pub open spec fn in_conf_segment(key: Seq<u8>) -> bool {
    key == conf_state_key() || key == hard_state_key()
}

/// A key of the log segment.
pub open spec fn in_log_segment(key: Seq<u8>) -> bool {
    exists|idx: u64| key == log_key(idx)
}

/// A key of the data segment.
pub open spec fn in_data_segment(key: Seq<u8>) -> bool {
    exists|user_key: Seq<u8>| key == data_key(user_key)
}

/// Appends `n` to `buf` with `bytes::BufMut::put_u64_le`: the buffer grows by
/// the eight bytes of `n`, least significant first.
#[verifier::external_body]
fn put_u64_le(buf: &mut Vec<u8>, n: u64)
    requires
        old(buf)@.len() + 8 <= isize::MAX,
    ensures
        final(buf)@ == old(buf)@ + spec_u64_to_le_bytes(n),
{
    buf.put_u64_le(n);
}

/// Builds the key of the log entry with index `idx`.
pub fn make_log_key(idx: u64) -> (key: Vec<u8>)
    ensures
        key@ == log_key(idx),
        key@.len() == LOG_KEY_LEN,
{
    let mut key: Vec<u8> = Vec::new();
    put_u64_le(&mut key, RAFT_PREFIX as u64);
    proof {
        vstd::bytes::lemma_auto_spec_u64_to_from_le_bytes();
    }
    put_u64_le(&mut key, idx);
    proof {
        vstd::bytes::lemma_auto_spec_u64_to_from_le_bytes();
        assert(key@ =~= log_key(idx));
    }
    key
}

/// Builds the key of the data record that the user calls `key_s`.
pub fn make_data_key(key_s: &str) -> (key: Vec<u8>)
    ensures
        key@ == data_key(key_s.spec_bytes()),
        key@.len() == PREFIX_LEN + key_s.spec_bytes().len(),
{
    let mut key: Vec<u8> = Vec::new();
    put_u64_le(&mut key, DATA_PREFIX as u64);
    let tail = key_s.as_bytes();
    key.extend_from_slice(tail);
    proof {
        vstd::bytes::lemma_auto_spec_u64_to_from_le_bytes();
        assert(key@ =~= data_key(key_s.spec_bytes()));
    }
    key
}

/// The first byte of a tag's encoding is the tag itself.
proof fn lemma_tag_first_byte(tag: u8)
    ensures
        spec_u64_to_le_bytes(tag as u64).len() == 8,
        spec_u64_to_le_bytes(tag as u64)[0] == tag,
{
    spec_u64_to_le_bytes_to_open(tag as u64);
    let x = tag as u64;
    assert((x & 0xff) as u8 == tag) by (bit_vector)
        requires
            x == tag as u64,
    ;
}

/// No key belongs to two segments: the three key ranges are disjoint.
pub proof fn lemma_segments_disjoint(key: Seq<u8>)
    ensures
        !(in_conf_segment(key) && in_log_segment(key)),
        !(in_conf_segment(key) && in_data_segment(key)),
        !(in_log_segment(key) && in_data_segment(key)),
{
    lemma_tag_first_byte(RAFT_PREFIX);
    lemma_tag_first_byte(DATA_PREFIX);
    if in_conf_segment(key) {
        assert(key[0] == 0u8);
    }
    if in_log_segment(key) {
        let idx = choose|idx: u64| key == log_key(idx);
        assert(key[0] == spec_u64_to_le_bytes(RAFT_PREFIX as u64)[0]);
    }
    if in_data_segment(key) {
        let user_key = choose|user_key: Seq<u8>| key == data_key(user_key);
        assert(key[0] == spec_u64_to_le_bytes(DATA_PREFIX as u64)[0]);
    }
}

/// Two log keys are equal only where their indices are.
pub proof fn lemma_log_key_injective(a: u64, b: u64)
    ensures
        log_key(a) == log_key(b) <==> a == b,
{
    vstd::bytes::lemma_auto_spec_u64_to_from_le_bytes();
    if log_key(a) == log_key(b) {
        assert(log_key(a).subrange(8, 16) =~= spec_u64_to_le_bytes(a));
        assert(log_key(b).subrange(8, 16) =~= spec_u64_to_le_bytes(b));
        assert(vstd::bytes::spec_u64_from_le_bytes(spec_u64_to_le_bytes(a)) == a);
        assert(vstd::bytes::spec_u64_from_le_bytes(spec_u64_to_le_bytes(b)) == b);
    }
}

/// The order of keys in the store: byte by byte, a shorter key before its
/// extensions.
pub open spec fn key_le(a: Seq<u8>, b: Seq<u8>) -> bool
    decreases a.len(),
{
    if a.len() == 0 {
        true
    } else if b.len() == 0 {
        false
    } else if a[0] != b[0] {
        a[0] < b[0]
    } else {
        key_le(a.skip(1), b.skip(1))
    }
}

/// The first key of the log segment.
pub open spec fn low_index_key() -> Seq<u8> {
    log_key(0)
}

/// The last key of the log segment.
pub open spec fn high_index_key() -> Seq<u8> {
    log_key(u64::MAX)
}

/// The first key of the data segment.
pub open spec fn low_data_key() -> Seq<u8> {
    spec_u64_to_le_bytes(DATA_PREFIX as u64)
}

/// The first key behind the data segment.
pub open spec fn high_data_key() -> Seq<u8> {
    spec_u64_to_le_bytes((DATA_PREFIX + 1) as u64)
}

/// Whether `a` comes before `b` in the store, or is the same key.
pub fn key_before_or_at(a: &[u8], b: &[u8]) -> (r: bool)
    ensures
        r == key_le(a@, b@),
{
    let mut i: usize = 0;
    assert(a@.skip(0) =~= a@ && b@.skip(0) =~= b@);
    while i < a.len() && i < b.len()
        invariant
            i <= a@.len(),
            i <= b@.len(),
            key_le(a@, b@) == key_le(a@.skip(i as int), b@.skip(i as int)),
        decreases a@.len() - i,
    {
        proof {
            let x = a@.skip(i as int);
            let y = b@.skip(i as int);
            assert(x[0] == a@[i as int] && y[0] == b@[i as int]);
            assert(x.skip(1) =~= a@.skip(i + 1));
            assert(y.skip(1) =~= b@.skip(i + 1));
        }
        if a[i] != b[i] {
            return a[i] < b[i];
        }
        i += 1;
    }
    i == a.len()
}

/// The first key of the log segment.
pub fn low_index() -> (key: Vec<u8>)
    ensures
        key@ == low_index_key(),
{
    make_log_key(0)
}

/// The last key of the log segment.
pub fn high_index() -> (key: Vec<u8>)
    ensures
        key@ == high_index_key(),
{
    make_log_key(u64::MAX)
}

/// The first key of the data segment.
pub fn low_data() -> (key: Vec<u8>)
    ensures
        key@ == low_data_key(),
{
    let mut key: Vec<u8> = Vec::new();
    put_u64_le(&mut key, DATA_PREFIX as u64);
    assert(key@ =~= low_data_key());
    key
}

/// The first key behind the data segment.
pub fn high_data() -> (key: Vec<u8>)
    ensures
        key@ == high_data_key(),
{
    let mut key: Vec<u8> = Vec::new();
    put_u64_le(&mut key, (DATA_PREFIX + 1) as u64);
    assert(key@ =~= high_data_key());
    key
}

/// Keys of one length are in order where each byte is.
proof fn lemma_bytewise_le(a: Seq<u8>, b: Seq<u8>)
    requires
        a.len() == b.len(),
        forall|i: int| 0 <= i < a.len() ==> a[i] <= b[i],
    ensures
        key_le(a, b),
    decreases a.len(),
{
    if a.len() > 0 && a[0] == b[0] {
        assert forall|i: int| 0 <= i < a.skip(1).len() implies a.skip(1)[i] <= b.skip(1)[i] by {
            assert(a.skip(1)[i] == a[i + 1] && b.skip(1)[i] == b[i + 1]);
        }
        lemma_bytewise_le(a.skip(1), b.skip(1));
    }
}

/// A key comes before each of its extensions.
proof fn lemma_prefix_le(a: Seq<u8>, rest: Seq<u8>)
    ensures
        key_le(a, a + rest),
    decreases a.len(),
{
    if a.len() > 0 {
        assert((a + rest).skip(1) =~= a.skip(1) + rest);
        lemma_prefix_le(a.skip(1), rest);
    }
}

/// Every key of the log segment lies between the first and the last key of
/// the segment.
pub proof fn lemma_log_keys_within_bounds(idx: u64)
    ensures
        key_le(low_index_key(), log_key(idx)),
        key_le(log_key(idx), high_index_key()),
{
    vstd::bytes::lemma_auto_spec_u64_to_from_le_bytes();
    spec_u64_to_le_bytes_to_open(0);
    spec_u64_to_le_bytes_to_open(u64::MAX);
    let zero = spec_u64_to_le_bytes(0);
    let full = spec_u64_to_le_bytes(u64::MAX);
    assert(forall|i: int| 0 <= i < 8 ==> zero[i] == 0u8) by {
        assert(0u64 & 0xff == 0 && (0u64 >> 8) & 0xff == 0 && (0u64 >> 16) & 0xff == 0 && (0u64
            >> 24) & 0xff == 0 && (0u64 >> 32) & 0xff == 0 && (0u64 >> 40) & 0xff == 0 && (0u64
            >> 48) & 0xff == 0 && (0u64 >> 56) & 0xff == 0) by (bit_vector);
    }
    assert(forall|i: int| 0 <= i < 8 ==> full[i] == 255u8) by {
        let m = u64::MAX;
        assert(m & 0xff == 255 && (m >> 8) & 0xff == 255 && (m >> 16) & 0xff == 255 && (m >> 24)
            & 0xff == 255 && (m >> 32) & 0xff == 255 && (m >> 40) & 0xff == 255 && (m >> 48) & 0xff
            == 255 && (m >> 56) & 0xff == 255) by (bit_vector)
            requires
                m == 0xffff_ffff_ffff_ffffu64,
        ;
    }
    lemma_bytewise_le(low_index_key(), log_key(idx));
    lemma_bytewise_le(log_key(idx), high_index_key());
}

/// Every key of the data segment lies at or behind the first key of the
/// segment and before the first key behind it.
pub proof fn lemma_data_keys_within_bounds(user_key: Seq<u8>)
    ensures
        key_le(low_data_key(), data_key(user_key)),
        key_le(data_key(user_key), high_data_key()),
        !key_le(high_data_key(), data_key(user_key)),
{
    lemma_tag_first_byte(DATA_PREFIX);
    lemma_tag_first_byte(3u8);
    lemma_prefix_le(low_data_key(), user_key);
    assert(data_key(user_key)[0] == 2u8);
    assert(high_data_key()[0] == 3u8);
}

} // verus!
