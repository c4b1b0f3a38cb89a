//! Keyspace codec: encodes region data keys and the per-region metadata
//! keys (raft log entries, hard state, apply state) into the flat byte
//! keyspace of the storage backend, and defines the lexicographic order
//! that region boundaries use.

use vstd::prelude::*;

verus! {

/// Prefix of every user data key in the backend keyspace.
pub const DATA_PREFIX: u8 = 122;
/// Prefix of every internal (local) metadata key.
pub const LOCAL_PREFIX: u8 = 1;
/// Second byte of a raft log key.
pub const RAFT_LOG_INFIX: u8 = 2;
/// Second byte of the hard-state singleton key of a region.
pub const HARD_STATE_INFIX: u8 = 3;
/// Second byte of the apply-state singleton key of a region.
pub const APPLY_STATE_INFIX: u8 = 4;

/// Strict lexicographic order on byte strings: `a` comes before `b` when
/// `a` is a proper prefix of `b`, or the first differing byte is smaller.
pub open spec fn lex_lt(a: Seq<u8>, b: Seq<u8>) -> bool
    decreases a.len(),
{
    if b.len() == 0 {
        false
    } else if a.len() == 0 {
        true
    } else if a[0] < b[0] {
        true
    } else if a[0] > b[0] {
        false
    } else {
        lex_lt(a.skip(1), b.skip(1))
    }
}

/// `lex_lt` restricted to equal heads reduces to the tails.
proof fn lemma_lex_skip_one(a: Seq<u8>, b: Seq<u8>)
    requires
        a.len() > 0,
        b.len() > 0,
        a[0] == b[0],
    ensures
        lex_lt(a, b) == lex_lt(a.skip(1), b.skip(1)),
{
}

/// The order is irreflexive: no byte string comes before itself.
pub proof fn lemma_lex_irreflexive(a: Seq<u8>)
    ensures
        !lex_lt(a, a),
    decreases a.len(),
{
    if a.len() > 0 {
        lemma_lex_irreflexive(a.skip(1));
    }
}

/// The order is asymmetric: at most one of `a < b` and `b < a` holds.
pub proof fn lemma_lex_asymmetric(a: Seq<u8>, b: Seq<u8>)
    ensures
        !(lex_lt(a, b) && lex_lt(b, a)),
    decreases a.len(),
{
    if a.len() > 0 && b.len() > 0 && a[0] == b[0] {
        lemma_lex_asymmetric(a.skip(1), b.skip(1));
    }
}

/// The order is total: two distinct byte strings are ordered one way.
pub proof fn lemma_lex_total(a: Seq<u8>, b: Seq<u8>)
    ensures
        lex_lt(a, b) || lex_lt(b, a) || a == b,
    decreases a.len(),
{
    if a.len() > 0 && b.len() > 0 && a[0] == b[0] {
        lemma_lex_total(a.skip(1), b.skip(1));
        if !lex_lt(a, b) && !lex_lt(b, a) {
            assert(!lex_lt(a.skip(1), b.skip(1)));
            assert(!lex_lt(b.skip(1), a.skip(1)));
            assert(a.skip(1) == b.skip(1));
            assert forall|i: int| 0 <= i < a.len() implies a[i] == b[i] by {
                if i >= 1 {
                    assert(a[i] == a.skip(1)[i - 1]);
                    assert(b[i] == b.skip(1)[i - 1]);
                }
            }
            assert(a =~= b);
        }
    } else if a.len() == 0 && b.len() == 0 {
        assert(a =~= b);
    }
}

/// The order is transitive.
pub proof fn lemma_lex_transitive(a: Seq<u8>, b: Seq<u8>, c: Seq<u8>)
    requires
        lex_lt(a, b),
        lex_lt(b, c),
    ensures
        lex_lt(a, c),
    decreases a.len(),
{
    if a.len() > 0 && b.len() > 0 && c.len() > 0 {
        if a[0] == b[0] && b[0] == c[0] {
            lemma_lex_transitive(a.skip(1), b.skip(1), c.skip(1));
        }
    }
}

/// Compares two byte strings in lexicographic order.
pub fn bytes_lt(a: &Vec<u8>, b: &Vec<u8>) -> (r: bool)
    ensures
        r == lex_lt(a@, b@),
{
    let mut i: usize = 0;
    proof {
        assert(a@.skip(0) =~= a@);
        assert(b@.skip(0) =~= b@);
    }
    loop
        invariant
            i <= a.len(),
            i <= b.len(),
            forall|j: int| 0 <= j < i ==> a@[j] == b@[j],
            lex_lt(a@, b@) == lex_lt(a@.skip(i as int), b@.skip(i as int)),
        decreases a.len() - i,
    {
        if i >= b.len() {
            return false;
        }
        if i >= a.len() {
            return true;
        }
        let x = a[i];
        let y = b[i];
        if x < y {
            return true;
        }
        if x > y {
            return false;
        }
        proof {
            lemma_lex_skip_one(a@.skip(i as int), b@.skip(i as int));
            assert(a@.skip(i as int).skip(1) =~= a@.skip(i + 1));
            assert(b@.skip(i as int).skip(1) =~= b@.skip(i + 1));
        }
        i = i + 1;
    }
}

/// Tests two byte strings for equality.
pub fn bytes_eq(a: &Vec<u8>, b: &Vec<u8>) -> (r: bool)
    ensures
        r == (a@ == b@),
{
    if a.len() != b.len() {
        return false;
    }
    let mut i: usize = 0;
    while i < a.len()
        invariant
            a.len() == b.len(),
            i <= a.len(),
            forall|j: int| 0 <= j < i ==> a@[j] == b@[j],
        decreases a.len() - i,
    {
        if a[i] != b[i] {
            return false;
        }
        i = i + 1;
    }
    proof {
        assert(a@ =~= b@);
    }
    true
}

/// Copies a byte string.
pub fn clone_bytes(a: &Vec<u8>) -> (r: Vec<u8>)
    ensures
        r@ == a@,
{
    let mut out: Vec<u8> = Vec::new();
    let mut i: usize = 0;
    while i < a.len()
        invariant
            i <= a.len(),
            out@ == a@.take(i as int),
        decreases a.len() - i,
    {
        out.push(a[i]);
        proof {
            assert(out@ =~= a@.take(i + 1));
        }
        i = i + 1;
    }
    proof {
        assert(a@.take(a@.len() as int) =~= a@);
    }
    out
}

/// The byte at big-endian position `i` (0 is the most significant) of `v`.
pub open spec fn be_byte(v: u64, i: int) -> u8 {
    ((v >> (((7 - i) * 8) as u64)) & 0xff) as u8
}

/// The eight-byte big-endian encoding of `v`.
pub open spec fn u64_be(v: u64) -> Seq<u8> {
    Seq::new(8, |i: int| be_byte(v, i))
}

/// Encodes `v` as eight big-endian bytes.
pub fn encode_u64(v: u64) -> (r: Vec<u8>)
    ensures
        r@ == u64_be(v),
{
    let mut out: Vec<u8> = Vec::new();
    out.push(((v >> 56) & 0xff) as u8);
    out.push(((v >> 48) & 0xff) as u8);
    out.push(((v >> 40) & 0xff) as u8);
    out.push(((v >> 32) & 0xff) as u8);
    out.push(((v >> 24) & 0xff) as u8);
    out.push(((v >> 16) & 0xff) as u8);
    out.push(((v >> 8) & 0xff) as u8);
    out.push((v & 0xff) as u8);
    proof {
        assert(v & 0xff == (v >> 0) & 0xff) by (bit_vector);
        assert(out@ =~= u64_be(v));
    }
    out
}

/// Decodes eight big-endian bytes back into the integer they encode.
pub fn decode_u64(r: &Vec<u8>, at: usize) -> (v: u64)
    requires
        at + 8 <= r@.len(),
    ensures
        u64_be(v) == r@.subrange(at as int, at + 8),
{
    let n: usize = r.len();
    let b0 = r[at] as u64;
    let b1 = r[at + 1] as u64;
    let b2 = r[at + 2] as u64;
    let b3 = r[at + 3] as u64;
    let b4 = r[at + 4] as u64;
    let b5 = r[at + 5] as u64;
    let b6 = r[at + 6] as u64;
    let b7 = r[at + 7] as u64;
    let v = b0 << 56 | b1 << 48 | b2 << 40 | b3 << 32 | b4 << 24 | b5 << 16 | b6 << 8 | b7;
    proof {
        let w = b0 << 56 | b1 << 48 | b2 << 40 | b3 << 32 | b4 << 24 | b5 << 16 | b6 << 8 | b7;
        assert((b0 <= 0xff && b1 <= 0xff && b2 <= 0xff && b3 <= 0xff && b4 <= 0xff && b5 <= 0xff
            && b6 <= 0xff && b7 <= 0xff && w == (b0 << 56 | b1 << 48 | b2 << 40 | b3 << 32
            | b4 << 24 | b5 << 16 | b6 << 8 | b7)) ==> ((w >> 56) & 0xff == b0 && (w >> 48) & 0xff
            == b1 && (w >> 40) & 0xff == b2 && (w >> 32) & 0xff == b3 && (w >> 24) & 0xff == b4
            && (w >> 16) & 0xff == b5 && (w >> 8) & 0xff == b6 && (w >> 0) & 0xff == b7))
            by (bit_vector);
        assert(u64_be(v) =~= r@.subrange(at as int, at + 8));
    }
    v
}

/// Big-endian encoding is injective: equal encodings mean equal integers.
pub proof fn lemma_u64_be_injective(x: u64, y: u64)
    requires
        u64_be(x) == u64_be(y),
    ensures
        x == y,
{
    assert forall|i: int| 0 <= i < 8 implies be_byte(x, i) == be_byte(y, i) by {
        assert(u64_be(x)[i] == be_byte(x, i));
        assert(u64_be(y)[i] == be_byte(y, i));
    }
    assert(be_byte(x, 0) == be_byte(y, 0));
    assert(be_byte(x, 1) == be_byte(y, 1));
    assert(be_byte(x, 2) == be_byte(y, 2));
    assert(be_byte(x, 3) == be_byte(y, 3));
    assert(be_byte(x, 4) == be_byte(y, 4));
    assert(be_byte(x, 5) == be_byte(y, 5));
    assert(be_byte(x, 6) == be_byte(y, 6));
    assert(be_byte(x, 7) == be_byte(y, 7));
    assert({
        &&& ((x >> 56) & 0xff) as u8 == ((y >> 56) & 0xff) as u8
        &&& ((x >> 48) & 0xff) as u8 == ((y >> 48) & 0xff) as u8
        &&& ((x >> 40) & 0xff) as u8 == ((y >> 40) & 0xff) as u8
        &&& ((x >> 32) & 0xff) as u8 == ((y >> 32) & 0xff) as u8
        &&& ((x >> 24) & 0xff) as u8 == ((y >> 24) & 0xff) as u8
        &&& ((x >> 16) & 0xff) as u8 == ((y >> 16) & 0xff) as u8
        &&& ((x >> 8) & 0xff) as u8 == ((y >> 8) & 0xff) as u8
        &&& ((x >> 0) & 0xff) as u8 == ((y >> 0) & 0xff) as u8
    } ==> x == y) by (bit_vector);
}

/// The data-keyspace image of a user key.
pub open spec fn data_key_spec(k: Seq<u8>) -> Seq<u8> {
    seq![DATA_PREFIX] + k
}

/// Maps a user key into the data keyspace of the backend.
pub fn data_key(k: &Vec<u8>) -> (r: Vec<u8>)
    ensures
        r@ == data_key_spec(k@),
{
    let mut out: Vec<u8> = Vec::new();
    out.push(DATA_PREFIX);
    let mut i: usize = 0;
    while i < k.len()
        invariant
            i <= k.len(),
            out@ == seq![DATA_PREFIX] + k@.take(i as int),
        decreases k.len() - i,
    {
        out.push(k[i]);
        proof {
            assert(out@ =~= seq![DATA_PREFIX] + k@.take(i + 1));
        }
        i = i + 1;
    }
    proof {
        assert(k@.take(k@.len() as int) =~= k@);
    }
    out
}

/// Recovers the user key from its data-keyspace image.
pub fn origin_key(d: &Vec<u8>) -> (r: Vec<u8>)
    requires
        d@.len() >= 1,
        d@[0] == DATA_PREFIX,
    ensures
        data_key_spec(r@) == d@,
{
    let mut out: Vec<u8> = Vec::new();
    let mut i: usize = 1;
    while i < d.len()
        invariant
            1 <= i <= d.len(),
            out@ == d@.subrange(1, i as int),
        decreases d.len() - i,
    {
        out.push(d[i]);
        proof {
            assert(out@ =~= d@.subrange(1, i + 1));
        }
        i = i + 1;
    }
    proof {
        assert(data_key_spec(out@) =~= d@);
    }
    out
}

/// The backend key under which the raft log entry `index` of region
/// `region_id` is persisted.
pub open spec fn raft_log_key_spec(region_id: u64, index: u64) -> Seq<u8> {
    seq![LOCAL_PREFIX, RAFT_LOG_INFIX] + u64_be(region_id) + u64_be(index)
}

/// Builds the backend key of one raft log entry of one region.
pub fn raft_log_key(region_id: u64, index: u64) -> (r: Vec<u8>)
    ensures
        r@ == raft_log_key_spec(region_id, index),
{
    let mut out: Vec<u8> = Vec::new();
    out.push(LOCAL_PREFIX);
    out.push(RAFT_LOG_INFIX);
    let rid = encode_u64(region_id);
    let idx = encode_u64(index);
    let mut i: usize = 0;
    while i < rid.len()
        invariant
            i <= rid.len(),
            rid@ == u64_be(region_id),
            out@ == seq![LOCAL_PREFIX, RAFT_LOG_INFIX] + rid@.take(i as int),
        decreases rid.len() - i,
    {
        out.push(rid[i]);
        proof {
            assert(out@ =~= seq![LOCAL_PREFIX, RAFT_LOG_INFIX] + rid@.take(i + 1));
        }
        i = i + 1;
    }
    let mut j: usize = 0;
    while j < idx.len()
        invariant
            j <= idx.len(),
            rid@ == u64_be(region_id),
            idx@ == u64_be(index),
            out@ == seq![LOCAL_PREFIX, RAFT_LOG_INFIX] + rid@ + idx@.take(j as int),
        decreases idx.len() - j,
    {
        out.push(idx[j]);
        proof {
            assert(out@ =~= seq![LOCAL_PREFIX, RAFT_LOG_INFIX] + rid@ + idx@.take(j + 1));
        }
        j = j + 1;
    }
    proof {
        assert(rid@.take(rid@.len() as int) =~= rid@);
        assert(idx@.take(idx@.len() as int) =~= idx@);
        assert(out@ =~= raft_log_key_spec(region_id, index));
    }
    out
}

/// The backend key of the hard-state singleton of a region.
pub open spec fn hard_state_key_spec(region_id: u64) -> Seq<u8> {
    seq![LOCAL_PREFIX, HARD_STATE_INFIX] + u64_be(region_id)
}

/// The backend key of the apply-state singleton of a region.
pub open spec fn apply_state_key_spec(region_id: u64) -> Seq<u8> {
    seq![LOCAL_PREFIX, APPLY_STATE_INFIX] + u64_be(region_id)
}

/// Builds the backend key of the hard-state singleton of a region.
pub fn hard_state_key(region_id: u64) -> (r: Vec<u8>)
    ensures
        r@ == hard_state_key_spec(region_id),
{
    let mut out: Vec<u8> = Vec::new();
    out.push(LOCAL_PREFIX);
    out.push(HARD_STATE_INFIX);
    let rid = encode_u64(region_id);
    let mut i: usize = 0;
    while i < rid.len()
        invariant
            i <= rid.len(),
            rid@ == u64_be(region_id),
            out@ == seq![LOCAL_PREFIX, HARD_STATE_INFIX] + rid@.take(i as int),
        decreases rid.len() - i,
    {
        out.push(rid[i]);
        proof {
            assert(out@ =~= seq![LOCAL_PREFIX, HARD_STATE_INFIX] + rid@.take(i + 1));
        }
        i = i + 1;
    }
    proof {
        assert(rid@.take(rid@.len() as int) =~= rid@);
        assert(out@ =~= hard_state_key_spec(region_id));
    }
    out
}

/// Raft log keys are injective: distinct (region, index) pairs never
/// collide in the backend keyspace.
pub proof fn lemma_raft_log_key_injective(r1: u64, i1: u64, r2: u64, i2: u64)
    requires
        raft_log_key_spec(r1, i1) == raft_log_key_spec(r2, i2),
    ensures
        r1 == r2,
        i1 == i2,
{
    let a = raft_log_key_spec(r1, i1);
    let b = raft_log_key_spec(r2, i2);
    assert(u64_be(r1) =~= a.subrange(2, 10));
    assert(u64_be(r2) =~= b.subrange(2, 10));
    assert(u64_be(i1) =~= a.subrange(10, 18));
    assert(u64_be(i2) =~= b.subrange(10, 18));
    lemma_u64_be_injective(r1, r2);
    lemma_u64_be_injective(i1, i2);
}

} // verus!
