//! Keys of the stored records.
use vstd::prelude::*;
use crate::types::ChunkId;

verus! {

/// Byte `i` of the number, the most significant one first.
pub open spec fn be_byte(n: u64, i: int) -> u8 {
    ((n >> ((56 - 8 * i) as u64)) & 0xff) as u8
}

/// The number in eight bytes, the most significant one first.
pub open spec fn be_bytes(n: u64) -> Seq<u8> {
    Seq::new(8, |i: int| be_byte(n, i))
}

/// An ID in sixteen bytes.
pub open spec fn id_bytes(id: ChunkId) -> Seq<u8> {
    be_bytes(id.high) + be_bytes(id.low)
}

/// What the keys of chunk records begin with: `/chunk/`.
pub open spec fn chunk_prefix_bytes() -> Seq<u8> {
    seq![0x2f, 0x63, 0x68, 0x75, 0x6e, 0x6b, 0x2f]
}

/// What the keys of reservation groups begin with: `/reservation/`.
pub open spec fn reservation_prefix_bytes() -> Seq<u8> {
    seq![0x2f, 0x72, 0x65, 0x73, 0x65, 0x72, 0x76, 0x61, 0x74, 0x69, 0x6f, 0x6e, 0x2f]
}

/// Key of a chunk record.
pub open spec fn chunk_key_bytes(id: ChunkId) -> Seq<u8> {
    chunk_prefix_bytes() + id_bytes(id)
}

/// What the keys of a chunk's reservation groups begin with.
pub open spec fn group_prefix_bytes(chunk_id: ChunkId) -> Seq<u8> {
    reservation_prefix_bytes() + id_bytes(chunk_id)
}

/// Key of a reservation group.
pub open spec fn reservation_key_bytes(chunk_id: ChunkId, group_id: ChunkId) -> Seq<u8> {
    group_prefix_bytes(chunk_id) + id_bytes(group_id)
}

fn push_number(out: &mut Vec<u8>, n: u64)
    ensures
        final(out)@ == old(out)@ + be_bytes(n),
{
    let ghost before = out@;
    let mut i: u64 = 0;
    assert(be_bytes(n).take(0) =~= Seq::<u8>::empty());
    assert(before + be_bytes(n).take(0) =~= before);
    while i < 8
        invariant
            i <= 8,
            before == old(out)@,
            out@ == before + be_bytes(n).take(i as int),
        decreases 8 - i,
    {
        let shift: u64 = 56 - 8 * i;
        let masked: u64 = (n >> shift) & 0xff;
        assert(masked <= 0xff) by (bit_vector)
            requires
                masked == (n >> shift) & 0xff,
        ;
        out.push(masked as u8);
        i = i + 1;
        proof {
            assert(be_bytes(n)[i - 1] == masked as u8);
            assert(be_bytes(n).take(i as int) =~= be_bytes(n).take(i - 1).push(masked as u8));
            assert(out@ =~= before + be_bytes(n).take(i as int));
        }
    }
    assert(be_bytes(n).take(8) =~= be_bytes(n));
}

fn push_id(out: &mut Vec<u8>, id: &ChunkId)
    ensures
        final(out)@ == old(out)@ + id_bytes(*id),
{
    let ghost before = out@;
    push_number(out, id.high);
    push_number(out, id.low);
    assert(out@ =~= before + id_bytes(*id));
}

/// What the keys of chunk records begin with.
pub fn chunk_prefix() -> (r: Vec<u8>)
    ensures
        r@ == chunk_prefix_bytes(),
{
    let prefix: Vec<u8> = vec![0x2f, 0x63, 0x68, 0x75, 0x6e, 0x6b, 0x2f];
    assert(prefix@ =~= chunk_prefix_bytes());
    prefix
}

/// What the keys of reservation groups begin with.
pub fn all_reservations_prefix() -> (r: Vec<u8>)
    ensures
        r@ == reservation_prefix_bytes(),
{
    let prefix: Vec<u8> =
        vec![0x2f, 0x72, 0x65, 0x73, 0x65, 0x72, 0x76, 0x61, 0x74, 0x69, 0x6f, 0x6e, 0x2f];
    assert(prefix@ =~= reservation_prefix_bytes());
    prefix
}

/// Key of a chunk record.
pub fn chunk_key(id: &ChunkId) -> (r: Vec<u8>)
    ensures
        r@ == chunk_key_bytes(*id),
{
    let mut key = chunk_prefix();
    push_id(&mut key, id);
    key
}

/// What the keys of a chunk's reservation groups begin with.
pub fn reservation_prefix(chunk_id: &ChunkId) -> (r: Vec<u8>)
    ensures
        r@ == group_prefix_bytes(*chunk_id),
{
    let mut key = all_reservations_prefix();
    push_id(&mut key, chunk_id);
    key
}

/// Key of a reservation group.
pub fn reservation_key(chunk_id: &ChunkId, group_id: &ChunkId) -> (r: Vec<u8>)
    ensures
        r@ == reservation_key_bytes(*chunk_id, *group_id),
{
    let mut key = reservation_prefix(chunk_id);
    push_id(&mut key, group_id);
    key
}

proof fn lemma_be_bytes(a: u64, b: u64)
    requires
        be_bytes(a) == be_bytes(b),
    ensures
        a == b,
{
    assert forall|i: int| 0 <= i < 8 implies #[trigger] be_byte(a, i) == be_byte(b, i) by {
        assert(be_bytes(a)[i] == be_byte(a, i));
        assert(be_bytes(b)[i] == be_byte(b, i));
    }
    assert(be_byte(a, 0) == be_byte(b, 0));
    assert(be_byte(a, 1) == be_byte(b, 1));
    assert(be_byte(a, 2) == be_byte(b, 2));
    assert(be_byte(a, 3) == be_byte(b, 3));
    assert(be_byte(a, 4) == be_byte(b, 4));
    assert(be_byte(a, 5) == be_byte(b, 5));
    assert(be_byte(a, 6) == be_byte(b, 6));
    assert(be_byte(a, 7) == be_byte(b, 7));
    assert(a == b) by (bit_vector)
        requires
            ((a >> 56u64) & 0xff) as u8 == ((b >> 56u64) & 0xff) as u8,
            ((a >> 48u64) & 0xff) as u8 == ((b >> 48u64) & 0xff) as u8,
            ((a >> 40u64) & 0xff) as u8 == ((b >> 40u64) & 0xff) as u8,
            ((a >> 32u64) & 0xff) as u8 == ((b >> 32u64) & 0xff) as u8,
            ((a >> 24u64) & 0xff) as u8 == ((b >> 24u64) & 0xff) as u8,
            ((a >> 16u64) & 0xff) as u8 == ((b >> 16u64) & 0xff) as u8,
            ((a >> 8u64) & 0xff) as u8 == ((b >> 8u64) & 0xff) as u8,
            ((a >> 0u64) & 0xff) as u8 == ((b >> 0u64) & 0xff) as u8,
    ;
}

proof fn lemma_id_bytes(a: ChunkId, b: ChunkId)
    requires
        id_bytes(a) == id_bytes(b),
    ensures
        a == b,
{
    assert(id_bytes(a).take(8) =~= be_bytes(a.high));
    assert(id_bytes(b).take(8) =~= be_bytes(b.high));
    assert(id_bytes(a).skip(8) =~= be_bytes(a.low));
    assert(id_bytes(b).skip(8) =~= be_bytes(b.low));
    lemma_be_bytes(a.high, b.high);
    lemma_be_bytes(a.low, b.low);
}

/// Different chunks have different keys.
pub proof fn law_chunk_keys_differ(a: ChunkId, b: ChunkId)
    requires
        chunk_key_bytes(a) == chunk_key_bytes(b),
    ensures
        a == b,
{
    let n = chunk_prefix_bytes().len() as int;
    assert(chunk_key_bytes(a).skip(n) =~= id_bytes(a));
    assert(chunk_key_bytes(b).skip(n) =~= id_bytes(b));
    lemma_id_bytes(a, b);
}

/// Different reservation groups have different keys, and no key of a group is
/// the key of a chunk.
pub proof fn law_reservation_keys_differ(
    chunk_a: ChunkId,
    group_a: ChunkId,
    chunk_b: ChunkId,
    group_b: ChunkId,
)
    ensures
        reservation_key_bytes(chunk_a, group_a) == reservation_key_bytes(chunk_b, group_b)
            ==> chunk_a == chunk_b && group_a == group_b,
        reservation_key_bytes(chunk_a, group_a) != chunk_key_bytes(chunk_b),
{
    let n = reservation_prefix_bytes().len() as int;
    let ka = reservation_key_bytes(chunk_a, group_a);
    let kb = reservation_key_bytes(chunk_b, group_b);
    if ka == kb {
        assert(ka.subrange(n, n + 16) =~= id_bytes(chunk_a));
        assert(kb.subrange(n, n + 16) =~= id_bytes(chunk_b));
        assert(ka.skip(n + 16) =~= id_bytes(group_a));
        assert(kb.skip(n + 16) =~= id_bytes(group_b));
        lemma_id_bytes(chunk_a, chunk_b);
        lemma_id_bytes(group_a, group_b);
    }
    assert(ka.len() == 45);
    assert(chunk_key_bytes(chunk_b).len() == 23);
}

/// The keys of a chunk's reservation groups, and no others, begin with the
/// chunk's prefix.
pub proof fn law_prefix_selects_chunk(chunk_id: ChunkId, owner: ChunkId, group_id: ChunkId)
    ensures
        reservation_key_bytes(owner, group_id).take(
            group_prefix_bytes(chunk_id).len() as int,
        ) == group_prefix_bytes(chunk_id) <==> owner == chunk_id,
{
    let n = reservation_prefix_bytes().len() as int;
    let key = reservation_key_bytes(owner, group_id);
    assert(key.take(n + 16) =~= group_prefix_bytes(owner));
    if group_prefix_bytes(owner) == group_prefix_bytes(chunk_id) {
        assert(group_prefix_bytes(owner).skip(n) =~= id_bytes(owner));
        assert(group_prefix_bytes(chunk_id).skip(n) =~= id_bytes(chunk_id));
        lemma_id_bytes(owner, chunk_id);
    }
}

/// The keys are what other readers of the store expect: the prefix, then the two
/// halves of each ID, each with its most significant byte first.
pub proof fn law_keys_are_laid_out(chunk_id: ChunkId, group_id: ChunkId)
    ensures
        chunk_key_bytes(chunk_id).len() == 23,
        chunk_key_bytes(chunk_id).take(7) == seq![0x2fu8, 0x63, 0x68, 0x75, 0x6e, 0x6b, 0x2f],
        number_of(chunk_key_bytes(chunk_id).subrange(7, 15)) == chunk_id.high,
        number_of(chunk_key_bytes(chunk_id).subrange(15, 23)) == chunk_id.low,
        reservation_key_bytes(chunk_id, group_id).len() == 45,
        number_of(reservation_key_bytes(chunk_id, group_id).subrange(13, 21)) == chunk_id.high,
        number_of(reservation_key_bytes(chunk_id, group_id).subrange(21, 29)) == chunk_id.low,
        number_of(reservation_key_bytes(chunk_id, group_id).subrange(29, 37)) == group_id.high,
        number_of(reservation_key_bytes(chunk_id, group_id).subrange(37, 45)) == group_id.low,
{
    let chunk = chunk_key_bytes(chunk_id);
    let group = reservation_key_bytes(chunk_id, group_id);
    assert(chunk.take(7) =~= seq![0x2fu8, 0x63, 0x68, 0x75, 0x6e, 0x6b, 0x2f]);
    assert(chunk.subrange(7, 15) =~= be_bytes(chunk_id.high));
    assert(chunk.subrange(15, 23) =~= be_bytes(chunk_id.low));
    assert(group.subrange(13, 21) =~= be_bytes(chunk_id.high));
    assert(group.subrange(21, 29) =~= be_bytes(chunk_id.low));
    assert(group.subrange(29, 37) =~= be_bytes(group_id.high));
    assert(group.subrange(37, 45) =~= be_bytes(group_id.low));
    lemma_number_of(chunk_id.high);
    lemma_number_of(chunk_id.low);
    lemma_number_of(group_id.high);
    lemma_number_of(group_id.low);
}

/// The number that eight bytes stand for, the most significant one first.
pub open spec fn number_of(bytes: Seq<u8>) -> int {
    bytes.fold_left(0int, |number: int, byte: u8| number * 256 + byte)
}

proof fn lemma_low_byte(m: u64)
    ensures
        m == (m >> 8u64) * 256 + (m & 0xff),
        m & 0xff <= 0xff,
{
    assert(m >> 8u64 == m / 256 && m & 0xff == m % 256) by (bit_vector);
}

proof fn lemma_number_of(n: u64)
    ensures
        number_of(be_bytes(n)) == n,
{
    reveal(Seq::fold_left);
    let bytes = be_bytes(n);
    let f = |number: int, byte: u8| number * 256 + byte;
    assert(n >> 56u64 <= 0xff && (n >> 48u64) >> 8u64 == n >> 56u64 && (n >> 40u64) >> 8u64 == n
        >> 48u64 && (n >> 32u64) >> 8u64 == n >> 40u64 && (n >> 24u64) >> 8u64 == n >> 32u64 && (n
        >> 16u64) >> 8u64 == n >> 24u64 && (n >> 8u64) >> 8u64 == n >> 16u64 && (n >> 0u64) >> 8u64
        == n >> 8u64 && n >> 0u64 == n && (n >> 56u64) & 0xff == n >> 56u64) by (bit_vector);
    lemma_low_byte(n >> 48u64);
    lemma_low_byte(n >> 40u64);
    lemma_low_byte(n >> 32u64);
    lemma_low_byte(n >> 24u64);
    lemma_low_byte(n >> 16u64);
    lemma_low_byte(n >> 8u64);
    lemma_low_byte(n >> 0u64);
    let none = Seq::<u8>::empty();
    assert(none.fold_left(0int, f) == 0);
    assert(bytes.take(1).drop_last() =~= none);
    assert(bytes.take(1).last() == be_byte(n, 0));
    assert(be_byte(n, 0) == ((n >> 56u64) & 0xff) as u8);
    assert(bytes.take(1).fold_left(0int, f) == n >> 56u64);
    assert(bytes.take(2).drop_last() =~= bytes.take(1));
    assert(bytes.take(2).fold_left(0int, f) == n >> 48u64);
    assert(bytes.take(3).drop_last() =~= bytes.take(2));
    assert(bytes.take(3).fold_left(0int, f) == n >> 40u64);
    assert(bytes.take(4).drop_last() =~= bytes.take(3));
    assert(bytes.take(4).fold_left(0int, f) == n >> 32u64);
    assert(bytes.take(5).drop_last() =~= bytes.take(4));
    assert(bytes.take(5).fold_left(0int, f) == n >> 24u64);
    assert(bytes.take(6).drop_last() =~= bytes.take(5));
    assert(bytes.take(6).fold_left(0int, f) == n >> 16u64);
    assert(bytes.take(7).drop_last() =~= bytes.take(6));
    assert(bytes.take(7).fold_left(0int, f) == n >> 8u64);
    assert(bytes.drop_last() =~= bytes.take(7));
    assert(bytes.fold_left(0int, f) == n >> 0u64);
}

} // verus!
