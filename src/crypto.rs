//! The two outside capabilities the forest consumes: a 32-byte cryptographic
//! hash (Keccak-256 of the `hasher` crate) and a CSPRNG (`rand`'s `StdRng`).
use vstd::prelude::*;
use hasher::Hasher;
use rand::RngCore;
use crate::topology::Pos;

verus! {

/// A key: one hash digest.
pub type Key = [u8; 32];

#[verifier::external_type_specification]
#[verifier::external_body]
pub struct ExStdRng(rand::rngs::StdRng);

/// The Keccak-256 digest of a byte string.
pub uninterp spec fn keccak256(msg: Seq<u8>) -> Seq<u8>;

/// Relies on `hasher::HasherKeccak::digest`, which returns the 32-byte
/// Keccak-256 digest of its input.
#[verifier::external_body]
fn digest(msg: &Vec<u8>) -> (r: Key)
    ensures
        r@ == keccak256(msg@),
{
    let d = hasher::HasherKeccak::new().digest(msg.as_slice());
    let mut k = [0u8; 32];
    k.copy_from_slice(&d);
    k
}

/// Relies on `rand::RngCore::fill_bytes` of `StdRng`, which fills the buffer
/// with random bytes; nothing is known of them.
#[verifier::external_body]
pub(crate) fn random_key(rng: &mut rand::rngs::StdRng) -> (r: Key) {
    let mut k = [0u8; 32];
    rng.fill_bytes(&mut k);
    k
}

/// The little-endian encoding of `v` on eight bytes.
pub open spec fn le_bytes(v: u64) -> Seq<u8> {
    seq![
        v as u8,
        (v >> 8u64) as u8,
        (v >> 16u64) as u8,
        (v >> 24u64) as u8,
        (v >> 32u64) as u8,
        (v >> 40u64) as u8,
        (v >> 48u64) as u8,
        (v >> 56u64) as u8,
    ]
}

/// The key of the child at `pos` of a node whose key is `key`: the hash of
/// the key, the level and the index, the last two in little-endian.
pub open spec fn child_key(key: Seq<u8>, pos: Pos) -> Seq<u8> {
    keccak256(key + le_bytes(pos.0) + le_bytes(pos.1))
}

fn push_le_bytes(msg: &mut Vec<u8>, v: u64)
    ensures
        final(msg)@ == old(msg)@ + le_bytes(v),
{
    let ghost start = msg@;
    msg.push(v as u8);
    msg.push((v >> 8u64) as u8);
    msg.push((v >> 16u64) as u8);
    msg.push((v >> 24u64) as u8);
    msg.push((v >> 32u64) as u8);
    msg.push((v >> 40u64) as u8);
    msg.push((v >> 48u64) as u8);
    msg.push((v >> 56u64) as u8);
    assert(msg@ =~= start + le_bytes(v));
}

/// One step of a hash chain: the key of the node at `pos` from that of its
/// parent.
pub fn hash_child(key: &Key, pos: Pos) -> (r: Key)
    ensures
        r@ == child_key(key@, pos),
{
    let mut msg: Vec<u8> = Vec::new();
    let mut i: usize = 0;
    while i < 32
        invariant
            i <= 32,
            msg@ == key@.subrange(0, i as int),
        decreases 32 - i,
    {
        msg.push(key[i]);
        i = i + 1;
        assert(msg@ =~= key@.subrange(0, i as int));
    }
    assert(key@.subrange(0, 32) =~= key@);
    push_le_bytes(&mut msg, pos.0);
    push_le_bytes(&mut msg, pos.1);
    digest(&msg)
}

} // verus!
