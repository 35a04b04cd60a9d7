//! Content hashing: a 128-bit content identifier computed from a blob's bytes.
//!
//! The hash is deterministic across platforms and depends on the bytes alone,
//! so byte-identical files always receive the same identifier. A separate
//! function hashes a sequence of characters (used for the metadata hash), and
//! a combined hash folds a metadata hash together with a content hash.

use vstd::prelude::*;

verus! {

use vstd::wrapping::u128_specs;

/// Offset basis of the 128-bit FNV-1a hash.
pub const HASH_OFFSET: u128 = 0x6c62272e07bb014262b821756295c58d;

/// Prime multiplier of the 128-bit FNV-1a hash.
pub const HASH_PRIME: u128 = 0x0000000001000000000000000000013b;

/// One FNV-1a step: fold a 64-bit word into the running hash.
pub open spec fn hash_step(h: u128, w: u64) -> u128 {
    u128_specs::wrapping_mul(h ^ (w as u128), HASH_PRIME)
}

/// Hash of a byte sequence, folding the bytes in order into the offset basis.
pub open spec fn hash_bytes_spec(bytes: Seq<u8>) -> u128
    decreases bytes.len(),
{
    if bytes.len() == 0 {
        HASH_OFFSET
    } else {
        hash_step(hash_bytes_spec(bytes.drop_last()), bytes.last() as u64)
    }
}

/// Hash of a character sequence, folding the code points in order.
pub open spec fn hash_chars_spec(s: Seq<char>) -> u128
    decreases s.len(),
{
    if s.len() == 0 {
        HASH_OFFSET
    } else {
        hash_step(hash_chars_spec(s.drop_last()), s.last() as u64)
    }
}

/// Folding a metadata hash together with a content hash: both words are folded
/// into the offset basis, high halves first.
pub open spec fn combine_hashes_spec(metadata_hash: u128, content_hash: u128) -> u128 {
    hash_step(
        hash_step(
            hash_step(
                hash_step(HASH_OFFSET, (metadata_hash >> 64) as u64),
                metadata_hash as u64,
            ),
            (content_hash >> 64) as u64,
        ),
        content_hash as u64,
    )
}

/// The combined hash of a file: when a metadata hash is present it is folded
/// with the content hash, otherwise the combined hash is the content hash.
pub open spec fn combined_hash_of(metadata_hash: Option<u128>, content_hash: u128) -> u128 {
    match metadata_hash {
        Some(m) => combine_hashes_spec(m, content_hash),
        None => content_hash,
    }
}

/// Computes [`hash_bytes_spec`] of a byte slice.
pub fn hash_bytes(bytes: &[u8]) -> (r: u128)
    ensures
        r == hash_bytes_spec(bytes@),
{
    let mut h: u128 = HASH_OFFSET;
    let mut i: usize = 0;
    while i < bytes.len()
        invariant
            i <= bytes@.len(),
            h == hash_bytes_spec(bytes@.subrange(0, i as int)),
        decreases bytes@.len() - i,
    {
        let b = bytes[i];
        proof {
            let pre = bytes@.subrange(0, i as int);
            let post = bytes@.subrange(0, i + 1 as int);
            assert(post.drop_last() =~= pre);
            assert(post.last() == bytes@[i as int]);
        }
        h = (h ^ (b as u128)).wrapping_mul(HASH_PRIME);
        i = i + 1;
    }
    proof {
        assert(bytes@.subrange(0, bytes@.len() as int) =~= bytes@);
    }
    h
}

/// Computes [`hash_chars_spec`] of a string slice.
pub fn hash_str(s: &str) -> (r: u128)
    ensures
        r == hash_chars_spec(s@),
{
    let n = s.unicode_len();
    let mut h: u128 = HASH_OFFSET;
    let mut i: usize = 0;
    while i < n
        invariant
            n == s@.len(),
            i <= n,
            h == hash_chars_spec(s@.subrange(0, i as int)),
        decreases n - i,
    {
        let c = s.get_char(i);
        proof {
            let pre = s@.subrange(0, i as int);
            let post = s@.subrange(0, i + 1 as int);
            assert(post.drop_last() =~= pre);
            assert(post.last() == s@[i as int]);
        }
        h = (h ^ ((c as u32) as u128)).wrapping_mul(HASH_PRIME);
        i = i + 1;
    }
    proof {
        assert(s@.subrange(0, s@.len() as int) =~= s@);
    }
    h
}

/// Computes [`combine_hashes_spec`].
pub fn combine_hashes(metadata_hash: u128, content_hash: u128) -> (r: u128)
    ensures
        r == combine_hashes_spec(metadata_hash, content_hash),
{
    let mut h: u128 = HASH_OFFSET;
    h = (h ^ ((metadata_hash >> 64) as u64 as u128)).wrapping_mul(HASH_PRIME);
    h = (h ^ (metadata_hash as u64 as u128)).wrapping_mul(HASH_PRIME);
    h = (h ^ ((content_hash >> 64) as u64 as u128)).wrapping_mul(HASH_PRIME);
    h = (h ^ (content_hash as u64 as u128)).wrapping_mul(HASH_PRIME);
    h
}

/// Content addressing: byte-identical blobs always hash alike.
///
/// Law: for any two byte sequences that are equal, the content hashes are
/// equal as well.
pub proof fn lemma_content_addressing(b1: Seq<u8>, b2: Seq<u8>)
    requires
        b1 == b2,
    ensures
        hash_bytes_spec(b1) == hash_bytes_spec(b2),
{
}

/// A 128-bit content identifier for blobs and tree nodes.
#[derive(Clone, Copy, Debug, PartialEq, Eq, Structural)]
pub struct MerkleHash {
    value: u128,
}

impl MerkleHash {
    /// The raw 128-bit value.
    pub closed spec fn spec_value(&self) -> u128 {
        self.value
    }

    pub fn new(value: u128) -> (r: MerkleHash)
        ensures
            r.spec_value() == value,
    {
        MerkleHash { value }
    }

    pub fn to_u128(&self) -> (r: u128)
        ensures
            r == self.spec_value(),
    {
        self.value
    }
}

/// The lowercase hexadecimal digit for a value below 16.
pub open spec fn hex_digit_spec(v: u128) -> char {
    seq!['0', '1', '2', '3', '4', '5', '6', '7', '8', '9', 'a', 'b', 'c', 'd', 'e', 'f'][v as int % 16]
}

/// The 32-character lowercase hexadecimal rendering of a 128-bit value,
/// most significant digit first.
pub open spec fn hex_of(v: u128) -> Seq<char> {
    Seq::new(32, |i: int| hex_digit_spec((v >> ((31 - i) * 4)) as u128 % 16))
}

impl MerkleHash {
    /// Renders the hash as its 32-digit lowercase hexadecimal string.
    pub fn to_hex_string(&self) -> (r: String)
        ensures
            r@ == hex_of(self.spec_value()),
    {
        let digits = "0123456789abcdef";
        proof {
            reveal_strlit("0123456789abcdef");
        }
        let mut out = String::new();
        let mut i: usize = 0;
        while i < 32
            invariant
                i <= 32,
                digits@ =~= seq!['0', '1', '2', '3', '4', '5', '6', '7', '8', '9', 'a', 'b', 'c', 'd', 'e', 'f'],
                digits.is_ascii(),
                out@ =~= hex_of(self.spec_value()).subrange(0, i as int),
            decreases 32 - i,
        {
            let shift: u32 = ((31 - i) * 4) as u32;
            let nibble: u128 = (self.value >> shift) % 16;
            let d: usize = nibble as usize;
            let ds = digits.substring_ascii(d, d + 1);
            let mut next = out;
            next.append(ds);
            out = next;
            proof {
                assert(ds@ =~= seq![hex_digit_spec(nibble)]);
                assert(out@ =~= hex_of(self.spec_value()).subrange(0, i + 1 as int));
            }
            i = i + 1;
        }
        proof {
            assert(hex_of(self.spec_value()).subrange(0, 32) =~= hex_of(self.spec_value()));
        }
        out
    }
}

} // verus!
