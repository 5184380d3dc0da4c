//! Key hashing: the keys' bytes are folded two at a time (little-endian
//! 16-bit words) into a 64-bit state by multiply-and-add, and the result is
//! mixed once more and rotated.
use vstd::arithmetic::div_mod::lemma_add_mod_noop;
use vstd::prelude::*;
use vstd::wrapping::u64_specs::{wrapping_add, wrapping_mul};

verus! {

/// Multiplier of the fold.
pub const HASH_MULTIPLIER: u64 = 40343;

/// Number of two-byte chunks of a key of `len` bytes (the last may hold one byte).
pub open spec fn chunk_count(len: nat) -> nat {
    (len / 2 + len % 2) as nat
}

/// The `j`-th chunk of `key` as a little-endian word: two bytes, or the last
/// byte alone when the key has odd length.
pub open spec fn chunk_word(key: Seq<u8>, j: int) -> u64 {
    if 2 * j + 1 < key.len() {
        (key[2 * j] as int + 256 * key[2 * j + 1] as int) as u64
    } else {
        key[2 * j] as u64
    }
}

/// The fold state after the first `n` chunks of `key`, starting from the
/// key's length.
pub open spec fn fold_state(key: Seq<u8>, n: nat) -> u64
    decreases n,
{
    if n == 0 {
        key.len() as u64
    } else {
        wrapping_add(
            wrapping_mul(fold_state(key, (n - 1) as nat), HASH_MULTIPLIER),
            chunk_word(key, n - 1),
        )
    }
}

/// Rotates the 64 bits of `x` right by four.
pub open spec fn rotate_right_4(x: u64) -> u64 {
    (x >> 4u64) | (x << 60u64)
}

/// The hash of `key`.
pub open spec fn hash_spec(key: Seq<u8>) -> u64 {
    rotate_right_4(
        wrapping_mul(fold_state(key, chunk_count(key.len())), HASH_MULTIPLIER),
    )
}

/// Each two-byte chunk is the little-endian 16-bit word of its bytes, for
/// every key length; the last chunk of an odd-length key is its last byte.
pub proof fn lemma_chunk_word_little_endian(key: Seq<u8>, j: int)
    requires
        0 <= j,
        2 * j < key.len(),
    ensures
        2 * j + 1 < key.len() ==> chunk_word(key, j) as int == key[2 * j] as int + 256 * key[2
            * j + 1] as int,
        2 * j + 1 == key.len() ==> chunk_word(key, j) as int == key[2 * j] as int,
{
}

/// A key of `len` bytes has `len / 2` rounded up chunks, which cover each
/// byte once.
pub proof fn lemma_chunk_count(len: nat)
    ensures
        chunk_count(len) == (len + 1) / 2,
        2 * chunk_count(len) >= len,
        2 * chunk_count(len) <= len + 1,
{
}

/// One fold step, `state * 40343 + word` with wrapping, is that sum modulo
/// 2^64.
proof fn lemma_wrapping_step(state: u64, word: u64)
    requires
        word < 0x1_0000,
    ensures
        wrapping_add(wrapping_mul(state, HASH_MULTIPLIER), word) as int == (state as int * 40343
            + word as int) % 0x1_0000_0000_0000_0000,
{
    let big = 0x1_0000_0000_0000_0000int;
    let full = state as int * 40343;
    let product = wrapping_mul(state, HASH_MULTIPLIER);
    assert(product as int == full % big);
    lemma_add_mod_noop(full, word as int, big);
    assert((word as int) % big == word as int);
    let sum = product as int + word as int;
    assert(0 <= sum < 2 * big);
    if sum >= big {
        assert(sum % big == sum - big) by (nonlinear_arith)
            requires
                big <= sum < 2 * big,
                big == 0x1_0000_0000_0000_0000int,
        ;
    } else {
        assert(sum % big == sum) by (nonlinear_arith)
            requires
                0 <= sum < big,
                big == 0x1_0000_0000_0000_0000int,
        ;
    }
}

/// The fold starts from the key's length and takes each chunk as
/// `state * 40343 + word` modulo 2^64.
pub proof fn lemma_fold_step(key: Seq<u8>, n: nat)
    requires
        0 < n <= chunk_count(key.len()),
    ensures
        fold_state(key, 0) == key.len() as u64,
        fold_state(key, n) as int == (fold_state(key, (n - 1) as nat) as int * 40343 + chunk_word(
            key,
            n - 1,
        ) as int) % 0x1_0000_0000_0000_0000,
{
    let previous = fold_state(key, (n - 1) as nat);
    let word = chunk_word(key, n - 1);
    assert(word < 0x1_0000) by {
        lemma_chunk_word_little_endian(key, n - 1);
    }
    assert(fold_state(key, n) == wrapping_add(wrapping_mul(previous, HASH_MULTIPLIER), word));
    lemma_wrapping_step(previous, word);
}

/// The hash is the folded state times 40343 modulo 2^64, rotated right by
/// four bits: its low four bits move to the top.
pub proof fn lemma_hash_final(key: Seq<u8>)
    ensures
        ({
            let mixed = (fold_state(key, chunk_count(key.len())) as int * 40343)
                % 0x1_0000_0000_0000_0000;
            hash_spec(key) as int == mixed / 16 + (mixed % 16) * 0x1000_0000_0000_0000
        }),
{
    let mixed = wrapping_mul(fold_state(key, chunk_count(key.len())), HASH_MULTIPLIER);
    assert((mixed >> 4u64) | (mixed << 60u64) == mixed / 16 + (mixed % 16) * 0x1000_0000_0000_0000u64)
        by (bit_vector);
}

/// Hashes `key`.
pub fn hash(key: &[u8]) -> (h: u64)
    ensures
        h == hash_spec(key@),
{
    let len = key.len();
    let chunks = len / 2 + len % 2;
    let mut state: u64 = len as u64;
    let mut c: usize = 0;
    while c < chunks
        invariant
            len == key@.len(),
            chunks == chunk_count(len as nat),
            c <= chunks,
            state == fold_state(key@, c as nat),
        decreases chunks - c,
    {
        let low = 2 * c;
        let word: u64 = if low + 1 < len {
            key[low] as u64 + (key[low + 1] as u64) * 256
        } else {
            key[low] as u64
        };
        state = state.wrapping_mul(HASH_MULTIPLIER).wrapping_add(word);
        c = c + 1;
    }
    let mixed = state.wrapping_mul(HASH_MULTIPLIER);
    (mixed >> 4u64) | (mixed << 60u64)
}

} // verus!
