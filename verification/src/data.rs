//! Generation of pseudo-random data blocks from a seed.

use vstd::prelude::*;
use crate::outside::{
    be_bytes, le_bytes, lemma_le_bytes_len, little_endian_machine, native_bytes, random_u128,
    small_rng_fill_bytes, small_rng_from_seed, small_rng_output,
};
use vstd::arithmetic::power2::{pow2, lemma2_to64, lemma_pow2_adds, lemma_pow2_pos};

verus! {

/// The 32-byte generator seed made from `seed_value`: its 16 bytes written
/// twice, least significant first when `little_endian`, else most significant
/// first.
pub open spec fn seed_bytes(seed_value: u128, little_endian: bool) -> Seq<u8> {
    if little_endian {
        le_bytes(seed_value as nat, 16) + le_bytes(seed_value as nat, 16)
    } else {
        be_bytes(seed_value as nat, 16) + be_bytes(seed_value as nat, 16)
    }
}

/// `seed` is the generator seed of `seed_value` in one of the two byte orders
/// (the machine's own).
pub open spec fn is_seed_of(seed: Seq<u8>, seed_value: u128) -> bool {
    seed == seed_bytes(seed_value, true) || seed == seed_bytes(seed_value, false)
}

/// The block of `size` bytes that a `SmallRng` seeded from `seed_value` (with
/// its bytes in the given order) fills.
pub open spec fn seeded_block(seed_value: u128, little_endian: bool, size: nat) -> Seq<u8> {
    small_rng_output(seed_bytes(seed_value, little_endian), size)
}

/// The generator seed of `seed_value` in the machine's own byte order.
pub open spec fn native_seed(seed_value: u128) -> Seq<u8> {
    seed_bytes(seed_value, little_endian_machine())
}

/// The block of `size` bytes generated for `seed_value`: the output of a
/// `SmallRng` seeded with the value's bytes, in the machine's order, twice.
pub open spec fn generated_block(seed_value: u128, size: nat) -> Seq<u8> {
    small_rng_output(native_seed(seed_value), size)
}

/// The number that the bytes `b` stand for, least significant first.
pub open spec fn le_value(b: Seq<u8>) -> nat
    decreases b.len(),
{
    if b.len() == 0 {
        0
    } else {
        b[0] as nat + 256 * le_value(b.drop_first())
    }
}

/// The number that the bytes `b` stand for when read in the machine's byte
/// order.
pub open spec fn native_value(b: Seq<u8>) -> nat {
    if little_endian_machine() {
        le_value(b)
    } else {
        le_value(b.reverse())
    }
}

/// Writing out the number that bytes stand for gives the bytes back.
proof fn lemma_le_bytes_of_value(b: Seq<u8>)
    ensures
        le_bytes(le_value(b), b.len()) == b,
    decreases b.len(),
{
    if b.len() > 0 {
        let rest = b.drop_first();
        lemma_le_bytes_of_value(rest);
        let x = le_value(b);
        assert(x % 256 == b[0] as nat && x / 256 == le_value(rest)) by (nonlinear_arith)
            requires
                x == b[0] as nat + 256 * le_value(rest),
                0 <= b[0] < 256,
        ;
        assert(le_bytes(x, b.len()) =~= seq![b[0]] + rest);
        assert(seq![b[0]] + rest =~= b);
    }
}

/// Reading back the `n` low bytes of a number below `2^(8n)` gives the number.
proof fn lemma_le_value_of_bytes(x: nat, n: nat)
    requires
        x < pow2(8 * n),
    ensures
        le_value(le_bytes(x, n)) == x,
    decreases n,
{
    lemma_le_bytes_len(x, n);
    if n == 0 {
        lemma2_to64();
    } else {
        let m = (n - 1) as nat;
        lemma2_to64();
        lemma_pow2_adds(8, 8 * m);
        assert(8 * n == 8 + 8 * m);
        assert(x / 256 < pow2(8 * m)) by (nonlinear_arith)
            requires
                x < 256 * pow2(8 * m),
        ;
        lemma_le_value_of_bytes(x / 256, m);
        let b = le_bytes(x, n);
        assert(b.drop_first() =~= le_bytes(x / 256, m));
        assert(x == (x % 256) + 256 * (x / 256)) by (nonlinear_arith);
    }
}

/// Each half of the generator seed of a value reads back, in the machine's
/// byte order, as that value.
pub proof fn law_seed_halves_read_back_as_value(seed_value: u128)
    ensures
        native_seed(seed_value).len() == 32,
        native_value(native_seed(seed_value).subrange(0, 16)) == seed_value,
        native_value(native_seed(seed_value).subrange(16, 32)) == seed_value,
{
    let x = seed_value as nat;
    lemma_le_bytes_len(x, 16);
    lemma2_to64();
    lemma_pow2_adds(64, 64);
    assert(x < pow2(128));
    lemma_le_value_of_bytes(x, 16);
    let l = le_bytes(x, 16);
    let h = native_seed(seed_value);
    if little_endian_machine() {
        assert(h.subrange(0, 16) =~= l);
        assert(h.subrange(16, 32) =~= l);
    } else {
        assert(be_bytes(x, 16).reverse() =~= l);
        assert(h.subrange(0, 16) =~= be_bytes(x, 16));
        assert(h.subrange(16, 32) =~= be_bytes(x, 16));
    }
}

/// The bytes that read back as a value in the machine's order are the value's
/// 16 bytes in that order: there is no other way to write it.
proof fn lemma_native_value_determines_bytes(b: Seq<u8>, seed_value: u128)
    requires
        b.len() == 16,
        native_value(b) == seed_value,
    ensures
        b == native_seed(seed_value).subrange(0, 16),
{
    law_seed_halves_read_back_as_value(seed_value);
    lemma_le_bytes_len(seed_value as nat, 16);
    let h = native_seed(seed_value);
    if little_endian_machine() {
        lemma_le_bytes_of_value(b);
        assert(h.subrange(0, 16) =~= le_bytes(seed_value as nat, 16));
    } else {
        lemma_le_bytes_of_value(b.reverse());
        assert(b =~= b.reverse().reverse());
        assert(h.subrange(0, 16) =~= le_bytes(seed_value as nat, 16).reverse());
    }
}

/// The block generated for a seed value, of any size, is the output of the
/// generator seeded with any 32 bytes whose two halves each read back, in
/// the machine's byte order, as the value.
pub proof fn law_block_is_output_for_value_bytes(seed_value: u128, size: nat, seed: Seq<u8>)
    requires
        seed.len() == 32,
        native_value(seed.subrange(0, 16)) == seed_value,
        native_value(seed.subrange(16, 32)) == seed_value,
    ensures
        generated_block(seed_value, size) == small_rng_output(seed, size),
{
    law_seed_halves_read_back_as_value(seed_value);
    lemma_native_value_determines_bytes(seed.subrange(0, 16), seed_value);
    lemma_native_value_determines_bytes(seed.subrange(16, 32), seed_value);
    let h = native_seed(seed_value);
    assert(h.subrange(16, 32) =~= h.subrange(0, 16)) by {
        lemma_le_bytes_len(seed_value as nat, 16);
    }
    let a = seed.subrange(0, 16);
    let b = seed.subrange(16, 32);
    assert forall|i: int| 0 <= i < 32 implies seed[i] == h[i] by {
        if i < 16 {
            assert(seed[i] == a[i]);
            assert(h[i] == h.subrange(0, 16)[i]);
        } else {
            assert(seed[i] == b[i - 16]);
            assert(h[i] == h.subrange(16, 32)[i - 16]);
        }
    }
    assert(seed =~= h);
}

/// Builds the 32-byte generator seed from a seed value: the value's 16
/// in-memory bytes, repeated twice.
pub fn seed_from_value(seed_value: u128) -> (seed: [u8; 32])
    ensures
        is_seed_of(seed@, seed_value),
        seed@ == native_seed(seed_value),
{
    let bytes: &[u8] = native_bytes(&seed_value);
    proof {
        lemma_le_bytes_len(seed_value as nat, 16);
    }
    assert(bytes@.len() == 16);
    let mut seed: [u8; 32] = [0u8; 32];
    let mut i: usize = 0;
    while i < 32
        invariant
            0 <= i <= 32,
            bytes@.len() == 16,
            seed@.len() == 32,
            forall|j: int| 0 <= j < i ==> #[trigger] seed@[j] == bytes@[j % 16],
        decreases 32 - i,
    {
        seed[i] = bytes[i % 16];
        i = i + 1;
    }
    assert(seed@ =~= bytes@ + bytes@);
    seed
}

/// A block of `size` bytes filled by a generator seeded with `seed`.
fn block_from_seed(seed: [u8; 32], size: usize) -> (block: Vec<u8>)
    ensures
        block@.len() == size,
        block@ == small_rng_output(seed@, size as nat),
{
    let rng = small_rng_from_seed(seed);
    let mut block: Vec<u8> = vec![0u8; size];
    small_rng_fill_bytes(rng, &mut block);
    block
}

/// The seed value to use: the given one, or a freshly drawn random one.
fn seed_value_or_random(seed_rnd: Option<u128>) -> (v: u128)
    ensures
        seed_rnd matches Some(s) ==> v == s,
{
    match seed_rnd {
        Some(s) => s,
        None => random_u128(),
    }
}

/// Generates a data block of the specified size using the given seed value.
///
/// The block is filled by a `SmallRng` seeded with the 16 bytes of the seed
/// value written twice; without a seed value a random one is drawn.
pub fn generate_data_block(size: usize, seed_rnd: Option<u128>) -> (block: Vec<u8>)
    ensures
        block@.len() == size,
        exists|v: u128, little_endian: bool|
            (seed_rnd matches Some(s) ==> v == s) && block@ == #[trigger] seeded_block(
                v,
                little_endian,
                size as nat,
            ),
        seed_rnd matches Some(s) ==> block@ == generated_block(s, size as nat),
        exists|v: u128|
            (seed_rnd matches Some(s) ==> v == s) && block@ == #[trigger] generated_block(
                v,
                size as nat,
            ),
{
    let seed_value = seed_value_or_random(seed_rnd);
    let seed = seed_from_value(seed_value);
    let block = block_from_seed(seed, size);
    proof {
        assert(block@ == seeded_block(seed_value, little_endian_machine(), size as nat));
        assert(block@ == generated_block(seed_value, size as nat));
    }
    block
}

/// Generates a three-dimensional vector of data blocks for hashing tasks:
/// `num_tasks` tasks, each of `num_chunks_per_task` chunks of `chunk_size`
/// bytes. Every chunk is filled by a fresh `SmallRng` seeded from the same
/// seed value (the given one, or one drawn at random), so all chunks are the
/// same block.
pub fn generate_data_blocks_for_async_benchmarking(
    num_tasks: usize,
    num_chunks_per_task: usize,
    chunk_size: usize,
    seed_rnd: Option<u128>,
) -> (blocks: Vec<Vec<Vec<u8>>>)
    ensures
        blocks@.len() == num_tasks,
        forall|t: int| 0 <= t < num_tasks ==> (#[trigger] blocks@[t])@.len() == num_chunks_per_task,
        forall|t: int, c: int|
            0 <= t < num_tasks && 0 <= c < num_chunks_per_task ==> (#[trigger] blocks@[t]@[c])@.len()
                == chunk_size,
        exists|v: u128, little_endian: bool|
            #![trigger seed_bytes(v, little_endian)]
            (seed_rnd matches Some(s) ==> v == s) && forall|t: int, c: int|
                0 <= t < num_tasks && 0 <= c < num_chunks_per_task ==> (#[trigger] blocks@[t]@[c])@
                    == seeded_block(v, little_endian, chunk_size as nat),
        forall|t1: int, c1: int, t2: int, c2: int|
            0 <= t1 < num_tasks && 0 <= c1 < num_chunks_per_task && 0 <= t2 < num_tasks && 0 <= c2
                < num_chunks_per_task ==> (#[trigger] blocks@[t1]@[c1])@ == (#[trigger] blocks@[t2]@[c2])@,
        seed_rnd matches Some(s) ==> forall|t: int, c: int|
            0 <= t < num_tasks && 0 <= c < num_chunks_per_task ==> (#[trigger] blocks@[t]@[c])@
                == generated_block(s, chunk_size as nat),
        exists|v: u128|
            #![trigger generated_block(v, chunk_size as nat)]
            (seed_rnd matches Some(s) ==> v == s) && forall|t: int, c: int|
                0 <= t < num_tasks && 0 <= c < num_chunks_per_task ==> (#[trigger] blocks@[t]@[c])@
                    == generated_block(v, chunk_size as nat),
{
    let seed_value = seed_value_or_random(seed_rnd);
    let seed = seed_from_value(seed_value);
    let ghost little_endian = little_endian_machine();
    let ghost chunk = seeded_block(seed_value, little_endian, chunk_size as nat);
    assert(seed@ == seed_bytes(seed_value, little_endian));
    assert(chunk == generated_block(seed_value, chunk_size as nat));
    let mut blocks: Vec<Vec<Vec<u8>>> = Vec::new();
    let mut t: usize = 0;
    while t < num_tasks
        invariant
            0 <= t <= num_tasks,
            blocks@.len() == t,
            seed@ == seed_bytes(seed_value, little_endian),
            chunk == seeded_block(seed_value, little_endian, chunk_size as nat),
            forall|u: int| 0 <= u < t ==> (#[trigger] blocks@[u])@.len() == num_chunks_per_task,
            forall|u: int, c: int|
                0 <= u < t && 0 <= c < num_chunks_per_task ==> (#[trigger] blocks@[u]@[c])@ == chunk
                    && blocks@[u]@[c]@.len() == chunk_size,
        decreases num_tasks - t,
    {
        let mut chunks: Vec<Vec<u8>> = Vec::new();
        let mut c: usize = 0;
        while c < num_chunks_per_task
            invariant
                0 <= c <= num_chunks_per_task,
                chunks@.len() == c,
                seed@ == seed_bytes(seed_value, little_endian),
                chunk == seeded_block(seed_value, little_endian, chunk_size as nat),
                forall|d: int|
                    0 <= d < c ==> (#[trigger] chunks@[d])@ == chunk && chunks@[d]@.len()
                        == chunk_size,
            decreases num_chunks_per_task - c,
        {
            chunks.push(block_from_seed(seed, chunk_size));
            c = c + 1;
        }
        blocks.push(chunks);
        t = t + 1;
    }
    blocks
}

} // verus!
