//! The calls into `rand` and `zerocopy`, with what their sources show of them.

use vstd::prelude::*;
use vstd::endian::{endianness, Endian};
use rand::rngs::SmallRng;
use rand::{RngCore, SeedableRng};
use zerocopy::AsBytes;

verus! {

/// The `n` low bytes of `x`, least significant first.
pub open spec fn le_bytes(x: nat, n: nat) -> Seq<u8>
    decreases n,
{
    if n == 0 {
        seq![]
    } else {
        seq![(x % 256) as u8] + le_bytes(x / 256, (n - 1) as nat)
    }
}

/// There are `n` bytes in `le_bytes(x, n)`.
pub proof fn lemma_le_bytes_len(x: nat, n: nat)
    ensures
        le_bytes(x, n).len() == n,
    decreases n,
{
    if n > 0 {
        lemma_le_bytes_len(x / 256, (n - 1) as nat);
    }
}

/// The `n` low bytes of `x`, most significant first.
pub open spec fn be_bytes(x: nat, n: nat) -> Seq<u8> {
    le_bytes(x, n).reverse()
}

/// Whether the machine stores integers least significant byte first
/// (`vstd`'s abstraction of the executing hardware's byte order).
pub open spec fn little_endian_machine() -> bool {
    endianness() == Endian::Little
}

/// The `n` low bytes of `x` in the machine's byte order.
pub open spec fn native_order_bytes(x: nat, n: nat) -> Seq<u8> {
    if little_endian_machine() {
        le_bytes(x, n)
    } else {
        be_bytes(x, n)
    }
}

/// `rand::rngs::SmallRng`, the small non-cryptographic generator of `rand`.
/// Verus sees nothing inside a value of it.
#[verifier::external_type_specification]
#[verifier::external_body]
pub struct ExSmallRng(SmallRng);

/// `rand::random::<u128>()`: a value drawn from the thread-local generator.
/// Any `u128` may come back, so nothing is stated of it.
#[verifier::external_body]
pub(crate) fn random_u128() -> (x: u128) {
    rand::random::<u128>()
}

/// `zerocopy::AsBytes::as_bytes` on a `u128`: the 16 bytes of its in-memory
/// representation, in the machine's byte order (`vstd::endian::endianness`),
/// which is little- or big-endian.
#[verifier::external_body]
pub(crate) fn native_bytes(x: &u128) -> (b: &[u8])
    ensures
        b@ == le_bytes(*x as nat, 16) || b@ == be_bytes(*x as nat, 16),
        b@ == native_order_bytes(*x as nat, 16),
{
    x.as_bytes()
}

/// The bytes that `fill_bytes` writes into a buffer of `len` bytes when it is
/// the first call on a `SmallRng` made by `from_seed(seed)`. On the targets
/// where a 32-byte seed is accepted (64-bit ones), `SmallRng` is always
/// `Xoshiro256PlusPlus`, whose seeding and output conversions are
/// little-endian, so this depends on the seed and the length alone.
pub uninterp spec fn small_rng_output(seed: Seq<u8>, len: nat) -> Seq<u8>;

/// A `SmallRng` just made from a seed, from which nothing has been drawn yet,
/// together with that seed. Only `small_rng_from_seed` makes one, and
/// `small_rng_fill_bytes` consumes it, so it is filled from at most once.
pub struct FreshRng {
    rng: SmallRng,
    seed: [u8; 32],
}

impl FreshRng {
    /// The seed that the generator was made from.
    pub closed spec fn seed(&self) -> Seq<u8> {
        self.seed@
    }
}

/// `<SmallRng as SeedableRng>::from_seed`: a generator seeded with `seed`,
/// kept with its seed. Nothing is drawn from it here.
#[verifier::external_body]
pub(crate) fn small_rng_from_seed(seed: [u8; 32]) -> (rng: FreshRng)
    ensures
        rng.seed() == seed@,
{
    FreshRng { rng: SmallRng::from_seed(seed), seed }
}

/// `<SmallRng as RngCore>::fill_bytes` as the first draw from a generator
/// made by `from_seed`: overwrites every byte of `dest`, keeping its length,
/// with `small_rng_output` of the seed and that length. It cannot fail.
#[verifier::external_body]
pub(crate) fn small_rng_fill_bytes(rng: FreshRng, dest: &mut Vec<u8>)
    ensures
        final(dest)@.len() == old(dest)@.len(),
        final(dest)@ == small_rng_output(rng.seed(), old(dest)@.len()),
{
    let mut generator = rng.rng;
    generator.fill_bytes(dest.as_mut_slice())
}

} // verus!
