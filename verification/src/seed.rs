use vstd::prelude::*;

use rand::SeedableRng;
use rand_xorshift::XorShiftRng;

verus! {

#[verifier::external_type_specification]
#[verifier::external_body]
pub struct ExXorShiftRng(XorShiftRng);

/// The generator that `XorShiftRng::from_seed` makes of a 16-byte seed.
pub uninterp spec fn xorshift_of(seed: Seq<u8>) -> XorShiftRng;

/// A generator seeded with `seed` (`XorShiftRng::from_seed`, which reads the
/// seed as four little-endian words and replaces an all-zero seed by a fixed
/// one): the result depends on the seed alone.
#[verifier::external_body]
fn xorshift_from_seed(seed: [u8; 16]) -> (rng: XorShiftRng)
    ensures
        rng == xorshift_of(seed@),
{
    XorShiftRng::from_seed(seed)
}

/// Byte `k` of the 16-byte big-endian encoding of `a`.
pub open spec fn big_endian_byte(a: u128, k: int) -> u8 {
    ((a >> ((15 - k) * 8) as u128) & 0xff) as u8
}

/// The 16 bytes of `a`, most significant first.
pub fn seed_bytes(a: u128) -> (bytes: [u8; 16])
    ensures
        forall|k: int| 0 <= k < 16 ==> #[trigger] bytes@[k] == big_endian_byte(a, k),
{
    let mut bytes: [u8; 16] = [0u8; 16];
    let mut offset: usize = 0;
    while offset < 16
        invariant
            offset <= 16,
            forall|k: int| 0 <= k < offset ==> #[trigger] bytes@[k] == big_endian_byte(a, k),
        decreases 16 - offset,
    {
        let shift: u128 = ((15 - offset) * 8) as u128;
        bytes.set(offset, ((a >> shift) & 0xff) as u8);
        offset += 1;
    }
    bytes
}

/// The 16 bytes of `a`, most significant first.
pub open spec fn seed_of(a: u128) -> Seq<u8> {
    Seq::new(16, |k: int| big_endian_byte(a, k))
}

/// A generator seeded with the 16 big-endian bytes of `a`.
pub fn create_rng_from_seed(a: u128) -> (rng: XorShiftRng)
    ensures
        rng == xorshift_of(seed_of(a)),
{
    let seed = seed_bytes(a);
    assert(seed@ =~= seed_of(a));
    xorshift_from_seed(seed)
}

} // verus!
