use vstd::prelude::*;
use rand_core::SeedableRng;
use rand_core::Rng;

verus! {

/// The i-th 32-bit draw of the xorshift generator seeded with `seed`.
///
/// The generator is a pure function of its seed, so the draw is a function of
/// `(seed, i)` alone; nothing more is assumed of its values.
pub uninterp spec fn xorshift_draw(seed: u64, i: int) -> u32;

/// Relies on rand_xorshift's `XorShiftRng`, seeded through rand_core's
/// `SeedableRng::seed_from_u64` and drawn through `Rng::next_u32`: both are
/// documented reproducible, so the i-th draw depends on the seed alone.
#[verifier::external_body]
fn xorshift_draws(seed: u64, n: usize) -> (r: Vec<u32>)
    ensures
        r@.len() == n,
        forall|i: int| 0 <= i < n ==> r@[i] == xorshift_draw(seed, i),
{
    let mut rng = rand_xorshift::XorShiftRng::seed_from_u64(seed);
    (0..n).map(|_| rng.next_u32()).collect()
}

/// Whether stream position `i` is included by the downsampling mask with the
/// given seed, scale and threshold.
pub open spec fn mask_at(seed: u64, scale: u32, threshold: u32, i: int) -> bool
    recommends
        scale >= 1,
{
    xorshift_draw(seed, i) % scale <= threshold
}

/// The mask over stream positions `offset..offset + len`.
pub open spec fn mask_seq(seed: u64, scale: u32, threshold: u32, offset: int, len: int) -> Seq<bool> {
    Seq::new(len as nat, |j: int| mask_at(seed, scale, threshold, offset + j))
}

/// Compute the inclusion mask over stream positions `offset..offset + len`.
///
/// Two calls with equal arguments return bit-identical masks, and the mask
/// over a range is independent of how the caller splits the range into
/// consecutive chunks.
pub fn compute_mask(seed: u64, scale: u32, threshold: u32, offset: usize, len: usize) -> (r: Vec<bool>)
    requires
        scale >= 1,
        offset + len <= usize::MAX,
    ensures
        r@ == mask_seq(seed, scale, threshold, offset as int, len as int),
{
    let draws = xorshift_draws(seed, offset + len);
    let mut r: Vec<bool> = Vec::new();
    let mut j: usize = 0;
    while j < len
        invariant
            scale >= 1,
            offset + len <= usize::MAX,
            j <= len,
            draws@.len() == offset + len,
            forall|i: int| 0 <= i < offset + len ==> draws@[i] == xorshift_draw(seed, i),
            r@.len() == j,
            forall|k: int| 0 <= k < j ==> r@[k] == mask_at(seed, scale, threshold, offset + k),
        decreases len - j,
    {
        r.push(draws[offset + j] % scale <= threshold);
        j += 1;
    }
    assert(r@ =~= mask_seq(seed, scale, threshold, offset as int, len as int));
    r
}

/// A mask over one contiguous range equals the concatenation of the masks
/// over any two consecutive chunks of it.
pub proof fn lemma_mask_seq_split(seed: u64, scale: u32, threshold: u32, offset: int, a: int, b: int)
    requires
        a >= 0,
        b >= 0,
    ensures
        mask_seq(seed, scale, threshold, offset, a + b)
            == mask_seq(seed, scale, threshold, offset, a)
                + mask_seq(seed, scale, threshold, offset + a, b),
{
    assert(mask_seq(seed, scale, threshold, offset, a + b)
        =~= mask_seq(seed, scale, threshold, offset, a)
            + mask_seq(seed, scale, threshold, offset + a, b));
}

} // verus!
