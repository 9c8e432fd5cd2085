//! Reproducible random choices, drawn from `rand`'s standard generator.
//!
//! A generator is a state machine: what a draw returns, and the state it leaves,
//! depend on the state before it and on the arguments of the draw alone. The
//! names below stand for those states and results; nothing is claimed of their
//! values beyond what the documentation of `rand` promises.

use rand::rngs::StdRng;
use rand::{Rng, RngCore, SeedableRng};
use vstd::prelude::*;

verus! {

/// Declares `rand::rngs::StdRng`, of which nothing is seen but its state.
#[verifier::external_type_specification]
#[verifier::external_body]
pub struct ExStdRng(rand::rngs::StdRng);

/// The state that a generator holds: the words of its seed, its position in the
/// stream and the words it has buffered.
pub uninterp spec fn rng_state(rng: StdRng) -> Seq<u32>;

/// The state of `StdRng::seed_from_u64(seed)`.
pub uninterp spec fn seeded_state(seed: u64) -> Seq<u32>;

/// What `gen_range(0..len)` returns for a `usize` in `state`, and the state it
/// leaves. The draw consumes words as wide as a pointer, of `pointer_bits` bits.
pub uninterp spec fn index_draw(state: Seq<u32>, len: usize, pointer_bits: u32) -> (usize, Seq<u32>);

/// What `rand::seq::index::sample` returns for `amount` of `length` indices in
/// `state`, and the state it leaves.
pub uninterp spec fn sample_draw(state: Seq<u32>, length: usize, amount: usize) -> (Seq<usize>, Seq<u32>);

/// What `next_u32` returns in `state`, and the state it leaves.
pub uninterp spec fn word_draw(state: Seq<u32>) -> (u32, Seq<u32>);

/// Whether `indices` are `amount` different indices below `length`.
pub open spec fn distinct_below(indices: Seq<usize>, length: nat, amount: nat) -> bool {
    &&& indices.len() == amount
    &&& forall|i: int| 0 <= i < indices.len() ==> (#[trigger] indices[i]) < length
    &&& forall|i: int, j: int| 0 <= i < j < indices.len() ==> #[trigger] indices[i] != #[trigger] indices[j]
}

/// Calls `rand::SeedableRng::seed_from_u64` for `StdRng`: the state of the
/// generator is that of the seed.
#[verifier::external_body]
pub(crate) fn seeded(seed: u64) -> (r: StdRng)
    ensures
        rng_state(r) == seeded_state(seed),
{
    StdRng::seed_from_u64(seed)
}

/// Calls `rand::Rng::gen_range` on `0..len`, which must not be empty: the index
/// lies in that range, and it and the state it leaves are those named for the
/// state before the draw, `len` and the width of a pointer.
#[verifier::external_body]
pub(crate) fn draw_index(rng: &mut StdRng, len: usize) -> (r: usize)
    requires
        len > 0,
    ensures
        r < len,
        r == index_draw(rng_state(*old(rng)), len, usize::BITS).0,
        rng_state(*final(rng)) == index_draw(rng_state(*old(rng)), len, usize::BITS).1,
{
    rng.gen_range(0..len)
}

/// Calls `rand::seq::index::sample`, which panics for more samples than there
/// are indices and, with debug assertions, for all of more indices than 32 bits
/// can number: the samples are distinct indices below `length`, as many as
/// asked for, and they and the state they leave are those named for the state
/// before the draw, `length` and `amount`.
#[verifier::external_body]
pub(crate) fn draw_sample(rng: &mut StdRng, length: usize, amount: usize) -> (r: Vec<usize>)
    requires
        amount <= length,
        amount < length || length <= u32::MAX,
    ensures
        distinct_below(r@, length as nat, amount as nat),
        r@ == sample_draw(rng_state(*old(rng)), length, amount).0,
        rng_state(*final(rng)) == sample_draw(rng_state(*old(rng)), length, amount).1,
{
    rand::seq::index::sample(rng, length, amount).into_vec()
}

/// Calls `rand::RngCore::next_u32`: the word and the state it leaves are those
/// named for the state before the draw.
#[verifier::external_body]
pub(crate) fn draw_word(rng: &mut StdRng) -> (r: u32)
    ensures
        r == word_draw(rng_state(*old(rng))).0,
        rng_state(*final(rng)) == word_draw(rng_state(*old(rng))).1,
{
    rng.next_u32()
}

} // verus!
