//! The injectable random sources that drive generation. The chain only
//! needs one capability: a uniformly distributed integer below a bound.

use crate::model::cap_from_script;
use vstd::prelude::*;

verus! {

/// A source of uniformly distributed integers, injected into generation.
///
/// A source may be deterministic: its draws are then a function of a
/// model state — a script of raw values together with how far it has been
/// consumed — and generation driven by such a source is itself
/// deterministic. A source backed by entropy (or by a generator whose
/// draws the library cannot describe) leaves `deterministic` false and
/// promises only the bound.
pub trait RandomSource: Sized {
    /// Whether this source's draws are a function of its model state.
    spec fn deterministic() -> bool;

    /// The source's model state: the raw draw values still to be
    /// consumed. Meaningful only for deterministic sources.
    spec fn model(&self) -> Seq<nat>;

    /// The cap a deterministic source in model state `m` yields for
    /// `bound`.
    spec fn cap_of(m: Seq<nat>, bound: nat) -> nat;

    /// The model state after one cap has been yielded.
    spec fn next_of(m: Seq<nat>, bound: nat) -> Seq<nat>;

    /// Draws an integer in `[0, bound)`; a deterministic source draws
    /// exactly what its model state dictates and steps that state.
    fn draw_below(&mut self, bound: usize) -> (r: usize)
        requires
            bound >= 1,
        ensures
            r < bound,
            Self::deterministic() ==> r as nat == Self::cap_of(old(self).model(), bound as nat)
                && final(self).model() == Self::next_of(old(self).model(), bound as nat),
    ;
}

/// A deterministic source that replays a fixed script: each draw takes the
/// next scripted value, reduced modulo the bound, and yields zero once the
/// script is exhausted.
pub struct ScriptedSource {
    draws: Vec<usize>,
    pos: usize,
}

impl ScriptedSource {
    /// The scripted values not yet consumed.
    pub closed spec fn remaining(self) -> Seq<nat> {
        if self.pos <= self.draws@.len() {
            self.draws@.map_values(|v: usize| v as nat).skip(self.pos as int)
        } else {
            Seq::empty()
        }
    }

    /// Builds a source that replays `draws` in order.
    pub fn new(draws: Vec<usize>) -> (r: ScriptedSource)
        ensures
            r.remaining() == draws@.map_values(|v: usize| v as nat),
    {
        let r = ScriptedSource { draws, pos: 0 };
        proof {
            assert(r.remaining() =~= r.draws@.map_values(|v: usize| v as nat));
        }
        r
    }
}

impl RandomSource for ScriptedSource {
    open spec fn deterministic() -> bool {
        true
    }

    open spec fn model(&self) -> Seq<nat> {
        self.remaining()
    }

    open spec fn cap_of(m: Seq<nat>, bound: nat) -> nat {
        cap_from_script(m, 0, bound)
    }

    open spec fn next_of(m: Seq<nat>, bound: nat) -> Seq<nat> {
        if m.len() > 0 {
            m.drop_first()
        } else {
            m
        }
    }

    fn draw_below(&mut self, bound: usize) -> (r: usize) {
        let v: usize = if self.pos < self.draws.len() {
            let x = self.draws[self.pos];
            self.pos = self.pos + 1;
            x
        } else {
            0
        };
        v % bound
    }
}

#[verifier::external_type_specification]
#[verifier::external_body]
pub struct ExChaCha12Rng(rand_chacha::ChaCha12Rng);

/// Relies on rand_chacha's `ChaCha12Rng` and rand_core's
/// `SeedableRng::seed_from_u64` to build a stream cipher random number
/// generator from a 64-bit seed. Nothing is claimed of its output.
#[verifier::external_body]
fn chacha_from_seed(seed: u64) -> rand_chacha::ChaCha12Rng {
    <rand_chacha::ChaCha12Rng as rand_chacha::rand_core::SeedableRng>::seed_from_u64(seed)
}

/// Relies on rand's `Rng::gen_range` over `0..bound`: the result is
/// uniformly distributed in `[0, bound)`; the call panics on an empty
/// range, which `bound >= 1` rules out. No more is claimed: the `usize`
/// sampler consumes the generator's stream differently per pointer width,
/// so the draw is not a function of the seed and bounds alone.
#[verifier::external_body]
fn chacha_below(rng: &mut rand_chacha::ChaCha12Rng, bound: usize) -> (r: usize)
    requires
        bound >= 1,
    ensures
        r < bound,
{
    rand::Rng::gen_range(rng, 0..bound)
}

/// A reproducible random source: a ChaCha stream cipher generator seeded
/// from a 64-bit value. Its draws repeat for one seed on one platform,
/// but the library does not model them, so it does not count as
/// deterministic to the verifier.
pub struct SeededSource {
    rng: rand_chacha::ChaCha12Rng,
}

impl SeededSource {
    /// Builds a source whose draws are fixed by `seed`.
    pub fn new(seed: u64) -> SeededSource {
        SeededSource { rng: chacha_from_seed(seed) }
    }
}

impl RandomSource for SeededSource {
    open spec fn deterministic() -> bool {
        false
    }

    open spec fn model(&self) -> Seq<nat> {
        Seq::empty()
    }

    open spec fn cap_of(m: Seq<nat>, bound: nat) -> nat {
        0
    }

    open spec fn next_of(m: Seq<nat>, bound: nat) -> Seq<nat> {
        m
    }

    fn draw_below(&mut self, bound: usize) -> (r: usize) {
        chacha_below(&mut self.rng, bound)
    }
}

#[verifier::external_type_specification]
#[verifier::external_body]
pub struct ExThreadRng(rand::rngs::ThreadRng);

/// Relies on rand's `thread_rng`: a handle to the thread-local generator.
/// Nothing is claimed of its output.
#[verifier::external_body]
fn fresh_thread_rng() -> rand::rngs::ThreadRng {
    rand::thread_rng()
}

/// Relies on rand's `Rng::gen_range` over `0..bound`: the result is
/// uniformly distributed in `[0, bound)`; the call panics on an empty
/// range, which `bound >= 1` rules out.
#[verifier::external_body]
fn thread_below(rng: &mut rand::rngs::ThreadRng, bound: usize) -> (r: usize)
    requires
        bound >= 1,
    ensures
        r < bound,
{
    rand::Rng::gen_range(rng, 0..bound)
}

/// The default random source: the thread-local generator.
pub struct EntropySource {
    rng: rand::rngs::ThreadRng,
}

impl EntropySource {
    /// Builds a source backed by the thread-local generator.
    pub fn new() -> EntropySource {
        EntropySource { rng: fresh_thread_rng() }
    }
}

impl RandomSource for EntropySource {
    open spec fn deterministic() -> bool {
        false
    }

    open spec fn model(&self) -> Seq<nat> {
        Seq::empty()
    }

    open spec fn cap_of(m: Seq<nat>, bound: nat) -> nat {
        0
    }

    open spec fn next_of(m: Seq<nat>, bound: nat) -> Seq<nat> {
        m
    }

    fn draw_below(&mut self, bound: usize) -> (r: usize) {
        thread_below(&mut self.rng, bound)
    }
}

} // verus!
