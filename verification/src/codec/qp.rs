//! The excitation of the QP codec, as far as it moves samples and does not
//! compute with them.

use super::qp_fields::{subframe_in_range, SubframeModel};
use vstd::prelude::*;

verus! {

/// The number of samples in a subframe.
pub const SUBFRAME_SIZE: usize = 64;

/// The longest pitch.
pub const MAX_PITCH: usize = 300;

/// The number of samples in the pitch memory.
pub const PITCH_MEMORY_SIZE: usize = 364;

/// The state of the noise source after one more sample.
pub open spec fn next_noise(state: int) -> int {
    (state * 0x209 + 0x103) % 0x10000
}

/// A number of sixteen bits taken as signed.
pub open spec fn signed(bits: int) -> int {
    if bits < 0x8000 {
        bits
    } else {
        bits - 0x10000
    }
}

/// The states of the noise source after each of `n` samples.
pub open spec fn noise_states(state: int, n: nat) -> Seq<int>
    decreases n,
{
    if n == 0 {
        Seq::empty()
    } else {
        let before = noise_states(state, (n - 1) as nat);
        before.push(
            next_noise(
                if n == 1 {
                    state
                } else {
                    before.last()
                },
            ),
        )
    }
}

/// The noise that excites short records.
#[derive(Debug, Clone, Copy, PartialEq, Eq)]
pub struct NoiseSource {
    state: u16,
}

impl View for NoiseSource {
    type V = int;

    closed spec fn view(&self) -> int {
        self.state as int
    }
}

impl NoiseSource {
    /// The source in its first state.
    pub fn new() -> (source: Self)
        ensures
            source@ == 0,
    {
        NoiseSource { state: 0 }
    }

    /// The next sample of the noise.
    pub fn next_sample(&mut self) -> (sample: i16)
        ensures
            final(self)@ == next_noise(old(self)@),
            sample == signed(final(self)@),
    {
        let state: u16 = self.state.wrapping_mul(0x209).wrapping_add(0x103);
        assert(state == next_noise(self.state as int)) by {
            let product = self.state * 0x209;
            vstd::arithmetic::div_mod::lemma_add_mod_noop(product, 0x103, 0x10000);
        }
        self.state = state;
        let sample: i16 = state as i16;
        assert(sample == signed(state as int)) by {
            assert(state < 0x8000 ==> state as i16 == state) by (bit_vector);
            assert(state >= 0x8000 ==> state as i16 == state - 0x10000) by (bit_vector);
        }
        sample
    }

    /// The noise of a subframe.
    pub fn next_subframe(&mut self) -> (samples: Vec<i16>)
        ensures
            samples@.len() == 64,
            forall|i: int|
                0 <= i < 64 ==> #[trigger] samples@[i] == signed(
                    noise_states(old(self)@, 64)[i],
                ),
            final(self)@ == noise_states(old(self)@, 64)[63],
    {
        let ghost start = self@;
        let mut samples: Vec<i16> = Vec::new();
        let mut i: usize = 0;
        while i < SUBFRAME_SIZE
            invariant
                i <= SUBFRAME_SIZE,
                samples@.len() == i,
                noise_states(start, i as nat).len() == i,
                i == 0 ==> self@ == start,
                i > 0 ==> self@ == noise_states(start, i as nat)[i - 1],
                forall|j: int|
                    0 <= j < i ==> #[trigger] samples@[j] == signed(
                        noise_states(start, i as nat)[j],
                    ),
            decreases SUBFRAME_SIZE - i,
        {
            let sample = self.next_sample();
            samples.push(sample);
            i += 1;
        }
        samples
    }
}

/// The sample of the pitch memory that sample `i` of the adaptive excitation
/// repeats: one pitch back, and again from there if the pitch is shorter than
/// the subframe.
pub open spec fn adaptive_index(len: int, pitch: int, i: int) -> int {
    len - pitch + i % pitch
}

/// Every pitch that a frame can name lies in the pitch memory, and so does
/// every sample that the adaptive excitation repeats.
pub proof fn law_adaptive_excitation_is_in_memory(subframe: SubframeModel, i: int)
    requires
        subframe_in_range(subframe),
        0 <= i < 64,
    ensures
        0 < subframe.pitch <= 300,
        0 <= adaptive_index(364, subframe.pitch, i) < 364,
{
    lemma_adaptive_index(364, subframe.pitch, i);
}

/// The sample that is repeated lies in the memory.
proof fn lemma_adaptive_index(len: int, pitch: int, i: int)
    requires
        0 < pitch <= len,
        0 <= i,
    ensures
        0 <= adaptive_index(len, pitch, i) < len,
        i < pitch ==> adaptive_index(len, pitch, i) == len - pitch + i,
{
    assert(0 <= i % pitch < pitch) by (nonlinear_arith)
        requires
            0 < pitch,
            0 <= i,
    ;
    if i < pitch {
        assert(i % pitch == i) by (nonlinear_arith)
            requires
                0 <= i < pitch,
        ;
    }
}

/// The adaptive excitation of a subframe: the samples of the pitch memory one
/// pitch back.
pub fn adaptive_excitation<T: Copy>(memory: &[T], pitch: usize) -> (excitation: Vec<T>)
    requires
        0 < pitch <= memory@.len(),
    ensures
        excitation@.len() == 64,
        forall|i: int|
            0 <= i < 64 ==> #[trigger] excitation@[i] == memory@[adaptive_index(
                memory@.len() as int,
                pitch as int,
                i,
            )],
{
    let mem_len = memory.len();
    let mut excitation: Vec<T> = Vec::new();
    let mut i: usize = 0;
    while i < SUBFRAME_SIZE
        invariant
            mem_len == memory@.len(),
            0 < pitch <= mem_len,
            i <= SUBFRAME_SIZE,
            excitation@.len() == i,
            forall|j: int|
                0 <= j < i ==> #[trigger] excitation@[j] == memory@[adaptive_index(
                    mem_len as int,
                    pitch as int,
                    j,
                )],
        decreases SUBFRAME_SIZE - i,
    {
        proof {
            lemma_adaptive_index(mem_len as int, pitch as int, i as int);
        }
        let mem_idx: usize = if pitch < SUBFRAME_SIZE {
            mem_len - pitch + i % pitch
        } else {
            mem_len - pitch + i
        };
        excitation.push(memory[mem_idx]);
        i += 1;
    }
    excitation
}

/// Moves the pitch memory on by one subframe: the oldest samples leave it and
/// the new excitation enters at the end.
pub fn update_pitch_memory<T: Copy>(memory: &mut Vec<T>, excitation: &[T])
    requires
        excitation@.len() == 64,
        old(memory)@.len() >= 64,
    ensures
        final(memory)@ == old(memory)@.skip(64) + excitation@,
        final(memory)@.len() == old(memory)@.len(),
{
    let mem_len = memory.len();
    let mut i: usize = 0;
    while i < mem_len
        invariant
            mem_len == old(memory)@.len(),
            mem_len >= 64,
            excitation@.len() == 64,
            i <= mem_len,
            memory@.len() == mem_len,
            forall|j: int|
                0 <= j < i ==> #[trigger] memory@[j] == (old(memory)@.skip(64) + excitation@)[j],
            forall|j: int| i <= j < mem_len ==> #[trigger] memory@[j] == old(memory)@[j],
        decreases mem_len - i,
    {
        let sample: T = if i < mem_len - SUBFRAME_SIZE {
            memory[i + SUBFRAME_SIZE]
        } else {
            excitation[i - (mem_len - SUBFRAME_SIZE)]
        };
        memory.set(i, sample);
        i += 1;
    }
    assert(memory@ =~= old(memory)@.skip(64) + excitation@);
}

/// Where the pulses of a subframe stand and which amplitudes they have: those
/// of the first `n` whose position lies in the subframe.
pub open spec fn taps(positions: Seq<usize>, pulses: Seq<usize>, n: nat) -> Seq<(usize, usize)>
    decreases n,
{
    if n == 0 {
        Seq::empty()
    } else {
        let before = taps(positions, pulses, (n - 1) as nat);
        if positions[n - 1] < 64 {
            before.push((positions[n - 1], pulses[n - 1]))
        } else {
            before
        }
    }
}

/// Where the pulses of a subframe stand and which amplitudes they have; pulses
/// outside of the subframe are left out.
pub fn pulse_taps(positions: &[usize], pulses: &[usize]) -> (res: Vec<(usize, usize)>)
    requires
        forall|i: int|
            0 <= i < positions@.len() && #[trigger] positions@[i] < 64 ==> i < pulses@.len(),
    ensures
        res@ == taps(positions@, pulses@, positions@.len()),
        forall|i: int| 0 <= i < res@.len() ==> (#[trigger] res@[i]).0 < 64,
{
    let mut res: Vec<(usize, usize)> = Vec::new();
    let mut pi: usize = 0;
    while pi < positions.len()
        invariant
            forall|i: int|
                0 <= i < positions@.len() && #[trigger] positions@[i] < 64 ==> i < pulses@.len(),
            pi <= positions@.len(),
            res@ == taps(positions@, pulses@, pi as nat),
            forall|i: int| 0 <= i < res@.len() ==> (#[trigger] res@[i]).0 < 64,
        decreases positions@.len() - pi,
    {
        if positions[pi] < SUBFRAME_SIZE {
            res.push((positions[pi], pulses[pi]));
        }
        pi += 1;
    }
    res
}

/// The noise source is the congruence that takes its state times 521 plus 259,
/// modulo 65536, and a sample is the new state as a signed number of sixteen
/// bits.
pub proof fn law_noise_is_a_congruence(state: int, n: nat, i: int)
    requires
        0 <= state < 65536,
    ensures
        0 <= next_noise(state) < 65536,
        (next_noise(state) - (521 * state + 259)) % 65536 == 0,
        -32768 <= signed(state) < 32768,
        signed(state) == state || signed(state) == state - 65536,
        noise_states(state, n).len() == n,
        0 <= i < n ==> {
            let before = if i == 0 {
                state
            } else {
                noise_states(state, n)[i - 1]
            };
            &&& 0 <= noise_states(state, n)[i] < 65536
            &&& (noise_states(state, n)[i] - (521 * before + 259)) % 65536 == 0
        },
    decreases n,
{
    lemma_next_noise(state);
    if n > 0 {
        let fewer = (n - 1) as nat;
        law_noise_is_a_congruence(state, fewer, i);
        if n > 1 {
            law_noise_is_a_congruence(state, fewer, n - 2);
        }
        if i == n - 1 {
            let before = if i == 0 {
                state
            } else {
                noise_states(state, fewer).last()
            };
            assert(noise_states(state, n)[i] == next_noise(before));
            lemma_next_noise(before);
        } else if 0 < i < n {
            assert(noise_states(state, n)[i - 1] == noise_states(state, fewer)[i - 1]);
        }
    }
}

/// One step of the congruence.
proof fn lemma_next_noise(state: int)
    ensures
        0 <= next_noise(state) < 65536,
        (next_noise(state) - (521 * state + 259)) % 65536 == 0,
{
    let x = state * 0x209 + 0x103;
    assert(x == 65536 * (x / 65536) + x % 65536);
    assert((0 - 65536 * (x / 65536)) % 65536 == 0);
}

/// The adaptive excitation begins one pitch before the end of the memory, goes on
/// sample by sample, and repeats after a pitch.
pub proof fn law_adaptive_excitation_repeats(len: int, pitch: int, i: int)
    requires
        0 < pitch <= len,
        0 <= i,
    ensures
        i < pitch ==> adaptive_index(len, pitch, i) == len - pitch + i,
        i >= pitch ==> adaptive_index(len, pitch, i) == adaptive_index(len, pitch, i - pitch),
{
    lemma_adaptive_index(len, pitch, i);
    vstd::arithmetic::div_mod::lemma_mod_sub_multiples_vanish(i, pitch);
}

/// The pulses of a subframe are all pulses in order, each with its amplitude,
/// without those whose position is not below 64.
pub proof fn law_taps_are_pulses_in_the_subframe(
    positions: Seq<usize>,
    pulses: Seq<usize>,
    n: nat,
)
    ensures
        taps(positions, pulses, n) == Seq::new(
            n,
            |i: int| (positions[i], pulses[i]),
        ).filter(|tap: (usize, usize)| tap.0 < 64),
    decreases n,
{
    reveal(Seq::filter);
    let all = Seq::new(n, |i: int| (positions[i], pulses[i]));
    if n > 0 {
        law_taps_are_pulses_in_the_subframe(positions, pulses, (n - 1) as nat);
        assert(all.drop_last() =~= Seq::new((n - 1) as nat, |i: int| (positions[i], pulses[i])));
    }
}

} // verus!
