//! Grouping of raw samples into fixed-size prediction chunks.
//!
//! The external predictor is invoked once per full chunk, outside of this
//! crate; the state here only accumulates samples until a chunk is complete
//! and hands it out. A final group of leftover samples smaller than the chunk
//! size is never emitted.

use vstd::prelude::*;

use crate::vad::VoiceActivityDetector;

verus! {

/// Accumulates samples into chunks of exactly `chunk_size` samples.
#[derive(Debug)]
pub struct PredictState<T> {
    /// The configured chunk size.
    pub chunk_size: usize,
    /// The samples received so far that do not yet fill a chunk.
    pub buffer: Vec<T>,
}

impl<T> PredictState<T> {
    /// Creates an empty accumulator for the detector's chunk size.
    pub fn new(vad: &VoiceActivityDetector) -> (r: Self)
        ensures
            r.chunk_size == vad.chunk_size,
            r.buffer@ == Seq::<T>::empty(),
    {
        PredictState { chunk_size: vad.chunk_size(), buffer: Vec::new() }
    }

    /// Accepts one sample. Returns the completed chunk of the buffered
    /// samples followed by this one as soon as they fill a chunk, and
    /// buffers the sample otherwise.
    pub fn try_next(&mut self, sample: T) -> (r: Option<Vec<T>>)
        ensures
            final(self).chunk_size == old(self).chunk_size,
            old(self).buffer@.len() + 1 < old(self).chunk_size ==> {
                &&& r is None
                &&& final(self).buffer@ == old(self).buffer@.push(sample)
            },
            old(self).buffer@.len() + 1 >= old(self).chunk_size ==> {
                &&& final(self).buffer@ == Seq::<T>::empty()
                &&& match r {
                    Some(chunk) => chunk@ == old(self).buffer@.push(sample),
                    None => false,
                }
            },
    {
        self.buffer.push(sample);
        if self.buffer.len() < self.chunk_size {
            return None;
        }
        let mut full: Vec<T> = Vec::new();
        core::mem::swap(&mut self.buffer, &mut full);
        Some(full)
    }
}

/// Groups `samples` into consecutive chunks of exactly `chunk_size` samples,
/// in order. Leftover samples at the end that cannot fill a whole chunk are
/// dropped.
pub fn chunk_samples<T: Copy>(samples: &Vec<T>, chunk_size: usize) -> (r: Vec<Vec<T>>)
    requires
        chunk_size >= 1,
    ensures
        r@.len() == samples@.len() as int / (chunk_size as int),
        forall|i: int|
            0 <= i < r@.len() ==> #[trigger] r@[i]@ == samples@.subrange(
                i * (chunk_size as int),
                i * (chunk_size as int) + (chunk_size as int),
            ),
{
    let n_chunks = samples.len() / chunk_size;
    let ghost cs = chunk_size as int;
    proof {
        vstd::arithmetic::div_mod::lemma_fundamental_div_mod(samples@.len() as int, cs);
        vstd::arithmetic::div_mod::lemma_mod_bound(samples@.len() as int, cs);
    }
    let mut r: Vec<Vec<T>> = Vec::new();
    let mut i: usize = 0;
    while i < n_chunks
        invariant
            i <= n_chunks,
            chunk_size >= 1,
            n_chunks == samples@.len() as int / cs,
            cs == chunk_size as int,
            n_chunks * cs <= samples@.len(),
            samples@.len() <= usize::MAX,
            r@.len() == i,
            forall|j: int|
                0 <= j < i ==> #[trigger] r@[j]@ == samples@.subrange(j * cs, j * cs + cs),
        decreases n_chunks - i,
    {
        proof {
            vstd::arithmetic::mul::lemma_mul_inequality(i as int + 1, n_chunks as int, cs);
            vstd::arithmetic::mul::lemma_mul_is_distributive_add_other_way(cs, i as int, 1);
            assert((i as int + 1) * cs <= (n_chunks as int) * cs);
            assert((i as int + 1) * cs == (i as int) * cs + 1 * cs);
            assert((i as int) * cs + cs <= samples@.len());
        }
        let base = i * chunk_size;
        let mut chunk: Vec<T> = Vec::new();
        let mut j: usize = 0;
        while j < chunk_size
            invariant
                j <= chunk_size,
                chunk_size >= 1,
                cs == chunk_size as int,
                base as int == i * cs,
                base as int + cs <= samples@.len(),
                samples@.len() <= usize::MAX,
                chunk@ == samples@.subrange(base as int, base as int + j),
            decreases chunk_size - j,
        {
            chunk.push(samples[base + j]);
            proof {
                assert(chunk@ =~= samples@.subrange(base as int, base as int + j + 1));
            }
            j = j + 1;
        }
        r.push(chunk);
        i = i + 1;
    }
    r
}

/// Consecutive chunks of `chunk_size` samples concatenate back to exactly
/// the samples they were cut from; only a final group too small to fill a
/// chunk is missing. Applies to the output of [`chunk_samples`] through its
/// contract.
pub proof fn lemma_chunks_flatten<T>(chunks: Seq<Seq<T>>, samples: Seq<T>, chunk_size: int)
    requires
        chunk_size >= 1,
        chunks.len() * chunk_size <= samples.len(),
        forall|i: int|
            0 <= i < chunks.len() ==> #[trigger] chunks[i] == samples.subrange(
                i * chunk_size,
                i * chunk_size + chunk_size,
            ),
    ensures
        chunks.flatten() == samples.take(chunks.len() * chunk_size),
    decreases chunks.len(),
{
    if chunks.len() == 0 {
        assert(chunks.flatten() =~= samples.take(chunks.len() * chunk_size));
    } else {
        let rest = chunks.drop_first();
        let tail = samples.skip(chunk_size);
        assert(chunks[0] == samples.subrange(0, chunk_size));
        assert forall|i: int| 0 <= i < rest.len() implies #[trigger] rest[i] == tail.subrange(
            i * chunk_size,
            i * chunk_size + chunk_size,
        ) by {
            assert(rest[i] == chunks[i + 1]);
            assert(chunks[i + 1] == samples.subrange(
                (i + 1) * chunk_size,
                (i + 1) * chunk_size + chunk_size,
            ));
            vstd::arithmetic::mul::lemma_mul_is_distributive_add_other_way(chunk_size, i, 1);
            vstd::arithmetic::mul::lemma_mul_inequality(i + 1, rest.len() as int, chunk_size);
            vstd::arithmetic::mul::lemma_mul_is_distributive_add_other_way(
                chunk_size,
                rest.len() as int,
                1,
            );
            assert(tail.subrange(i * chunk_size, i * chunk_size + chunk_size) =~= samples.subrange(
                (i + 1) * chunk_size,
                (i + 1) * chunk_size + chunk_size,
            ));
        }
        vstd::arithmetic::mul::lemma_mul_is_distributive_add_other_way(
            chunk_size,
            rest.len() as int,
            1,
        );
        lemma_chunks_flatten(rest, tail, chunk_size);
        assert(chunks.flatten() == chunks[0] + rest.flatten());
        assert(chunks.flatten() =~= samples.take(chunks.len() * chunk_size));
    }
}

} // verus!
