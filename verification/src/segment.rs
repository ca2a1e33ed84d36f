//! The segment merging state machine.
//!
//! Chunks arrive together with a speech probability. Contiguous speech
//! chunks (probability strictly above the threshold) are merged into one
//! growing segment, which is emitted when appending the next speech chunk
//! would push it past `max_samples`, or once `min_sil_chunks` consecutive
//! non-speech chunks have followed it. Non-speech chunks are dropped.
//!
//! The machine is specified by a pure transition function over a
//! mathematical model ([`SegmentModel`]); the executable method is proved to
//! implement exactly that transition.

use vstd::prelude::*;

use crate::label::inputs_view;
use crate::vad::VoiceActivityDetector;

verus! {

/// The mathematical model of a [`SegmentMergerState`].
pub struct SegmentModel<T> {
    /// The speech probability threshold.
    pub threshold: u32,
    /// The largest number of samples an emitted segment may hold.
    pub max_samples: usize,
    /// How many consecutive non-speech chunks flush the current segment.
    pub min_sil_chunks: usize,
    /// The samples of the speech segment being merged.
    pub current_segment: Seq<T>,
    /// How many non-speech chunks have arrived since the last speech chunk.
    pub consecutive_silence: usize,
}

/// What one chunk does to the model: the new model and the emitted segment,
/// if any. The silence counter saturates instead of growing without bound;
/// since it is only ever compared against `min_sil_chunks`, that changes
/// nothing observable.
pub open spec fn segment_step<T>(m: SegmentModel<T>, chunk: Seq<T>, probability: u32) -> (
    SegmentModel<T>,
    Option<Seq<T>>,
) {
    if probability > m.threshold {
        if m.current_segment.len() > 0 && m.current_segment.len() + chunk.len()
            > m.max_samples {
            // Appending would exceed the cap: the merged segment leaves and
            // the chunk starts a new one.
            (
                SegmentModel { current_segment: chunk, consecutive_silence: 0, ..m },
                Some(m.current_segment),
            )
        } else {
            (
                SegmentModel {
                    current_segment: m.current_segment + chunk,
                    consecutive_silence: 0,
                    ..m
                },
                None,
            )
        }
    } else {
        let silence: usize = if m.consecutive_silence < usize::MAX {
            (m.consecutive_silence + 1) as usize
        } else {
            usize::MAX
        };
        if silence >= m.min_sil_chunks && m.current_segment.len() > 0 {
            // Sustained silence: the merged segment leaves. The silence
            // counter deliberately keeps counting; with the segment now
            // empty that has no further effect.
            (
                SegmentModel {
                    current_segment: Seq::empty(),
                    consecutive_silence: silence,
                    ..m
                },
                Some(m.current_segment),
            )
        } else {
            (SegmentModel { consecutive_silence: silence, ..m }, None)
        }
    }
}

/// The model a fresh segment merger starts from.
pub open spec fn initial_segment_model<T>(
    threshold: u32,
    max_samples: usize,
    min_sil_chunks: usize,
) -> SegmentModel<T> {
    SegmentModel {
        threshold,
        max_samples,
        min_sil_chunks,
        current_segment: Seq::empty(),
        consecutive_silence: 0,
    }
}

/// The model and the emitted segments after consuming `inputs` chunk by
/// chunk.
pub open spec fn segment_run<T>(m: SegmentModel<T>, inputs: Seq<(Seq<T>, u32)>) -> (
    SegmentModel<T>,
    Seq<Seq<T>>,
)
    decreases inputs.len(),
{
    if inputs.len() == 0 {
        (m, Seq::empty())
    } else {
        let prev = segment_run(m, inputs.drop_last());
        let last = inputs.last();
        let stepped = segment_step(prev.0, last.0, last.1);
        let emitted = match stepped.1 {
            Some(s) => seq![s],
            None => Seq::empty(),
        };
        (stepped.0, prev.1 + emitted)
    }
}

/// The full output of the segment stage for the given configuration and
/// inputs: every merged segment in order, the final flush included.
pub open spec fn segment_outputs<T>(
    threshold: u32,
    max_samples: usize,
    min_sil_chunks: usize,
    inputs: Seq<(Seq<T>, u32)>,
) -> Seq<Seq<T>> {
    let run = segment_run(initial_segment_model(threshold, max_samples, min_sil_chunks), inputs);
    if run.0.current_segment.len() > 0 {
        run.1 + seq![run.0.current_segment]
    } else {
        run.1
    }
}

/// The sample views of a sequence of owned segments.
pub open spec fn segments_view<T>(out: Seq<Vec<T>>) -> Seq<Seq<T>> {
    out.map_values(|v: Vec<T>| v@)
}

/// The number of whole chunks needed to cover `ms` milliseconds of audio,
/// rounded up, so that a configured minimum duration is never
/// under-satisfied by a fractional chunk: `ceil(ms / chunk_duration_ms)`
/// with `chunk_duration_ms == chunk_size / sample_rate * 1000`.
pub open spec fn chunks_for_duration(ms: usize, chunk_size: usize, sample_rate: i64) -> int
    recommends
        chunk_size >= 1,
        sample_rate >= 1,
{
    let den = (chunk_size as int) * 1000;
    ((ms as int) * (sample_rate as int) + den - 1) / den
}

/// The segment merging state machine.
#[derive(Debug)]
pub struct SegmentMergerState<T> {
    /// The speech probability threshold.
    pub threshold: u32,
    /// The samples of the speech segment being merged.
    pub current_segment: Vec<T>,
    /// The largest number of samples an emitted segment may hold.
    pub max_samples: usize,
    /// How many consecutive non-speech chunks flush the current segment.
    pub min_sil_chunks: usize,
    /// How many non-speech chunks have arrived since the last speech chunk.
    pub consecutive_silence: usize,
}

impl<T> View for SegmentMergerState<T> {
    type V = SegmentModel<T>;

    open spec fn view(&self) -> SegmentModel<T> {
        SegmentModel {
            threshold: self.threshold,
            max_samples: self.max_samples,
            min_sil_chunks: self.min_sil_chunks,
            current_segment: self.current_segment@,
            consecutive_silence: self.consecutive_silence,
        }
    }
}

impl<T> SegmentMergerState<T> {
    /// Creates an empty merger.
    pub fn new(threshold: u32, max_samples: usize, min_sil_chunks: usize) -> (r: Self)
        ensures
            r@.threshold == threshold,
            r@.max_samples == max_samples,
            r@.min_sil_chunks == min_sil_chunks,
            r@.current_segment == Seq::<T>::empty(),
            r@.consecutive_silence == 0,
    {
        let r = SegmentMergerState {
            threshold,
            current_segment: Vec::new(),
            max_samples,
            min_sil_chunks,
            consecutive_silence: 0,
        };
        proof {
            assert(r@.current_segment =~= Seq::<T>::empty());
        }
        r
    }

    /// Consumes one chunk together with its speech probability: exactly one
    /// [`segment_step`].
    pub fn try_next(&mut self, chunk: Vec<T>, probability: u32) -> (r: Option<Vec<T>>)
        ensures
            final(self)@ == segment_step(old(self)@, chunk@, probability).0,
            match r {
                Some(segment) => segment_step(old(self)@, chunk@, probability).1 == Some(
                    segment@,
                ),
                None => segment_step(old(self)@, chunk@, probability).1 is None,
            },
    {
        let ghost chunk_view = chunk@;
        if probability > self.threshold {
            let splits = self.current_segment.len() > 0 && (self.current_segment.len() as u128)
                + (chunk.len() as u128) > (self.max_samples as u128);
            self.consecutive_silence = 0;
            if splits {
                let mut chunk = chunk;
                core::mem::swap(&mut self.current_segment, &mut chunk);
                Some(chunk)
            } else {
                let mut chunk = chunk;
                self.current_segment.append(&mut chunk);
                None
            }
        } else {
            if self.consecutive_silence < usize::MAX {
                self.consecutive_silence = self.consecutive_silence + 1;
            }
            if self.consecutive_silence >= self.min_sil_chunks && self.current_segment.len() > 0 {
                let mut emitted: Vec<T> = Vec::new();
                core::mem::swap(&mut self.current_segment, &mut emitted);
                proof {
                    assert(self@.current_segment =~= Seq::<T>::empty());
                }
                Some(emitted)
            } else {
                None
            }
        }
    }

    /// Releases the segment still being merged once the input has ended, if
    /// it is non-empty.
    pub fn flush(&mut self) -> (r: Option<Vec<T>>)
        ensures
            final(self)@ == (SegmentModel { current_segment: Seq::<T>::empty(), ..old(self)@ }),
            old(self)@.current_segment.len() > 0 ==> match r {
                Some(segment) => segment@ == old(self)@.current_segment,
                None => false,
            },
            old(self)@.current_segment.len() == 0 ==> r is None,
    {
        if self.current_segment.len() > 0 {
            let mut emitted: Vec<T> = Vec::new();
            core::mem::swap(&mut self.current_segment, &mut emitted);
            proof {
                assert(self@.current_segment =~= Seq::<T>::empty());
            }
            Some(emitted)
        } else {
            proof {
                assert(self@.current_segment =~= Seq::<T>::empty());
            }
            None
        }
    }
}

/// `ceil((ms * sample_rate) / (chunk_size * 1000))`, computed exactly.
fn ceil_chunks(ms: usize, chunk_size: usize, sample_rate: i64) -> (r: u128)
    requires
        chunk_size >= 1,
        sample_rate >= 1,
    ensures
        r == chunks_for_duration(ms, chunk_size, sample_rate),
{
    proof {
        vstd::arithmetic::mul::lemma_mul_upper_bound(
            ms as int,
            0xffff_ffff_ffff_ffff,
            sample_rate as int,
            0x7fff_ffff_ffff_ffff,
        );
        vstd::arithmetic::mul::lemma_mul_inequality(1, chunk_size as int, 1000);
    }
    let den: u128 = (chunk_size as u128) * 1000;
    let num: u128 = (ms as u128) * (sample_rate as u128);
    (num + den - 1) / den
}

impl<T> SegmentMergerState<T> {
    /// Creates a merger whose limits are derived from durations in
    /// milliseconds: segments are capped at `max_speech_ms` worth of whole
    /// chunks, and flushed after `min_sil_ms` worth of consecutive silence,
    /// both rounded up to whole chunks.
    pub fn with_durations(
        threshold: u32,
        vad: &VoiceActivityDetector,
        max_speech_ms: usize,
        min_sil_ms: usize,
    ) -> (r: Self)
        requires
            vad.chunk_size >= 1,
            vad.sample_rate >= 1,
            chunks_for_duration(max_speech_ms, vad.chunk_size, vad.sample_rate) * vad.chunk_size
                <= usize::MAX,
            chunks_for_duration(min_sil_ms, vad.chunk_size, vad.sample_rate) <= usize::MAX,
        ensures
            r@.threshold == threshold,
            r@.max_samples == chunks_for_duration(max_speech_ms, vad.chunk_size, vad.sample_rate)
                * vad.chunk_size,
            r@.min_sil_chunks == chunks_for_duration(min_sil_ms, vad.chunk_size, vad.sample_rate),
            r@.current_segment == Seq::<T>::empty(),
            r@.consecutive_silence == 0,
    {
        let max_chunks = ceil_chunks(max_speech_ms, vad.chunk_size, vad.sample_rate);
        let max_samples_wide = max_chunks * (vad.chunk_size as u128);
        let max_samples = max_samples_wide as usize;
        let min_sil_wide = ceil_chunks(min_sil_ms, vad.chunk_size, vad.sample_rate);
        let min_sil_chunks = min_sil_wide as usize;
        let r = SegmentMergerState {
            threshold,
            current_segment: Vec::new(),
            max_samples,
            min_sil_chunks,
            consecutive_silence: 0,
        };
        proof {
            assert(r@.current_segment =~= Seq::<T>::empty());
        }
        r
    }

    /// [`Self::with_durations`] behind run-time checks: `None` when the
    /// configuration is degenerate (a zero chunk size or a sample rate below
    /// one) or when a derived limit does not fit the machine.
    pub fn try_with_durations(
        threshold: u32,
        vad: &VoiceActivityDetector,
        max_speech_ms: usize,
        min_sil_ms: usize,
    ) -> (r: Option<Self>)
        ensures
            match r {
                Some(s) => {
                    &&& vad.chunk_size >= 1
                    &&& vad.sample_rate >= 1
                    &&& s@.threshold == threshold
                    &&& s@.max_samples == chunks_for_duration(
                        max_speech_ms,
                        vad.chunk_size,
                        vad.sample_rate,
                    ) * vad.chunk_size
                    &&& s@.min_sil_chunks == chunks_for_duration(
                        min_sil_ms,
                        vad.chunk_size,
                        vad.sample_rate,
                    )
                    &&& s@.current_segment == Seq::<T>::empty()
                    &&& s@.consecutive_silence == 0
                },
                None => {
                    vad.chunk_size < 1 || vad.sample_rate < 1 || chunks_for_duration(
                        max_speech_ms,
                        vad.chunk_size,
                        vad.sample_rate,
                    ) * vad.chunk_size > usize::MAX || chunks_for_duration(
                        min_sil_ms,
                        vad.chunk_size,
                        vad.sample_rate,
                    ) > usize::MAX
                },
            },
    {
        if vad.chunk_size < 1 || vad.sample_rate < 1 {
            return None;
        }
        let max_chunks = ceil_chunks(max_speech_ms, vad.chunk_size, vad.sample_rate);
        if max_chunks > (usize::MAX as u128) {
            proof {
                vstd::arithmetic::mul::lemma_mul_inequality(
                    1,
                    vad.chunk_size as int,
                    max_chunks as int,
                );
            }
            return None;
        }
        proof {
            vstd::arithmetic::mul::lemma_mul_upper_bound(
                max_chunks as int,
                0xffff_ffff_ffff_ffff,
                vad.chunk_size as int,
                0xffff_ffff_ffff_ffff,
            );
        }
        let max_samples_wide = max_chunks * (vad.chunk_size as u128);
        let min_sil_wide = ceil_chunks(min_sil_ms, vad.chunk_size, vad.sample_rate);
        if max_samples_wide > (usize::MAX as u128) || min_sil_wide > (usize::MAX as u128) {
            return None;
        }
        Some(Self::with_durations(threshold, vad, max_speech_ms, min_sil_ms))
    }
}

/// Runs the whole segment stage over a finite sequence of chunks with their
/// speech probabilities, and returns every merged segment in order, the
/// final flush included.
pub fn segment_chunks<T>(
    inputs: Vec<(Vec<T>, u32)>,
    threshold: u32,
    max_samples: usize,
    min_sil_chunks: usize,
) -> (out: Vec<Vec<T>>)
    ensures
        segments_view(out@) == segment_outputs(
            threshold,
            max_samples,
            min_sil_chunks,
            inputs_view(inputs@),
        ),
{
    let ghost all = inputs_view(inputs@);
    let mut remaining = inputs;
    let mut st = SegmentMergerState::new(threshold, max_samples, min_sil_chunks);
    let ghost m0 = initial_segment_model::<T>(threshold, max_samples, min_sil_chunks);
    let mut out: Vec<Vec<T>> = Vec::new();
    proof {
        assert(st@ == m0);
        assert(all.take(0) =~= Seq::<(Seq<T>, u32)>::empty());
        assert(inputs_view(remaining@) =~= all.skip(0));
        assert(segments_view(out@) =~= Seq::<Seq<T>>::empty());
    }
    while remaining.len() > 0
        invariant
            remaining@.len() <= all.len(),
            inputs_view(remaining@) == all.skip(all.len() - remaining@.len()),
            segment_run(m0, all.take(all.len() - remaining@.len())).0 == st@,
            segment_run(m0, all.take(all.len() - remaining@.len())).1 == segments_view(out@),
        decreases remaining@.len(),
    {
        let ghost k = all.len() - remaining@.len();
        let ghost rem0 = remaining@;
        let pair = remaining.remove(0);
        let ghost chunk_view = pair.0@;
        proof {
            assert(inputs_view(rem0)[0] == (rem0[0].0@, rem0[0].1));
            assert((chunk_view, pair.1) == all[k]);
            assert(remaining@ =~= rem0.skip(1));
            assert forall|i: int| 0 <= i < remaining@.len() implies inputs_view(remaining@)[i]
                == all.skip(k + 1)[i] by {
                assert(remaining@[i] == rem0[i + 1]);
                assert(inputs_view(rem0)[i + 1] == (rem0[i + 1].0@, rem0[i + 1].1));
                assert(inputs_view(rem0)[i + 1] == all.skip(k)[i + 1]);
            }
            assert(inputs_view(remaining@) =~= all.skip(k + 1));
        }
        let r = st.try_next(pair.0, pair.1);
        match r {
            Some(s) => {
                let ghost x = s@;
                let ghost out_before = out@;
                out.push(s);
                proof {
                    assert(segments_view(out@) =~= segments_view(out_before) + seq![x]);
                }
            },
            None => {},
        }
        proof {
            let taken = all.take(k + 1);
            assert(taken.drop_last() =~= all.take(k));
            assert(taken.last() == all[k]);
            assert(segment_run(m0, taken).0 == st@);
            assert(segment_run(m0, taken).1 =~= segments_view(out@));
        }
    }
    proof {
        assert(all.take(all.len() - remaining@.len()) =~= all);
    }
    let last = st.flush();
    match last {
        Some(s) => {
            let ghost x = s@;
            let ghost out_before = out@;
            out.push(s);
            proof {
                assert(segments_view(out@) =~= segments_view(out_before) + seq![x]);
            }
        },
        None => {},
    }
    proof {
        assert(segments_view(out@) =~= segment_outputs(threshold, max_samples, min_sil_chunks, all));
    }
    out
}

/// A run never changes the configuration half of the model.
proof fn lemma_segment_run_config<T>(m: SegmentModel<T>, inputs: Seq<(Seq<T>, u32)>)
    ensures
        segment_run(m, inputs).0.threshold == m.threshold,
        segment_run(m, inputs).0.max_samples == m.max_samples,
        segment_run(m, inputs).0.min_sil_chunks == m.min_sil_chunks,
    decreases inputs.len(),
{
    if inputs.len() > 0 {
        lemma_segment_run_config(m, inputs.drop_last());
    }
}

/// Every segment a run emits, and the segment still being merged, stay
/// within the sample cap, as long as every incoming chunk does.
proof fn lemma_segment_run_bounded<T>(m: SegmentModel<T>, inputs: Seq<(Seq<T>, u32)>)
    requires
        m.current_segment.len() <= m.max_samples,
        forall|i: int| 0 <= i < inputs.len() ==> (#[trigger] inputs[i]).0.len() <= m.max_samples,
    ensures
        segment_run(m, inputs).0.current_segment.len() <= m.max_samples,
        forall|o: int|
            0 <= o < segment_run(m, inputs).1.len() ==> (#[trigger] segment_run(m, inputs).1[o]).len()
                <= m.max_samples,
    decreases inputs.len(),
{
    if inputs.len() > 0 {
        let short = inputs.drop_last();
        lemma_segment_run_bounded(m, short);
        lemma_segment_run_config(m, short);
        let prev = segment_run(m, short);
        assert(inputs.last().0.len() <= m.max_samples);
        let stepped = segment_step(prev.0, inputs.last().0, inputs.last().1);
        assert forall|o: int| 0 <= o < segment_run(m, inputs).1.len() implies (
        #[trigger] segment_run(m, inputs).1[o]).len() <= m.max_samples by {
            if o < prev.1.len() {
                assert(segment_run(m, inputs).1[o] == prev.1[o]);
            }
        }
    }
}

/// No emitted segment ever exceeds `max_samples`, the final flush included,
/// provided no single chunk does (chunks from the chunker never do, since
/// the cap covers at least one whole chunk).
pub proof fn lemma_segment_outputs_bounded<T>(
    threshold: u32,
    max_samples: usize,
    min_sil_chunks: usize,
    inputs: Seq<(Seq<T>, u32)>,
)
    requires
        forall|i: int| 0 <= i < inputs.len() ==> (#[trigger] inputs[i]).0.len() <= max_samples,
    ensures
        forall|o: int|
            0 <= o < segment_outputs(threshold, max_samples, min_sil_chunks, inputs).len() ==> (
            #[trigger] segment_outputs(threshold, max_samples, min_sil_chunks, inputs)[o]).len()
                <= max_samples,
{
    let m0 = initial_segment_model::<T>(threshold, max_samples, min_sil_chunks);
    lemma_segment_run_bounded(m0, inputs);
    lemma_segment_run_config(m0, inputs);
    let run = segment_run(m0, inputs);
    let outs = segment_outputs(threshold, max_samples, min_sil_chunks, inputs);
    assert forall|o: int| 0 <= o < outs.len() implies (#[trigger] outs[o]).len() <= max_samples by {
        if o < run.1.len() {
            assert(outs[o] == run.1[o]);
        } else {
            assert(outs[o] == run.0.current_segment);
        }
    }
}

/// A segment leaves because of a speech chunk only when appending that
/// chunk would push it past the cap, and what leaves is exactly the merged
/// segment as it stood.
pub proof fn lemma_segment_split_only_on_overflow<T>(
    threshold: u32,
    max_samples: usize,
    min_sil_chunks: usize,
    inputs: Seq<(Seq<T>, u32)>,
    k: int,
)
    requires
        0 <= k < inputs.len(),
        inputs[k].1 > threshold,
        ({
            let m0 = initial_segment_model::<T>(threshold, max_samples, min_sil_chunks);
            segment_run(m0, inputs.take(k + 1)).1.len() > segment_run(m0, inputs.take(k)).1.len()
        }),
    ensures
        ({
            let m0 = initial_segment_model::<T>(threshold, max_samples, min_sil_chunks);
            let before = segment_run(m0, inputs.take(k)).0;
            &&& before.current_segment.len() + inputs[k].0.len() > max_samples
            &&& before.current_segment.len() > 0
            &&& segment_run(m0, inputs.take(k + 1)).1.last() == before.current_segment
        }),
{
    let m0 = initial_segment_model::<T>(threshold, max_samples, min_sil_chunks);
    let taken = inputs.take(k + 1);
    assert(taken.drop_last() =~= inputs.take(k));
    assert(taken.last() == inputs[k]);
    lemma_segment_run_config(m0, inputs.take(k));
}

/// How many chunks at the end of `inputs` are non-speech (probability at or
/// below the threshold), counted back from the last chunk.
pub open spec fn trailing_silence<T>(inputs: Seq<(Seq<T>, u32)>, threshold: u32) -> int
    decreases inputs.len(),
{
    if inputs.len() == 0 {
        0
    } else if inputs.last().1 > threshold {
        0
    } else {
        1 + trailing_silence(inputs.drop_last(), threshold)
    }
}

/// The trailing silence count is a count of trailing non-speech chunks.
proof fn lemma_trailing_silence_covers<T>(inputs: Seq<(Seq<T>, u32)>, threshold: u32)
    ensures
        0 <= trailing_silence(inputs, threshold) <= inputs.len(),
        forall|j: int|
            inputs.len() - trailing_silence(inputs, threshold) <= j < inputs.len() ==> (
            #[trigger] inputs[j]).1 <= threshold,
    decreases inputs.len(),
{
    if inputs.len() > 0 && inputs.last().1 <= threshold {
        let short = inputs.drop_last();
        lemma_trailing_silence_covers(short, threshold);
        assert forall|j: int|
            inputs.len() - trailing_silence(inputs, threshold) <= j < inputs.len() implies (
        #[trigger] inputs[j]).1 <= threshold by {
            if j < inputs.len() - 1 {
                assert(inputs[j] == short[j]);
            }
        }
    }
}

/// After a run, the machine's silence counter equals the trailing silence
/// count of its inputs.
proof fn lemma_segment_run_silence<T>(m: SegmentModel<T>, inputs: Seq<(Seq<T>, u32)>)
    requires
        inputs.len() <= usize::MAX,
        m.consecutive_silence == 0,
    ensures
        segment_run(m, inputs).0.consecutive_silence == trailing_silence(inputs, m.threshold),
    decreases inputs.len(),
{
    if inputs.len() > 0 {
        let short = inputs.drop_last();
        lemma_segment_run_silence(m, short);
        lemma_segment_run_config(m, short);
        lemma_trailing_silence_covers(short, m.threshold);
    }
}

/// A segment is flushed by silence only once at least `min_sil_chunks`
/// consecutive non-speech chunks have followed the last speech chunk: if a
/// non-speech chunk at position `k` makes a segment leave, it and the
/// `min_sil_chunks - 1` chunks before it are all non-speech.
pub proof fn lemma_segment_flush_needs_silence<T>(
    threshold: u32,
    max_samples: usize,
    min_sil_chunks: usize,
    inputs: Seq<(Seq<T>, u32)>,
    k: int,
)
    requires
        0 <= k < inputs.len(),
        inputs.len() <= usize::MAX,
        inputs[k].1 <= threshold,
        ({
            let m0 = initial_segment_model::<T>(threshold, max_samples, min_sil_chunks);
            segment_run(m0, inputs.take(k + 1)).1.len() > segment_run(m0, inputs.take(k)).1.len()
        }),
    ensures
        k + 1 >= min_sil_chunks,
        forall|j: int| 0 <= j <= k && k - min_sil_chunks < j ==> (#[trigger] inputs[j]).1
            <= threshold,
{
    let m0 = initial_segment_model::<T>(threshold, max_samples, min_sil_chunks);
    let taken = inputs.take(k + 1);
    let short = inputs.take(k);
    assert(taken.drop_last() =~= short);
    assert(taken.last() == inputs[k]);
    lemma_segment_run_config(m0, short);
    lemma_segment_run_silence(m0, short);
    lemma_trailing_silence_covers(short, threshold);
    let before = segment_run(m0, short).0;
    let trail = trailing_silence(short, threshold);
    // The step emitted, so the incremented counter reached the minimum.
    assert(before.consecutive_silence == trail);
    assert(trail <= k);
    assert(before.consecutive_silence < usize::MAX);
    assert(trail + 1 >= min_sil_chunks);
    assert forall|j: int| 0 <= j <= k && k - min_sil_chunks < j implies (#[trigger] inputs[j]).1
        <= threshold by {
        if j < k {
            assert(k - trail <= j);
            assert(short[j].1 <= threshold);
            assert(inputs[j] == short[j]);
        }
    }
}

} // verus!
