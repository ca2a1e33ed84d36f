//! The labeling state machine.
//!
//! Chunks arrive together with a speech probability (a fixed-point integer;
//! see [`crate::segment`] for the same convention). Every chunk is labeled
//! [`LabeledAudio::Speech`] or [`LabeledAudio::NonSpeech`], and a window of
//! `padding_chunks` chunks of context around each speech region is labeled
//! speech as well, so that an abrupt onset or offset does not truncate soft
//! consonants. A chunk counts as speech when its probability is at or above
//! the threshold.
//!
//! The machine is specified by pure transition functions over a mathematical
//! model ([`LabelModel`]); the executable methods are proved to implement
//! exactly those transitions.

use vstd::prelude::*;

use std::collections::VecDeque;

verus! {

/// Labels a chunk of audio as either speech or non-speech.
#[derive(Clone, Debug)]
pub enum LabeledAudio<T> {
    /// The predicted speech probability was at or above the threshold, or
    /// the chunk lies in the padding window around such a chunk.
    Speech(Vec<T>),
    /// The predicted speech probability was below the threshold and the
    /// chunk lies outside every padding window.
    NonSpeech(Vec<T>),
}

impl<T> View for LabeledAudio<T> {
    type V = (bool, Seq<T>);

    open spec fn view(&self) -> (bool, Seq<T>) {
        match self {
            LabeledAudio::Speech(audio) => (true, audio@),
            LabeledAudio::NonSpeech(audio) => (false, audio@),
        }
    }
}

impl<T> LabeledAudio<T> {
    /// Returns true if the audio label is speech.
    pub fn is_speech(&self) -> (r: bool)
        ensures
            r == self@.0,
    {
        match self {
            LabeledAudio::Speech(_) => true,
            LabeledAudio::NonSpeech(_) => false,
        }
    }

    /// Returns the labeled chunk of audio samples, to iterate over.
    pub fn iter(&self) -> (r: &Vec<T>)
        ensures
            r@ == self@.1,
    {
        match self {
            LabeledAudio::Speech(audio) => audio,
            LabeledAudio::NonSpeech(audio) => audio,
        }
    }

    /// Consumes the label and returns the chunk of audio samples it carried.
    pub fn into_samples(self) -> (r: Vec<T>)
        ensures
            r@ == self@.1,
    {
        match self {
            LabeledAudio::Speech(audio) => audio,
            LabeledAudio::NonSpeech(audio) => audio,
        }
    }
}

/// The control state of the labeling machine.
#[derive(Clone, Copy, Debug, PartialEq, Eq, Structural)]
pub enum LabelStateInner {
    /// Waiting for speech to start.
    Idle,
    /// Speech has started; the buffered lookbehind window drains as speech.
    FlushStartPadding,
    /// Inside a speech region; `speech` records whether the most recent
    /// chunk was at or above the threshold.
    Active {
        /// Whether the most recent chunk reached the threshold.
        speech: bool,
    },
    /// Speech has ended; the buffered lookahead window drains as speech.
    FlushEndPadding,
}

/// The mathematical model of a [`LabelState`]: the same configuration and
/// control state, with the buffered chunks as a sequence of sample sequences.
pub struct LabelModel<T> {
    /// The speech probability threshold.
    pub threshold: u32,
    /// The number of context chunks kept around speech boundaries.
    pub padding_chunks: usize,
    /// The buffered chunks, oldest first.
    pub buffer: Seq<Seq<T>>,
    /// The control state.
    pub state: LabelStateInner,
}

/// What one call that consumes a chunk does to the model: the new model and
/// the emitted label, if any, as a `(speech, samples)` pair.
pub open spec fn label_input_step<T>(
    m: LabelModel<T>,
    chunk: Seq<T>,
    probability: u32,
) -> (LabelModel<T>, Option<(bool, Seq<T>)>) {
    match m.state {
        LabelStateInner::Idle => {
            let pushed = m.buffer.push(chunk);
            if probability >= m.threshold {
                // Speech was detected: release the oldest buffered chunk and
                // start draining the rest of the lookbehind window.
                (
                    LabelModel {
                        buffer: pushed.drop_first(),
                        state: LabelStateInner::FlushStartPadding,
                        ..m
                    },
                    Some((true, pushed[0])),
                )
            } else if pushed.len() > m.padding_chunks {
                // The lookahead window is full: the oldest chunk can safely
                // be called non-speech.
                (LabelModel { buffer: pushed.drop_first(), ..m }, Some((false, pushed[0])))
            } else {
                // Not enough lookahead yet to decide.
                (LabelModel { buffer: pushed, ..m }, None)
            }
        },
        LabelStateInner::Active { speech } => {
            if probability >= m.threshold {
                if m.buffer.len() > 0 {
                    // A transient right after entering the active state: the
                    // buffer still holds older chunks, which leave first.
                    (
                        LabelModel {
                            buffer: m.buffer.push(chunk).drop_first(),
                            state: LabelStateInner::Active { speech: true },
                            ..m
                        },
                        Some((true, m.buffer[0])),
                    )
                } else {
                    (
                        LabelModel { state: LabelStateInner::Active { speech: true }, ..m },
                        Some((true, chunk)),
                    )
                }
            } else {
                let pushed = m.buffer.push(chunk);
                if pushed.len() >= m.padding_chunks {
                    // The trailing padding window is full: it drains as
                    // speech, after which the machine goes idle.
                    (
                        LabelModel {
                            buffer: pushed.drop_first(),
                            state: LabelStateInner::FlushEndPadding,
                            ..m
                        },
                        Some((true, pushed[0])),
                    )
                } else {
                    (
                        LabelModel {
                            buffer: pushed,
                            state: LabelStateInner::Active { speech: false },
                            ..m
                        },
                        None,
                    )
                }
            }
        },
        // While a padding window drains, no new input is consumed; a chunk
        // handed in regardless is dropped.
        LabelStateInner::FlushStartPadding => (m, None),
        LabelStateInner::FlushEndPadding => (m, None),
    }
}

/// What one call that drains buffered output does to the model.
pub open spec fn label_buffer_step<T>(m: LabelModel<T>) -> (
    LabelModel<T>,
    Option<(bool, Seq<T>)>,
) {
    match m.state {
        LabelStateInner::Idle => {
            if m.buffer.len() > m.padding_chunks {
                (LabelModel { buffer: m.buffer.drop_first(), ..m }, Some((false, m.buffer[0])))
            } else {
                (m, None)
            }
        },
        LabelStateInner::FlushStartPadding => {
            if m.buffer.len() > 0 {
                (LabelModel { buffer: m.buffer.drop_first(), ..m }, Some((true, m.buffer[0])))
            } else {
                (LabelModel { state: LabelStateInner::Active { speech: false }, ..m }, None)
            }
        },
        LabelStateInner::Active { speech } => {
            if speech && m.buffer.len() > 0 {
                (LabelModel { buffer: m.buffer.drop_first(), ..m }, Some((true, m.buffer[0])))
            } else {
                (m, None)
            }
        },
        LabelStateInner::FlushEndPadding => {
            if m.buffer.len() > 0 {
                (LabelModel { buffer: m.buffer.drop_first(), ..m }, Some((true, m.buffer[0])))
            } else {
                (LabelModel { state: LabelStateInner::Idle, ..m }, None)
            }
        },
    }
}

/// What one end-of-input call does to the model: the oldest buffered chunk
/// leaves, labeled non-speech when the machine never left the idle state and
/// speech otherwise.
pub open spec fn label_flush_step<T>(m: LabelModel<T>) -> (LabelModel<T>, Option<(bool, Seq<T>)>) {
    if m.buffer.len() > 0 {
        (
            LabelModel { buffer: m.buffer.drop_first(), ..m },
            Some((!(m.state is Idle), m.buffer[0])),
        )
    } else {
        (m, None)
    }
}

/// The view of an emitted label, if any.
pub open spec fn emitted_view<T>(r: Option<LabeledAudio<T>>) -> Option<(bool, Seq<T>)> {
    match r {
        Some(a) => Some(a@),
        None => None,
    }
}

/// The model a fresh labeling machine starts from.
pub open spec fn initial_label_model<T>(threshold: u32, padding_chunks: usize) -> LabelModel<T> {
    LabelModel {
        threshold,
        padding_chunks,
        buffer: Seq::empty(),
        state: LabelStateInner::Idle,
    }
}

/// Repeated [`label_buffer_step`]s until one produces nothing: every output
/// that is already decided leaves the buffer before new input is consumed.
pub open spec fn label_drain<T>(m: LabelModel<T>) -> (LabelModel<T>, Seq<(bool, Seq<T>)>)
    decreases m.buffer.len(),
{
    let stepped = label_buffer_step(m);
    if stepped.1 is Some {
        let rest = label_drain(stepped.0);
        (rest.0, seq![stepped.1->0] + rest.1)
    } else {
        (stepped.0, Seq::empty())
    }
}

/// The model and the outputs after consuming `inputs` chunk by chunk, each
/// consumption preceded by a full drain of decided output, exactly as a
/// caller pulling labels one at a time drives the machine.
pub open spec fn label_run<T>(m: LabelModel<T>, inputs: Seq<(Seq<T>, u32)>) -> (
    LabelModel<T>,
    Seq<(bool, Seq<T>)>,
)
    decreases inputs.len(),
{
    if inputs.len() == 0 {
        (m, Seq::empty())
    } else {
        let prev = label_run(m, inputs.drop_last());
        let drained = label_drain(prev.0);
        let last = inputs.last();
        let stepped = label_input_step(drained.0, last.0, last.1);
        let emitted = match stepped.1 {
            Some(x) => seq![x],
            None => Seq::empty(),
        };
        (stepped.0, prev.1 + drained.1 + emitted)
    }
}

/// Repeated [`label_flush_step`]s after the end of the input, until the
/// buffer is empty.
pub open spec fn label_flush_all<T>(m: LabelModel<T>) -> Seq<(bool, Seq<T>)>
    decreases m.buffer.len(),
{
    let stepped = label_flush_step(m);
    if stepped.1 is Some {
        seq![stepped.1->0] + label_flush_all(stepped.0)
    } else {
        Seq::empty()
    }
}

/// Everything the machine still emits once the input has ended.
pub open spec fn label_finish<T>(m: LabelModel<T>) -> Seq<(bool, Seq<T>)> {
    let drained = label_drain(m);
    drained.1 + label_flush_all(drained.0)
}

/// The full output sequence of the labeling stage for the given
/// configuration and inputs: every chunk of `inputs` paired with its label,
/// in input order.
pub open spec fn label_outputs<T>(
    threshold: u32,
    padding_chunks: usize,
    inputs: Seq<(Seq<T>, u32)>,
) -> Seq<(bool, Seq<T>)> {
    let run = label_run(initial_label_model(threshold, padding_chunks), inputs);
    run.1 + label_finish(run.0)
}

/// An emitted label as a sequence: empty for `None`, a singleton otherwise.
pub open spec fn emitted_seq<T>(o: Option<(bool, Seq<T>)>) -> Seq<(bool, Seq<T>)> {
    match o {
        Some(x) => seq![x],
        None => Seq::empty(),
    }
}

/// The chunk views and probabilities of a sequence of owned inputs.
pub open spec fn inputs_view<T>(inputs: Seq<(Vec<T>, u32)>) -> Seq<(Seq<T>, u32)> {
    inputs.map_values(|p: (Vec<T>, u32)| (p.0@, p.1))
}

/// The labels and chunk views of a sequence of owned outputs.
pub open spec fn outputs_view<T>(out: Seq<LabeledAudio<T>>) -> Seq<(bool, Seq<T>)> {
    out.map_values(|a: LabeledAudio<T>| a@)
}

/// The labeling state machine: configuration, control state, and a FIFO
/// buffer of chunks whose label is not decided yet.
#[derive(Debug)]
pub struct LabelState<T> {
    /// The speech probability threshold.
    pub threshold: u32,
    /// The number of context chunks kept around speech boundaries.
    pub padding_chunks: usize,
    /// The buffered chunks, oldest first.
    pub buffer: VecDeque<Vec<T>>,
    /// The control state.
    pub state: LabelStateInner,
}

impl<T> View for LabelState<T> {
    type V = LabelModel<T>;

    open spec fn view(&self) -> LabelModel<T> {
        LabelModel {
            threshold: self.threshold,
            padding_chunks: self.padding_chunks,
            buffer: self.buffer@.map_values(|c: Vec<T>| c@),
            state: self.state,
        }
    }
}

impl<T> LabelState<T> {
    /// Creates an idle labeling machine with an empty buffer.
    pub fn new(threshold: u32, padding_chunks: usize) -> (r: Self)
        ensures
            r@.threshold == threshold,
            r@.padding_chunks == padding_chunks,
            r@.buffer == Seq::<Seq<T>>::empty(),
            r@.state == LabelStateInner::Idle,
    {
        let r = LabelState {
            threshold,
            padding_chunks,
            buffer: VecDeque::new(),
            state: LabelStateInner::Idle,
        };
        proof {
            assert(r@.buffer =~= Seq::<Seq<T>>::empty());
        }
        r
    }

    /// Hands out buffered output that is already decided, without consuming
    /// new input: exactly one [`label_buffer_step`].
    pub fn try_buffer(&mut self) -> (r: Option<LabeledAudio<T>>)
        ensures
            final(self)@ == label_buffer_step(old(self)@).0,
            emitted_view(r) == label_buffer_step(old(self)@).1,
    {
        match self.state {
            LabelStateInner::Idle => {
                if self.buffer.len() > self.padding_chunks {
                    match self.buffer.pop_front() {
                        Some(chunk) => {
                            proof {
                                assert(self@.buffer =~= old(self)@.buffer.drop_first());
                            }
                            Some(LabeledAudio::NonSpeech(chunk))
                        },
                        None => {
                            proof {
                                assert(false);
                            }
                            None
                        },
                    }
                } else {
                    None
                }
            },
            LabelStateInner::FlushStartPadding => {
                match self.buffer.pop_front() {
                    Some(chunk) => {
                        proof {
                            assert(self@.buffer =~= old(self)@.buffer.drop_first());
                        }
                        Some(LabeledAudio::Speech(chunk))
                    },
                    None => {
                        self.state = LabelStateInner::Active { speech: false };
                        None
                    },
                }
            },
            LabelStateInner::Active { speech } => {
                if speech {
                    match self.buffer.pop_front() {
                        Some(chunk) => {
                            proof {
                                assert(self@.buffer =~= old(self)@.buffer.drop_first());
                            }
                            Some(LabeledAudio::Speech(chunk))
                        },
                        None => None,
                    }
                } else {
                    None
                }
            },
            LabelStateInner::FlushEndPadding => {
                match self.buffer.pop_front() {
                    Some(chunk) => {
                        proof {
                            assert(self@.buffer =~= old(self)@.buffer.drop_first());
                        }
                        Some(LabeledAudio::Speech(chunk))
                    },
                    None => {
                        self.state = LabelStateInner::Idle;
                        None
                    },
                }
            },
        }
    }

    /// Consumes one chunk together with its speech probability: exactly one
    /// [`label_input_step`]. While a padding window is draining (see
    /// [`Self::try_buffer`]), no input should be handed in: the draining
    /// cases of [`label_input_step`] drop the chunk.
    pub fn try_next(&mut self, chunk: Vec<T>, probability: u32) -> (r: Option<LabeledAudio<T>>)
        ensures
            final(self)@ == label_input_step(old(self)@, chunk@, probability).0,
            emitted_view(r) == label_input_step(old(self)@, chunk@, probability).1,
    {
        let ghost chunk_view = chunk@;
        match self.state {
            LabelStateInner::Idle => {
                self.buffer.push_back(chunk);
                proof {
                    assert(self@.buffer =~= old(self)@.buffer.push(chunk_view));
                }
                let ghost pushed = self@.buffer;
                if probability >= self.threshold {
                    self.state = LabelStateInner::FlushStartPadding;
                    match self.buffer.pop_front() {
                        Some(first) => {
                            proof {
                                assert(self@.buffer =~= pushed.drop_first());
                            }
                            Some(LabeledAudio::Speech(first))
                        },
                        None => {
                            proof {
                                assert(false);
                            }
                            None
                        },
                    }
                } else if self.buffer.len() > self.padding_chunks {
                    match self.buffer.pop_front() {
                        Some(first) => {
                            proof {
                                assert(self@.buffer =~= pushed.drop_first());
                            }
                            Some(LabeledAudio::NonSpeech(first))
                        },
                        None => {
                            proof {
                                assert(false);
                            }
                            None
                        },
                    }
                } else {
                    None
                }
            },
            LabelStateInner::Active { speech: _ } => {
                if probability >= self.threshold {
                    self.state = LabelStateInner::Active { speech: true };
                    if self.buffer.len() > 0 {
                        self.buffer.push_back(chunk);
                        proof {
                            assert(self@.buffer =~= old(self)@.buffer.push(chunk_view));
                        }
                        let ghost pushed = self@.buffer;
                        match self.buffer.pop_front() {
                            Some(first) => {
                                proof {
                                    assert(self@.buffer =~= pushed.drop_first());
                                }
                                Some(LabeledAudio::Speech(first))
                            },
                            None => {
                                proof {
                                    assert(false);
                                }
                                None
                            },
                        }
                    } else {
                        Some(LabeledAudio::Speech(chunk))
                    }
                } else {
                    self.state = LabelStateInner::Active { speech: false };
                    self.buffer.push_back(chunk);
                    proof {
                        assert(self@.buffer =~= old(self)@.buffer.push(chunk_view));
                    }
                    let ghost pushed = self@.buffer;
                    if self.buffer.len() >= self.padding_chunks {
                        self.state = LabelStateInner::FlushEndPadding;
                        match self.buffer.pop_front() {
                            Some(first) => {
                                proof {
                                    assert(self@.buffer =~= pushed.drop_first());
                                }
                                Some(LabeledAudio::Speech(first))
                            },
                            None => {
                                proof {
                                    assert(false);
                                }
                                None
                            },
                        }
                    } else {
                        None
                    }
                }
            },
            LabelStateInner::FlushStartPadding => None,
            LabelStateInner::FlushEndPadding => None,
        }
    }

    /// Releases one remaining buffered chunk after the input has ended:
    /// exactly one [`label_flush_step`].
    pub fn flush(&mut self) -> (r: Option<LabeledAudio<T>>)
        ensures
            final(self)@ == label_flush_step(old(self)@).0,
            emitted_view(r) == label_flush_step(old(self)@).1,
    {
        let idle = match self.state {
            LabelStateInner::Idle => true,
            _ => false,
        };
        match self.buffer.pop_front() {
            Some(chunk) => {
                proof {
                    assert(self@.buffer =~= old(self)@.buffer.drop_first());
                }
                if idle {
                    Some(LabeledAudio::NonSpeech(chunk))
                } else {
                    Some(LabeledAudio::Speech(chunk))
                }
            },
            None => None,
        }
    }
}

/// Drains every already-decided output of `st` into `out`: the executable
/// counterpart of [`label_drain`].
fn drain_buffered<T>(st: &mut LabelState<T>, out: &mut Vec<LabeledAudio<T>>)
    ensures
        final(st)@ == label_drain(old(st)@).0,
        outputs_view(final(out)@) == outputs_view(old(out)@) + label_drain(old(st)@).1,
    decreases old(st)@.buffer.len(),
{
    let ghost m = st@;
    let r = st.try_buffer();
    match r {
        Some(a) => {
            let ghost x = a@;
            out.push(a);
            proof {
                assert(outputs_view(out@) =~= outputs_view(old(out)@) + seq![x]);
            }
            let ghost mid_out = out@;
            drain_buffered(st, out);
            proof {
                assert(label_drain(m).0 == label_drain(label_buffer_step(m).0).0);
                assert(label_drain(m).1 =~= seq![x] + label_drain(label_buffer_step(m).0).1);
                assert(outputs_view(final(out)@) =~= outputs_view(old(out)@) + label_drain(m).1);
            }
        },
        None => {
            proof {
                assert(outputs_view(out@) =~= outputs_view(old(out)@) + label_drain(m).1);
            }
        },
    }
}

/// Releases everything still buffered in `st` into `out` after the end of
/// the input: the executable counterpart of [`label_flush_all`].
fn flush_remaining<T>(st: &mut LabelState<T>, out: &mut Vec<LabeledAudio<T>>)
    ensures
        final(st)@.buffer.len() == 0,
        outputs_view(final(out)@) == outputs_view(old(out)@) + label_flush_all(old(st)@),
    decreases old(st)@.buffer.len(),
{
    let ghost m = st@;
    let r = st.flush();
    match r {
        Some(a) => {
            let ghost x = a@;
            out.push(a);
            proof {
                assert(outputs_view(out@) =~= outputs_view(old(out)@) + seq![x]);
            }
            flush_remaining(st, out);
            proof {
                assert(label_flush_all(m) =~= seq![x] + label_flush_all(label_flush_step(m).0));
                assert(outputs_view(final(out)@) =~= outputs_view(old(out)@) + label_flush_all(m));
            }
        },
        None => {
            proof {
                assert(outputs_view(out@) =~= outputs_view(old(out)@) + label_flush_all(m));
            }
        },
    }
}

/// Runs the whole labeling stage over a finite sequence of chunks with
/// their speech probabilities, and returns every labeled chunk in input
/// order, trailing padding and flush output included.
pub fn label_chunks<T>(inputs: Vec<(Vec<T>, u32)>, threshold: u32, padding_chunks: usize) -> (out:
    Vec<LabeledAudio<T>>)
    ensures
        outputs_view(out@) == label_outputs(threshold, padding_chunks, inputs_view(inputs@)),
{
    let ghost all = inputs_view(inputs@);
    let mut remaining = inputs;
    let mut st = LabelState::new(threshold, padding_chunks);
    let ghost m0 = initial_label_model::<T>(threshold, padding_chunks);
    let mut out: Vec<LabeledAudio<T>> = Vec::new();
    proof {
        assert(st@ == m0);
        assert(all.take(0) =~= Seq::<(Seq<T>, u32)>::empty());
        assert(inputs_view(remaining@) =~= all.skip(0));
        assert(outputs_view(out@) =~= Seq::<(bool, Seq<T>)>::empty());
    }
    while remaining.len() > 0
        invariant
            remaining@.len() <= all.len(),
            inputs_view(remaining@) == all.skip(all.len() - remaining@.len()),
            label_run(m0, all.take(all.len() - remaining@.len())).0 == st@,
            label_run(m0, all.take(all.len() - remaining@.len())).1 == outputs_view(out@),
        decreases remaining@.len(),
    {
        let ghost k = all.len() - remaining@.len();
        drain_buffered(&mut st, &mut out);
        let ghost rem0 = remaining@;
        let pair = remaining.remove(0);
        let ghost chunk_view = pair.0@;
        proof {
            assert(inputs_view(rem0)[0] == (rem0[0].0@, rem0[0].1));
            assert((chunk_view, pair.1) == all[k]);
            assert(remaining@ =~= rem0.skip(1));
            assert forall|i: int| 0 <= i < remaining@.len() implies inputs_view(remaining@)[i]
                == all.skip(k + 1)[i] by {
                assert(remaining@[i] == rem0[i + 1]);
                assert(inputs_view(rem0)[i + 1] == (rem0[i + 1].0@, rem0[i + 1].1));
                assert(inputs_view(rem0)[i + 1] == all.skip(k)[i + 1]);
            }
            assert(inputs_view(remaining@) =~= all.skip(k + 1));
        }
        let r = st.try_next(pair.0, pair.1);
        match r {
            Some(a) => {
                let ghost x = a@;
                let ghost out_before = out@;
                out.push(a);
                proof {
                    assert(outputs_view(out@) =~= outputs_view(out_before) + seq![x]);
                }
            },
            None => {},
        }
        proof {
            let taken = all.take(k + 1);
            assert(taken.drop_last() =~= all.take(k));
            assert(taken.last() == all[k]);
            assert(label_run(m0, taken).0 == st@);
            assert(label_run(m0, taken).1 =~= outputs_view(out@));
        }
    }
    proof {
        assert(all.take(all.len() - remaining@.len()) =~= all);
    }
    drain_buffered(&mut st, &mut out);
    flush_remaining(&mut st, &mut out);
    proof {
        assert(outputs_view(out@) =~= label_outputs(threshold, padding_chunks, all));
    }
    out
}

/// Chunk `j` of `inputs` counts as speech for the labeling stage.
pub open spec fn speech_at<T>(inputs: Seq<(Seq<T>, u32)>, threshold: u32, j: int) -> bool {
    inputs[j].1 >= threshold
}

/// Chunk `i` lies within `padding_chunks` chunks of a speech chunk among the
/// first `k` inputs.
pub open spec fn padding_justified<T>(
    inputs: Seq<(Seq<T>, u32)>,
    threshold: u32,
    padding_chunks: usize,
    i: int,
    k: int,
) -> bool {
    exists|j: int|
        0 <= j < k && i - padding_chunks <= j <= i + padding_chunks && speech_at(
            inputs,
            threshold,
            j,
        )
}

/// No chunk with index in `[a, b)` counts as speech.
pub open spec fn no_speech_between<T>(inputs: Seq<(Seq<T>, u32)>, threshold: u32, a: int, b: int) -> bool {
    forall|j: int| a <= j < b ==> !speech_at(inputs, threshold, j)
}

/// Every chunk with index in `[a, b)` lies within the padding window of a
/// speech chunk among the first `k` inputs.
pub open spec fn all_justified<T>(
    inputs: Seq<(Seq<T>, u32)>,
    threshold: u32,
    padding_chunks: usize,
    a: int,
    b: int,
    k: int,
) -> bool {
    forall|j: int| a <= j < b ==> padding_justified(inputs, threshold, padding_chunks, j, k)
}

/// Some chunk before `k`, no older than `n - 1`, is speech, and no chunk
/// after it (up to `k`) is.
pub open spec fn last_speech_ok<T>(inputs: Seq<(Seq<T>, u32)>, threshold: u32, n: int, k: int) -> bool {
    exists|s: int|
        0 <= s < k && n - 1 <= s && #[trigger] speech_at(inputs, threshold, s)
            && no_speech_between(inputs, threshold, s + 1, k)
}

/// Any witness establishes [`last_speech_ok`].
proof fn lemma_last_speech_intro<T>(inputs: Seq<(Seq<T>, u32)>, threshold: u32, n: int, k: int, s: int)
    requires
        0 <= s < k,
        n - 1 <= s,
        speech_at(inputs, threshold, s),
        no_speech_between(inputs, threshold, s + 1, k),
    ensures
        last_speech_ok(inputs, threshold, n, k),
{
}

/// The inductive invariant that ties a machine model and the outputs emitted
/// so far to the first `k` consumed inputs.
spec fn label_invariant<T>(
    inputs: Seq<(Seq<T>, u32)>,
    k: int,
    m: LabelModel<T>,
    out: Seq<(bool, Seq<T>)>,
) -> bool {
    let n = out.len() as int;
    let t = m.threshold;
    let pad = m.padding_chunks as int;
    &&& 0 <= k <= inputs.len()
    &&& n + m.buffer.len() == k
    &&& forall|i: int| 0 <= i < n ==> (#[trigger] out[i]).1 == inputs[i].0
    &&& forall|j: int| 0 <= j < m.buffer.len() ==> #[trigger] m.buffer[j] == inputs[n + j].0
    &&& forall|i: int| 0 <= i < n && !(#[trigger] out[i]).0 ==> !speech_at(inputs, t, i)
    &&& forall|i: int| 0 <= i < n && speech_at(inputs, t, i) ==> (#[trigger] out[i]).0
    &&& pad >= 1 ==> forall|i: int|
        0 <= i < n && (#[trigger] out[i]).0 && !speech_at(inputs, t, i) ==> padding_justified(
            inputs,
            t,
            m.padding_chunks,
            i,
            k,
        )
    &&& match m.state {
        LabelStateInner::Idle => m.buffer.len() <= pad && no_speech_between(inputs, t, n, k),
        LabelStateInner::FlushStartPadding => pad >= 1 ==> (k >= 1 && speech_at(inputs, t, k - 1)
            && all_justified(inputs, t, m.padding_chunks, n, k, k)),
        LabelStateInner::Active { speech } => pad >= 1 ==> (m.buffer.len() <= pad - 1 && (speech
            && m.buffer.len() > 0 ==> speech_at(inputs, t, k - 1)) && last_speech_ok(
            inputs,
            t,
            n,
            k,
        )),
        LabelStateInner::FlushEndPadding => pad >= 1 ==> all_justified(
            inputs,
            t,
            m.padding_chunks,
            n,
            k,
            k,
        ),
    }
}

/// One buffered-output step preserves the invariant without consuming input.
#[verifier::rlimit(60)]
proof fn lemma_buffer_step_preserves<T>(
    inputs: Seq<(Seq<T>, u32)>,
    k: int,
    m: LabelModel<T>,
    out: Seq<(bool, Seq<T>)>,
)
    requires
        label_invariant(inputs, k, m, out),
    ensures
        label_invariant(inputs, k, label_buffer_step(m).0, out + emitted_seq(label_buffer_step(m).1)),
{
    let stepped = label_buffer_step(m);
    let out1 = out + emitted_seq(stepped.1);
    let n = out.len() as int;
    let t = m.threshold;
    let pad = m.padding_chunks as int;
    if stepped.1 is Some {
        assert(out1.len() == n + 1);
        assert(out1[n] == stepped.1->0);
        assert(forall|i: int| 0 <= i < n ==> out1[i] == out[i]);
        assert(m.buffer[0] == inputs[n].0);
        assert forall|j: int| 0 <= j < stepped.0.buffer.len() implies #[trigger] stepped.0.buffer[j]
            == inputs[n + 1 + j].0 by {
            assert(stepped.0.buffer[j] == m.buffer[j + 1]);
        }
        match m.state {
            LabelStateInner::Active { speech } => {
                if pad >= 1 {
                    // Chunks leave the buffer here only right after a speech
                    // chunk entered; the last consumed chunk serves as the
                    // witness when the chosen one is too old.
                    let s0 = choose|s: int|
                        0 <= s < k && n - 1 <= s && #[trigger] speech_at(inputs, t, s)
                            && no_speech_between(inputs, t, s + 1, k);
                    if s0 >= n {
                        lemma_last_speech_intro(inputs, t, n + 1, k, s0);
                    } else {
                        assert(speech_at(inputs, t, k - 1));
                        lemma_last_speech_intro(inputs, t, n + 1, k, k - 1);
                    }
                    if !speech_at(inputs, t, n) {
                        assert(k - 1 - n <= pad);
                        assert(padding_justified(inputs, t, m.padding_chunks, n, k));
                    }
                }
            },
            _ => {},
        }
    } else {
        assert(out1 =~= out);
        match m.state {
            LabelStateInner::FlushStartPadding => {
                if pad >= 1 {
                    lemma_last_speech_intro(inputs, t, k, k, k - 1);
                }
            },
            _ => {},
        }
    }
}

/// Draining preserves the invariant and leaves the machine idle or active.
proof fn lemma_drain_preserves<T>(
    inputs: Seq<(Seq<T>, u32)>,
    k: int,
    m: LabelModel<T>,
    out: Seq<(bool, Seq<T>)>,
)
    requires
        label_invariant(inputs, k, m, out),
    ensures
        label_invariant(inputs, k, label_drain(m).0, out + label_drain(m).1),
        label_drain(m).0.state is Idle || label_drain(m).0.state is Active,
        label_drain(m).0.threshold == m.threshold,
        label_drain(m).0.padding_chunks == m.padding_chunks,
    decreases m.buffer.len(),
{
    let stepped = label_buffer_step(m);
    lemma_buffer_step_preserves(inputs, k, m, out);
    if stepped.1 is Some {
        lemma_drain_preserves(inputs, k, stepped.0, out + emitted_seq(stepped.1));
        assert(out + label_drain(m).1 =~= (out + emitted_seq(stepped.1)) + label_drain(stepped.0).1);
    } else {
        assert(out + label_drain(m).1 =~= out + emitted_seq(stepped.1));
    }
}

/// Consuming one chunk preserves the invariant, provided the machine is not
/// in a draining state (it never is when input is consumed).
#[verifier::rlimit(60)]
proof fn lemma_input_step_preserves<T>(
    inputs: Seq<(Seq<T>, u32)>,
    k: int,
    m: LabelModel<T>,
    out: Seq<(bool, Seq<T>)>,
)
    requires
        label_invariant(inputs, k, m, out),
        m.state is Idle || m.state is Active,
        k < inputs.len(),
    ensures
        label_invariant(
            inputs,
            k + 1,
            label_input_step(m, inputs[k].0, inputs[k].1).0,
            out + emitted_seq(label_input_step(m, inputs[k].0, inputs[k].1).1),
        ),
{
    let chunk = inputs[k].0;
    let p = inputs[k].1;
    let stepped = label_input_step(m, chunk, p);
    let out1 = out + emitted_seq(stepped.1);
    let n = out.len() as int;
    let t = m.threshold;
    let pad = m.padding_chunks as int;
    let pushed = m.buffer.push(chunk);
    assert(forall|i: int| 0 <= i < n ==> out1[i] == out[i]);
    assert forall|j: int| 0 <= j < pushed.len() implies #[trigger] pushed[j] == inputs[n + j].0 by {
        if j < m.buffer.len() {
            assert(pushed[j] == m.buffer[j]);
        } else {
            assert(pushed[j] == chunk);
        }
    }
    match m.state {
        LabelStateInner::Idle => {
            if p >= t {
                // The machine enters the start-padding flush; everything
                // still buffered lies within the padding window of chunk k.
                assert(out1[n] == (true, pushed[0]));
                assert(speech_at(inputs, t, k));
                if pad >= 1 {
                    assert forall|j: int| n + 1 <= j < k + 1 implies #[trigger] padding_justified(
                        inputs,
                        t,
                        m.padding_chunks,
                        j,
                        k + 1,
                    ) by {
                        assert(k - j <= pad);
                        assert(0 <= k < k + 1 && j - pad <= k <= j + pad);
                    }
                    if !speech_at(inputs, t, n) {
                        assert(k - n <= pad);
                        assert(padding_justified(inputs, t, m.padding_chunks, n, k + 1));
                    }
                }
                assert forall|j: int| 0 <= j < stepped.0.buffer.len() implies #[trigger] stepped
                    .0
                    .buffer[j] == inputs[n + 1 + j].0 by {
                    assert(stepped.0.buffer[j] == pushed[j + 1]);
                }
            } else if pushed.len() > pad {
                assert(out1[n] == (false, pushed[0]));
                assert(!speech_at(inputs, t, n));
                assert forall|j: int| 0 <= j < stepped.0.buffer.len() implies #[trigger] stepped
                    .0
                    .buffer[j] == inputs[n + 1 + j].0 by {
                    assert(stepped.0.buffer[j] == pushed[j + 1]);
                }
            } else {
                assert(out1 =~= out);
            }
        },
        LabelStateInner::Active { speech } => {
            assert(pad >= 1 ==> m.buffer.len() <= pad - 1);
            if p >= t {
                assert(speech_at(inputs, t, k));
                if m.buffer.len() > 0 {
                    assert(out1[n] == (true, m.buffer[0]));
                    if pad >= 1 {
                        if !speech_at(inputs, t, n) {
                            assert(k - n <= pad);
                            assert(padding_justified(inputs, t, m.padding_chunks, n, k + 1));
                        }
                        lemma_last_speech_intro(inputs, t, n + 1, k + 1, k);
                    }
                    assert forall|j: int| 0 <= j < stepped.0.buffer.len() implies #[trigger] stepped
                        .0
                        .buffer[j] == inputs[n + 1 + j].0 by {
                        assert(stepped.0.buffer[j] == pushed[j + 1]);
                    }
                } else {
                    assert(out1[n] == (true, chunk));
                    assert(n == k);
                    if pad >= 1 {
                        lemma_last_speech_intro(inputs, t, n + 1, k + 1, k);
                    }
                }
            } else {
                if pad >= 1 {
                    let s0 = choose|s: int|
                        0 <= s < k && n - 1 <= s && #[trigger] speech_at(inputs, t, s)
                            && no_speech_between(inputs, t, s + 1, k);
                    assert(!speech_at(inputs, t, k));
                    if pushed.len() >= pad {
                        // The trailing padding window is now full: every
                        // chunk of it lies within `pad` of the last speech
                        // chunk `s0`.
                        assert(out1[n] == (true, pushed[0]));
                        assert forall|j: int| n + 1 <= j < k + 1 implies #[trigger] padding_justified(
                            inputs,
                            t,
                            m.padding_chunks,
                            j,
                            k + 1,
                        ) by {
                            if j <= s0 {
                                assert(s0 - j <= s0 - n <= k - 1 - n);
                                assert(0 <= s0 < k + 1 && j - pad <= s0 <= j + pad);
                            } else {
                                assert(j - s0 <= k - s0 <= k - (n - 1));
                                assert(k - n + 1 == pushed.len());
                                assert(0 <= s0 < k + 1 && j - pad <= s0 <= j + pad);
                            }
                        }
                        if !speech_at(inputs, t, n) {
                            if n <= s0 {
                                assert(padding_justified(inputs, t, m.padding_chunks, n, k + 1));
                            } else {
                                assert(s0 == n - 1);
                                assert(padding_justified(inputs, t, m.padding_chunks, n, k + 1));
                            }
                        }
                        assert forall|j: int| 0 <= j < stepped.0.buffer.len() implies #[trigger]
                        stepped.0.buffer[j] == inputs[n + 1 + j].0 by {
                            assert(stepped.0.buffer[j] == pushed[j + 1]);
                        }
                    } else {
                        assert(out1 =~= out);
                        assert(no_speech_between(inputs, t, s0 + 1, k + 1));
                        lemma_last_speech_intro(inputs, t, n, k + 1, s0);
                    }
                } else {
                    if pushed.len() >= pad {
                        assert(out1[n] == (true, pushed[0]));
                        assert forall|j: int| 0 <= j < stepped.0.buffer.len() implies #[trigger]
                        stepped.0.buffer[j] == inputs[n + 1 + j].0 by {
                            assert(stepped.0.buffer[j] == pushed[j + 1]);
                        }
                    } else {
                        assert(out1 =~= out);
                    }
                }
            }
        },
        _ => {},
    }
}

/// The invariant carries over from a prefix of the inputs to the whole
/// sequence, as long as only the first `k` inputs have been consumed.
proof fn lemma_invariant_prefix<T>(
    short: Seq<(Seq<T>, u32)>,
    long: Seq<(Seq<T>, u32)>,
    k: int,
    m: LabelModel<T>,
    out: Seq<(bool, Seq<T>)>,
)
    requires
        label_invariant(short, k, m, out),
        short == long.take(short.len() as int),
        short.len() <= long.len(),
    ensures
        label_invariant(long, k, m, out),
{
    let n = out.len() as int;
    let t = m.threshold;
    let pad = m.padding_chunks as int;
    assert forall|j: int| 0 <= j < short.len() implies long[j] == short[j] && (speech_at(
        long,
        t,
        j,
    ) == speech_at(short, t, j)) by {
        assert(long.take(short.len() as int)[j] == long[j]);
    }
    assert forall|i: int| 0 <= i < n implies (#[trigger] out[i]).1 == long[i].0 by {
        assert(out[i].1 == short[i].0);
    }
    assert forall|j: int| 0 <= j < m.buffer.len() implies #[trigger] m.buffer[j] == long[n + j].0 by {
        assert(m.buffer[j] == short[n + j].0);
    }
    assert forall|b: int, i: int|
        b <= k && #[trigger] padding_justified(short, t, m.padding_chunks, i, b) implies
        #[trigger] padding_justified(long, t, m.padding_chunks, i, b) by {
        let j = choose|j: int|
            0 <= j < b && i - m.padding_chunks <= j <= i + m.padding_chunks && #[trigger] speech_at(
                short,
                t,
                j,
            );
        assert(speech_at(long, t, j));
    }
    if pad >= 1 {
        assert forall|i: int|
            0 <= i < n && (#[trigger] out[i]).0 && !speech_at(long, t, i) implies
            padding_justified(long, t, m.padding_chunks, i, k) by {
            assert(!speech_at(short, t, i));
            assert(padding_justified(short, t, m.padding_chunks, i, k));
        }
    }
    match m.state {
        LabelStateInner::Idle => {
            assert(no_speech_between(long, t, n, k));
        },
        LabelStateInner::FlushStartPadding => {
            if pad >= 1 {
                assert(speech_at(long, t, k - 1));
                assert forall|j: int| n <= j < k implies #[trigger] padding_justified(
                    long,
                    t,
                    m.padding_chunks,
                    j,
                    k,
                ) by {
                    assert(padding_justified(short, t, m.padding_chunks, j, k));
                }
            }
        },
        LabelStateInner::Active { speech } => {
            if pad >= 1 {
                let s0 = choose|s: int|
                    0 <= s < k && n - 1 <= s && #[trigger] speech_at(short, t, s)
                        && no_speech_between(short, t, s + 1, k);
                assert(speech_at(long, t, s0));
                assert(no_speech_between(long, t, s0 + 1, k));
                lemma_last_speech_intro(long, t, n, k, s0);
                if speech && m.buffer.len() > 0 {
                    assert(speech_at(long, t, k - 1));
                }
            }
        },
        LabelStateInner::FlushEndPadding => {
            if pad >= 1 {
                assert forall|j: int| n <= j < k implies #[trigger] padding_justified(
                    long,
                    t,
                    m.padding_chunks,
                    j,
                    k,
                ) by {
                    assert(padding_justified(short, t, m.padding_chunks, j, k));
                }
            }
        },
    }
}

/// A run never changes the configuration half of the model.
proof fn lemma_run_config<T>(m: LabelModel<T>, inputs: Seq<(Seq<T>, u32)>)
    ensures
        label_run(m, inputs).0.threshold == m.threshold,
        label_run(m, inputs).0.padding_chunks == m.padding_chunks,
    decreases inputs.len(),
{
    if inputs.len() > 0 {
        lemma_run_config(m, inputs.drop_last());
        let prev = label_run(m, inputs.drop_last());
        lemma_drain_config(prev.0);
    }
}

/// Draining never changes the configuration half of the model.
proof fn lemma_drain_config<T>(m: LabelModel<T>)
    ensures
        label_drain(m).0.threshold == m.threshold,
        label_drain(m).0.padding_chunks == m.padding_chunks,
    decreases m.buffer.len(),
{
    let stepped = label_buffer_step(m);
    if stepped.1 is Some {
        lemma_drain_config(stepped.0);
    }
}

/// After a full run the invariant holds with every input consumed.
proof fn lemma_run_invariant<T>(threshold: u32, padding_chunks: usize, inputs: Seq<(Seq<T>, u32)>)
    ensures
        label_invariant(
            inputs,
            inputs.len() as int,
            label_run(initial_label_model::<T>(threshold, padding_chunks), inputs).0,
            label_run(initial_label_model::<T>(threshold, padding_chunks), inputs).1,
        ),
    decreases inputs.len(),
{
    let m0 = initial_label_model::<T>(threshold, padding_chunks);
    if inputs.len() == 0 {
        assert(label_invariant(inputs, 0, m0, Seq::<(bool, Seq<T>)>::empty()));
    } else {
        let short = inputs.drop_last();
        lemma_run_invariant(threshold, padding_chunks, short);
        let prev = label_run(m0, short);
        assert(short =~= inputs.take(short.len() as int));
        lemma_invariant_prefix(short, inputs, short.len() as int, prev.0, prev.1);
        lemma_drain_preserves(inputs, short.len() as int, prev.0, prev.1);
        let drained = label_drain(prev.0);
        lemma_input_step_preserves(inputs, short.len() as int, drained.0, prev.1 + drained.1);
        let last = inputs.last();
        assert(last == inputs[inputs.len() - 1]);
        let stepped = label_input_step(drained.0, last.0, last.1);
        assert(label_run(m0, inputs).1 =~= (prev.1 + drained.1) + emitted_seq(stepped.1));
    }
}

/// The invariant once the input has ended and the machine has drained: what
/// remains buffered is labeled by the final flush alone.
spec fn label_flush_invariant<T>(
    inputs: Seq<(Seq<T>, u32)>,
    m: LabelModel<T>,
    out: Seq<(bool, Seq<T>)>,
) -> bool {
    let n = out.len() as int;
    let t = m.threshold;
    let pad = m.padding_chunks as int;
    let len = inputs.len() as int;
    &&& n + m.buffer.len() == len
    &&& forall|i: int| 0 <= i < n ==> (#[trigger] out[i]).1 == inputs[i].0
    &&& forall|j: int| 0 <= j < m.buffer.len() ==> #[trigger] m.buffer[j] == inputs[n + j].0
    &&& forall|i: int| 0 <= i < n && !(#[trigger] out[i]).0 ==> !speech_at(inputs, t, i)
    &&& forall|i: int| 0 <= i < n && speech_at(inputs, t, i) ==> (#[trigger] out[i]).0
    &&& pad >= 1 ==> forall|i: int|
        0 <= i < n && (#[trigger] out[i]).0 && !speech_at(inputs, t, i) ==> padding_justified(
            inputs,
            t,
            m.padding_chunks,
            i,
            len,
        )
    &&& m.state is Idle ==> no_speech_between(inputs, t, n, len)
    &&& (pad >= 1 && !(m.state is Idle)) ==> all_justified(inputs, t, m.padding_chunks, n, len, len)
}

/// Once every input is consumed and the machine has drained, the flush
/// invariant holds.
proof fn lemma_flush_invariant_from<T>(
    inputs: Seq<(Seq<T>, u32)>,
    m: LabelModel<T>,
    out: Seq<(bool, Seq<T>)>,
)
    requires
        label_invariant(inputs, inputs.len() as int, m, out),
        m.state is Idle || m.state is Active,
    ensures
        label_flush_invariant(inputs, m, out),
{
    let n = out.len() as int;
    let t = m.threshold;
    let pad = m.padding_chunks as int;
    let len = inputs.len() as int;
    match m.state {
        LabelStateInner::Active { speech } => {
            if pad >= 1 {
                let s0 = choose|s: int|
                    0 <= s < len && n - 1 <= s && #[trigger] speech_at(inputs, t, s)
                        && no_speech_between(inputs, t, s + 1, len);
                assert forall|j: int| n <= j < len implies #[trigger] padding_justified(
                    inputs,
                    t,
                    m.padding_chunks,
                    j,
                    len,
                ) by {
                    if j <= s0 {
                        assert(s0 - j <= len - 1 - n);
                    } else {
                        assert(j - s0 <= len - 1 - (n - 1));
                    }
                }
            }
        },
        _ => {},
    }
}

/// One flush step preserves the flush invariant.
proof fn lemma_flush_step_preserves<T>(
    inputs: Seq<(Seq<T>, u32)>,
    m: LabelModel<T>,
    out: Seq<(bool, Seq<T>)>,
)
    requires
        label_flush_invariant(inputs, m, out),
    ensures
        label_flush_invariant(
            inputs,
            label_flush_step(m).0,
            out + emitted_seq(label_flush_step(m).1),
        ),
{
    let stepped = label_flush_step(m);
    let out1 = out + emitted_seq(stepped.1);
    let n = out.len() as int;
    if stepped.1 is Some {
        assert(out1.len() == n + 1);
        assert(out1[n] == stepped.1->0);
        assert(forall|i: int| 0 <= i < n ==> out1[i] == out[i]);
        assert(m.buffer[0] == inputs[n].0);
        assert forall|j: int| 0 <= j < stepped.0.buffer.len() implies #[trigger] stepped.0.buffer[j]
            == inputs[n + 1 + j].0 by {
            assert(stepped.0.buffer[j] == m.buffer[j + 1]);
        }
    } else {
        assert(out1 =~= out);
    }
}

/// The whole final flush keeps the flush invariant's conclusions and leaves
/// nothing unemitted.
proof fn lemma_flush_all_preserves<T>(
    inputs: Seq<(Seq<T>, u32)>,
    m: LabelModel<T>,
    out: Seq<(bool, Seq<T>)>,
)
    requires
        label_flush_invariant(inputs, m, out),
    ensures
        (out + label_flush_all(m)).len() == inputs.len(),
        forall|i: int|
            0 <= i < inputs.len() ==> ((out + label_flush_all(m))[i]).1 == inputs[i].0,
        forall|i: int|
            0 <= i < inputs.len() && !((out + label_flush_all(m))[i]).0 ==> !speech_at(
                inputs,
                m.threshold,
                i,
            ),
        forall|i: int|
            0 <= i < inputs.len() && speech_at(inputs, m.threshold, i) ==> ((out
                + label_flush_all(m))[i]).0,
        m.padding_chunks >= 1 ==> forall|i: int|
            0 <= i < inputs.len() && ((out + label_flush_all(m))[i]).0 && !speech_at(
                inputs,
                m.threshold,
                i,
            ) ==> padding_justified(inputs, m.threshold, m.padding_chunks, i, inputs.len() as int),
    decreases m.buffer.len(),
{
    let stepped = label_flush_step(m);
    if stepped.1 is Some {
        lemma_flush_step_preserves(inputs, m, out);
        lemma_flush_all_preserves(inputs, stepped.0, out + emitted_seq(stepped.1));
        assert(out + label_flush_all(m) =~= (out + emitted_seq(stepped.1)) + label_flush_all(
            stepped.0,
        ));
    } else {
        assert(out + label_flush_all(m) =~= out);
    }
}

/// The labeling stage loses nothing and reorders nothing: the output has one
/// labeled chunk for every input chunk, in input order, so the
/// concatenation of the output samples equals the concatenation of the
/// input samples.
pub proof fn lemma_label_outputs_complete<T>(
    threshold: u32,
    padding_chunks: usize,
    inputs: Seq<(Seq<T>, u32)>,
)
    ensures
        label_outputs(threshold, padding_chunks, inputs).len() == inputs.len(),
        label_outputs(threshold, padding_chunks, inputs).map_values(|o: (bool, Seq<T>)| o.1)
            == inputs.map_values(|p: (Seq<T>, u32)| p.0),
        label_outputs(threshold, padding_chunks, inputs).map_values(
            |o: (bool, Seq<T>)| o.1,
        ).flatten() == inputs.map_values(|p: (Seq<T>, u32)| p.0).flatten(),
{
    let m0 = initial_label_model::<T>(threshold, padding_chunks);
    let run = label_run(m0, inputs);
    lemma_run_invariant(threshold, padding_chunks, inputs);
    lemma_drain_preserves(inputs, inputs.len() as int, run.0, run.1);
    let drained = label_drain(run.0);
    lemma_flush_invariant_from(inputs, drained.0, run.1 + drained.1);
    lemma_flush_all_preserves(inputs, drained.0, run.1 + drained.1);
    let outs = label_outputs(threshold, padding_chunks, inputs);
    assert(outs =~= (run.1 + drained.1) + label_flush_all(drained.0));
    assert(outs.map_values(|o: (bool, Seq<T>)| o.1) =~= inputs.map_values(
        |p: (Seq<T>, u32)| p.0,
    ));
}

/// The labeling stage classifies faithfully: a chunk at or above the
/// threshold is always labeled speech, a chunk labeled non-speech is always
/// below the threshold, and (for a positive padding window) every chunk that
/// is labeled speech while being below the threshold lies within
/// `padding_chunks` chunks of a chunk at or above the threshold — padding
/// never reaches further than that.
pub proof fn lemma_label_outputs_padding<T>(
    threshold: u32,
    padding_chunks: usize,
    inputs: Seq<(Seq<T>, u32)>,
)
    requires
        padding_chunks >= 1,
    ensures
        forall|i: int|
            0 <= i < inputs.len() && inputs[i].1 >= threshold ==> (#[trigger] label_outputs(
                threshold,
                padding_chunks,
                inputs,
            )[i]).0,
        forall|i: int|
            0 <= i < inputs.len() && !(#[trigger] label_outputs(
                threshold,
                padding_chunks,
                inputs,
            )[i]).0 ==> inputs[i].1 < threshold,
        forall|i: int|
            0 <= i < inputs.len() && (#[trigger] label_outputs(threshold, padding_chunks, inputs)[i]).0
                && inputs[i].1 < threshold ==> padding_justified(
                inputs,
                threshold,
                padding_chunks,
                i,
                inputs.len() as int,
            ),
{
    let m0 = initial_label_model::<T>(threshold, padding_chunks);
    let run = label_run(m0, inputs);
    lemma_run_config(m0, inputs);
    lemma_run_invariant(threshold, padding_chunks, inputs);
    lemma_drain_preserves(inputs, inputs.len() as int, run.0, run.1);
    let drained = label_drain(run.0);
    lemma_drain_config(run.0);
    lemma_flush_invariant_from(inputs, drained.0, run.1 + drained.1);
    lemma_flush_all_preserves(inputs, drained.0, run.1 + drained.1);
    let outs = label_outputs(threshold, padding_chunks, inputs);
    let fin = (run.1 + drained.1) + label_flush_all(drained.0);
    assert(outs =~= fin);
    assert(drained.0.threshold == threshold);
    assert(drained.0.padding_chunks == padding_chunks);
    assert forall|i: int|
        0 <= i < inputs.len() && inputs[i].1 >= threshold implies (#[trigger] label_outputs(
        threshold,
        padding_chunks,
        inputs,
    )[i]).0 by {
        assert(speech_at(inputs, threshold, i));
        assert(fin[i].0);
    }
    assert forall|i: int|
        0 <= i < inputs.len() && !(#[trigger] label_outputs(threshold, padding_chunks, inputs)[i]).0
        implies inputs[i].1 < threshold by {
        assert(!fin[i].0);
        assert(!speech_at(inputs, threshold, i));
    }
    assert forall|i: int|
        0 <= i < inputs.len() && (#[trigger] label_outputs(threshold, padding_chunks, inputs)[i]).0
            && inputs[i].1 < threshold implies padding_justified(
        inputs,
        threshold,
        padding_chunks,
        i,
        inputs.len() as int,
    ) by {
        assert(fin[i].0);
        assert(!speech_at(inputs, threshold, i));
        assert(padding_justified(inputs, threshold, padding_chunks, i, inputs.len() as int));
    }
}

} // verus!
