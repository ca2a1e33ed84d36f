//! End-to-end tests for the chunker, the labeling stage, and the segment
//! stage, on concrete inputs with exact expected outputs.

use voice_activity_detector::{
    chunk_samples, label_chunks, segment_chunks, Error, LabeledAudio, PredictState,
    SegmentMergerState, VoiceActivityDetector, PROBABILITY_SCALE,
};

/// Probability `p` tenths, as a fixed-point value.
fn tenths(p: u32) -> u32 {
    p * (PROBABILITY_SCALE / 10)
}

/// A distinct four-sample chunk for index `i`.
fn chunk(i: i16) -> Vec<i16> {
    vec![4 * i, 4 * i + 1, 4 * i + 2, 4 * i + 3]
}

fn labeled(audio: &LabeledAudio<i16>) -> (bool, Vec<i16>) {
    (audio.is_speech(), audio.iter().clone())
}

#[test]
fn config_boundary_accepted() {
    // 16000 / 512 == 31.25 exactly: the boundary is inclusive.
    let vad = VoiceActivityDetector::builder()
        .sample_rate(16000)
        .chunk_size(512)
        .build()
        .unwrap();
    assert_eq!(vad.chunk_size(), 512);
    assert_eq!(vad.sample_rate, 16000);
}

#[test]
fn config_above_boundary_rejected() {
    // 16000 / 256 == 62.5 > 31.25: rejected, with both values reported.
    let result = VoiceActivityDetector::builder()
        .sample_rate(16000)
        .chunk_size(256)
        .build();
    assert_eq!(
        result,
        Err(Error::VadConfigError {
            sample_rate: 16000,
            chunk_size: 256,
        })
    );
}

#[test]
fn config_order_of_setters_is_irrelevant() {
    let a = VoiceActivityDetector::builder()
        .chunk_size(512)
        .sample_rate(8000)
        .build()
        .unwrap();
    let b = VoiceActivityDetector::builder()
        .sample_rate(8000)
        .chunk_size(512)
        .build()
        .unwrap();
    assert_eq!(a, b);
}

#[test]
fn chunker_drops_underfull_tail() {
    let samples: Vec<i16> = (1..=10).collect();
    let chunks = chunk_samples(&samples, 4);
    assert_eq!(chunks, vec![vec![1, 2, 3, 4], vec![5, 6, 7, 8]]);
}

#[test]
fn chunker_exact_fit() {
    let samples: Vec<i16> = (1..=6).collect();
    let chunks = chunk_samples(&samples, 3);
    assert_eq!(chunks, vec![vec![1, 2, 3], vec![4, 5, 6]]);
}

#[test]
fn predict_state_accumulates_in_order() {
    let vad = VoiceActivityDetector::builder()
        .sample_rate(8)
        .chunk_size(3)
        .build()
        .unwrap();
    let mut state = PredictState::new(&vad);
    assert_eq!(state.try_next(1i16), None);
    assert_eq!(state.try_next(2i16), None);
    assert_eq!(state.try_next(3i16), Some(vec![1, 2, 3]));
    // The buffer restarts empty after a chunk is handed out.
    assert_eq!(state.try_next(4i16), None);
}

#[test]
fn label_short_run_is_all_speech() {
    // With one chunk of padding, a single speech chunk in the middle pulls
    // the whole three-chunk input into the speech region.
    let inputs = vec![
        (chunk(0), tenths(1)),
        (chunk(1), tenths(9)),
        (chunk(2), tenths(1)),
    ];
    let out = label_chunks(inputs, tenths(5), 1);
    let got: Vec<(bool, Vec<i16>)> = out.iter().map(labeled).collect();
    assert_eq!(
        got,
        vec![(true, chunk(0)), (true, chunk(1)), (true, chunk(2))]
    );
}

#[test]
fn label_all_silence_is_all_nonspeech() {
    let inputs = vec![
        (chunk(0), tenths(1)),
        (chunk(1), tenths(1)),
        (chunk(2), tenths(1)),
    ];
    let out = label_chunks(inputs, tenths(5), 1);
    let got: Vec<(bool, Vec<i16>)> = out.iter().map(labeled).collect();
    assert_eq!(
        got,
        vec![(false, chunk(0)), (false, chunk(1)), (false, chunk(2))]
    );
}

#[test]
fn label_padding_surrounds_speech() {
    // One chunk of padding on each side of the single speech chunk; the
    // outermost chunks stay non-speech.
    let inputs = vec![
        (chunk(0), tenths(1)),
        (chunk(1), tenths(1)),
        (chunk(2), tenths(9)),
        (chunk(3), tenths(1)),
        (chunk(4), tenths(1)),
    ];
    let out = label_chunks(inputs, tenths(5), 1);
    let got: Vec<(bool, Vec<i16>)> = out.iter().map(labeled).collect();
    assert_eq!(
        got,
        vec![
            (false, chunk(0)),
            (true, chunk(1)),
            (true, chunk(2)),
            (true, chunk(3)),
            (false, chunk(4)),
        ]
    );
}

#[test]
fn label_keeps_order_and_samples() {
    // Whatever the labels, the chunks come back unchanged and in order.
    let probabilities = [1, 9, 1, 1, 9, 9, 1, 1, 1, 9];
    let inputs: Vec<(Vec<i16>, u32)> = probabilities
        .iter()
        .enumerate()
        .map(|(i, p)| (chunk(i as i16), tenths(*p)))
        .collect();
    let out = label_chunks(inputs, tenths(5), 2);
    assert_eq!(out.len(), probabilities.len());
    for (i, audio) in out.iter().enumerate() {
        assert_eq!(audio.iter(), &chunk(i as i16));
    }
}

#[test]
fn labeled_audio_accessors() {
    let speech = LabeledAudio::Speech(vec![1i16, 2]);
    let nonspeech = LabeledAudio::NonSpeech(vec![3i16]);
    assert!(speech.is_speech());
    assert!(!nonspeech.is_speech());
    assert_eq!(speech.iter(), &vec![1, 2]);
    assert_eq!(nonspeech.iter(), &vec![3]);
    assert_eq!(speech.into_samples(), vec![1, 2]);
    assert_eq!(nonspeech.into_samples(), vec![3]);
}

#[test]
fn segment_flushes_after_sustained_silence() {
    // Three speech chunks, then five silent ones: the segment holding the
    // first three chunks is emitted after the third consecutive silent
    // chunk, and nothing follows.
    let probabilities = [9, 9, 9, 1, 1, 1, 1, 1];
    let inputs: Vec<(Vec<i16>, u32)> = probabilities
        .iter()
        .enumerate()
        .map(|(i, p)| (chunk(i as i16), tenths(*p)))
        .collect();
    let out = segment_chunks(inputs, tenths(75) / 10, usize::MAX, 3);
    let mut expected = Vec::new();
    expected.extend(chunk(0));
    expected.extend(chunk(1));
    expected.extend(chunk(2));
    assert_eq!(out, vec![expected]);
}

#[test]
fn segment_splits_at_sample_cap() {
    // Chunks of four samples against a cap of eight: the segment splits
    // exactly when appending a third chunk would exceed the cap.
    let inputs: Vec<(Vec<i16>, u32)> = (0..4).map(|i| (chunk(i), tenths(9))).collect();
    let out = segment_chunks(inputs, tenths(5), 8, 3);
    let mut first = chunk(0);
    first.extend(chunk(1));
    let mut second = chunk(2);
    second.extend(chunk(3));
    assert_eq!(out, vec![first, second]);
    for segment in &out {
        assert!(segment.len() <= 8);
    }
}

#[test]
fn segment_silence_counter_is_not_reset_by_flush() {
    // After a silence flush the counter keeps counting, which is benign:
    // with the segment empty, further silence emits nothing, and the next
    // speech chunk starts a fresh segment.
    let probabilities = [9, 1, 1, 1, 9];
    let inputs: Vec<(Vec<i16>, u32)> = probabilities
        .iter()
        .enumerate()
        .map(|(i, p)| (chunk(i as i16), tenths(*p)))
        .collect();
    let out = segment_chunks(inputs, tenths(5), usize::MAX, 2);
    assert_eq!(out, vec![chunk(0), chunk(4)]);
}

#[test]
fn segment_final_flush_emits_remainder() {
    let inputs = vec![(chunk(0), tenths(9)), (chunk(1), tenths(9))];
    let out = segment_chunks(inputs, tenths(5), usize::MAX, 3);
    let mut expected = chunk(0);
    expected.extend(chunk(1));
    assert_eq!(out, vec![expected]);
}

#[test]
fn segment_limits_derived_from_durations() {
    // At 16000 Hz with 512-sample chunks one chunk covers 32ms: 100ms of
    // speech rounds up to 4 chunks (2048 samples) and 64ms of silence to
    // exactly 2 chunks.
    let vad = VoiceActivityDetector::builder()
        .sample_rate(16000)
        .chunk_size(512)
        .build()
        .unwrap();
    let merger: SegmentMergerState<i16> = SegmentMergerState::with_durations(tenths(5), &vad, 100, 64);
    assert_eq!(merger.max_samples, 2048);
    assert_eq!(merger.min_sil_chunks, 2);
    assert_eq!(merger.threshold, tenths(5));
    assert_eq!(merger.consecutive_silence, 0);
    assert!(merger.current_segment.is_empty());
}

#[test]
fn segment_limits_refused_for_degenerate_config() {
    // A zero chunk size or a non-positive sample rate leaves no way to
    // derive per-chunk limits from durations.
    let zero_chunk = VoiceActivityDetector {
        chunk_size: 0,
        sample_rate: -16000,
    };
    let merger: Option<SegmentMergerState<i16>> =
        SegmentMergerState::try_with_durations(tenths(5), &zero_chunk, 100, 64);
    assert!(merger.is_none());
}

#[test]
fn segment_threshold_is_strict() {
    // The segment stage uses a strict comparison: a probability equal to
    // the threshold counts as silence.
    let inputs = vec![(chunk(0), tenths(5)), (chunk(1), tenths(6))];
    let out = segment_chunks(inputs, tenths(5), usize::MAX, 10);
    assert_eq!(out, vec![chunk(1)]);
}

#[test]
fn label_threshold_is_inclusive() {
    // The labeling stage uses an inclusive comparison: a probability equal
    // to the threshold counts as speech.
    let inputs = vec![(chunk(0), tenths(5))];
    let out = label_chunks(inputs, tenths(5), 0);
    let got: Vec<(bool, Vec<i16>)> = out.iter().map(labeled).collect();
    assert_eq!(got, vec![(true, chunk(0))]);
}
