//! Tests of the processor layer: gain stages, effect chains and the
//! transport-buffer placeholder.

use audio_processor::{AudioProcessor, RingBuffer, StreamProcessor};

#[test]
fn test_basic_gain() {
    let mut processor = AudioProcessor::new();
    processor.set_gain(65536); // 2.0

    let input = vec![16384; 1024]; // 0.5
    let mut output = vec![0; 1024];

    processor.process(&input, &mut output);

    // 0.001 of full scale is about 33 Q15 steps
    assert!((output[0] - 32768).abs() < 33);
}

#[test]
fn test_process_truncates_to_shorter_buffer() {
    let mut processor = AudioProcessor::new();
    processor.set_gain(65536);
    let input = vec![100, 200];
    let mut output = vec![7, 7, 7];
    processor.process(&input, &mut output);
    assert_eq!(output, vec![200, 400, 7]);
}

#[test]
fn test_process_in_place() {
    let mut processor = AudioProcessor::new();
    processor.set_gain(-32768); // -1.0: phase inversion
    let mut buffer = vec![1000, -2000, 0];
    processor.process_in_place(&mut buffer);
    assert_eq!(buffer, vec![-1000, 2000, 0]);
}

#[test]
fn test_effect_unit_construction() {
    // any positive buffer size is accepted; the default hint is 1024
    let _small = AudioProcessor::with_buffer_size(1);
    let _large = AudioProcessor::with_buffer_size(1 << 20);
    let _default = AudioProcessor::default();
    let _new = AudioProcessor::new();
}

#[test]
fn test_unity_gain_by_default() {
    let mut processor = AudioProcessor::new();
    let mut buffer = vec![123, -456, 789];
    processor.process_in_place(&mut buffer);
    assert_eq!(buffer, vec![123, -456, 789]);
}

#[test]
fn test_ring_buffer_capacity() {
    let buffer = RingBuffer::new(4096);
    assert_eq!(buffer.capacity(), 4096);
    let empty = RingBuffer::new(0);
    assert_eq!(empty.capacity(), 0);
}

#[test]
fn test_chain_identity() {
    // stages of gain 2.0 then 0.5 leave a constant buffer of 1.0 unchanged
    let mut chain = StreamProcessor::new(1024);
    chain.add_gain(65536);
    chain.add_gain(16384);
    let mut buffer = vec![32768; 8];
    let result = chain.process(&mut buffer);
    assert!(result.is_ok());
    assert_eq!(buffer, vec![32768; 8]);
}

#[test]
fn test_chain_applies_in_order() {
    let mut chain = StreamProcessor::new(64);
    chain.add_gain(65536); // 2.0
    chain.add_gain(98304); // 3.0
    let mut buffer = vec![100, -100];
    let result = chain.process(&mut buffer);
    assert!(result.is_ok());
    assert_eq!(buffer, vec![600, -600]);
}

#[test]
fn test_empty_chain_is_identity() {
    let mut chain = StreamProcessor::new(256);
    let mut buffer = vec![42, -42];
    let result = chain.process(&mut buffer);
    assert!(result.is_ok());
    assert_eq!(buffer, vec![42, -42]);
}
