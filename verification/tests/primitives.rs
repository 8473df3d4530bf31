//! Tests of the buffer primitives. Sample values are Q15: `32768` is
//! full scale (`1.0`).

use audio_processor::unsafe_primitives::{
    apply_biquad_unsafe, apply_gain_unsafe, apply_lowpass_unsafe, clear_buffer_unsafe,
    clip_buffer_unsafe, compute_rms_unsafe, convert_f32_to_i16_unsafe, convert_i16_to_f32_unsafe,
    copy_buffer_unsafe, deinterleave_channels_unsafe, interleave_channels_unsafe,
    mix_buffers_unsafe, normalize_unsafe,
};

#[test]
fn test_apply_gain_unsafe() {
    // buffer of 0.5, gain 2.0: every sample lands on 1.0
    let mut buffer = vec![16384, 16384, 16384, 16384];
    apply_gain_unsafe(&mut buffer, 65536);
    assert_eq!(buffer, vec![32768, 32768, 32768, 32768]);
}

#[test]
fn test_mix_buffers_unsafe() {
    // 0.5 + 0.25 = 0.75 in every slot
    let mut dest = vec![16384, 16384, 16384, 16384];
    let src = vec![8192, 8192, 8192, 8192];
    mix_buffers_unsafe(&mut dest, &src);
    assert_eq!(dest, vec![24576, 24576, 24576, 24576]);
}

#[test]
fn test_convert_i16_to_f32_unsafe() {
    let input = vec![16384i16, -16384i16, 32767i16, -32768i16];
    let mut output = vec![0i32; 4];
    convert_i16_to_f32_unsafe(&input, &mut output);

    // 0.01 of full scale is about 328 Q15 steps
    assert!((output[0] - 16384).abs() < 328);
    assert!((output[1] + 16384).abs() < 328);
    assert!((output[2] - 32768).abs() < 328);
    assert!((output[3] + 32768).abs() < 328);
}

#[test]
fn test_apply_biquad_unsafe() {
    // Simple lowpass biquad coefficients (about [0.1, 0.2, 0.1, -0.5, 0.2])
    let coeffs = [3277, 6554, 3277, -16384, 6554]; // b0, b1, b2, a1, a2
    let mut state = [0, 0, 0, 0]; // x1, x2, y1, y2
    let mut buffer = vec![32768, 16384, -16384, 0, 8192];

    apply_biquad_unsafe(&mut buffer, &coeffs, &mut state);

    // The filter must change the first sample and keep everything bounded.
    assert_ne!(buffer[0], 32768);
    assert!(buffer.iter().all(|&x| (-32768..=32768).contains(&x)));
}

#[test]
fn test_biquad_difference_equation() {
    // With a unity first input and zero state, the first output is b0
    // exactly; the rest follow the difference equation step by step.
    let coeffs = [3277, 6554, 3277, -16384, 6554];
    let mut state = [0, 0, 0, 0];
    let mut buffer = vec![32768, 16384, -16384, 0, 8192];
    apply_biquad_unsafe(&mut buffer, &coeffs, &mut state);
    assert_eq!(buffer, vec![3277, 9831, 9175, 982, -2163]);
    // The state holds the last two inputs and outputs for the next call.
    assert_eq!(state, [8192, 0, -2163, 982]);
}

#[test]
fn test_biquad_state_threading() {
    // Two calls over split halves equal one call over the whole buffer.
    let coeffs = [3277, 6554, 3277, -16384, 6554];
    let mut state_a = [0, 0, 0, 0];
    let mut whole = vec![32768, 16384, -16384, 0, 8192];
    apply_biquad_unsafe(&mut whole, &coeffs, &mut state_a);

    let mut state_b = [0, 0, 0, 0];
    let mut front = vec![32768, 16384];
    let mut back = vec![-16384, 0, 8192];
    apply_biquad_unsafe(&mut front, &coeffs, &mut state_b);
    apply_biquad_unsafe(&mut back, &coeffs, &mut state_b);
    front.extend_from_slice(&back);
    assert_eq!(whole, front);
    assert_eq!(state_a, state_b);
}

#[test]
fn test_gain_round_trip() {
    // gain 2.0 then gain 0.5 restores the buffer exactly
    let original = vec![12345, -31000, 0, 1, -1, 16384];
    let mut buffer = original.clone();
    apply_gain_unsafe(&mut buffer, 65536);
    apply_gain_unsafe(&mut buffer, 16384);
    assert_eq!(buffer, original);
}

#[test]
fn test_mix_then_subtract() {
    // mixing a and then a scaled by -1.0 restores the destination
    let b0 = vec![100, -200, 300, -400];
    let a = vec![5000, 6000, -7000, 8000];
    let mut b = b0.clone();
    mix_buffers_unsafe(&mut b, &a);
    let mut neg_a = a.clone();
    apply_gain_unsafe(&mut neg_a, -32768);
    mix_buffers_unsafe(&mut b, &neg_a);
    assert_eq!(b, b0);
}

#[test]
fn test_mix_length_mismatch() {
    // only the overlapping region is mixed
    let mut dest = vec![10, 20, 30];
    let src = vec![1, 2];
    mix_buffers_unsafe(&mut dest, &src);
    assert_eq!(dest, vec![11, 22, 30]);

    let mut short_dest = vec![10];
    let long_src = vec![1, 2, 3];
    mix_buffers_unsafe(&mut short_dest, &long_src);
    assert_eq!(short_dest, vec![11]);
}

#[test]
fn test_convert_f32_to_i16_clamps() {
    // out-of-range samples clamp to full scale before the PCM rescale
    let input = vec![32768, -32768, 65536, -65536, 0, 16384];
    let mut output = vec![0i16; 6];
    convert_f32_to_i16_unsafe(&input, &mut output);
    assert_eq!(output, vec![32767, -32767, 32767, -32767, 0, 16383]);
}

#[test]
fn test_pcm_round_trip_within_one() {
    // int -> sample -> int moves any 16-bit value by at most one step
    for v in i16::MIN..=i16::MAX {
        let input = vec![v];
        let mut samples = vec![0i32; 1];
        convert_i16_to_f32_unsafe(&input, &mut samples);
        let mut back = vec![0i16; 1];
        convert_f32_to_i16_unsafe(&samples, &mut back);
        assert!((back[0] as i32 - v as i32).abs() <= 1);
    }
}

#[test]
fn test_interleave_channels() {
    let channels = vec![vec![1, 2, 3], vec![10, 20, 30]];
    let mut output = vec![0i32; 7];
    interleave_channels_unsafe(&channels, &mut output);
    // frames cycle through the channels; the seventh slot is untouched
    assert_eq!(output, vec![1, 10, 2, 20, 3, 30, 0]);
}

#[test]
fn test_deinterleave_channels() {
    // seven samples over two channels: three frames, the last sample of
    // an incomplete frame is dropped, channel tails stay untouched
    let input = vec![1, 10, 2, 20, 3, 30, 99];
    let mut channels = vec![vec![0i32; 4], vec![0i32; 4]];
    channels[0][3] = -5;
    deinterleave_channels_unsafe(&input, &mut channels);
    assert_eq!(channels[0], vec![1, 2, 3, -5]);
    assert_eq!(channels[1], vec![10, 20, 30, 0]);
}

#[test]
fn test_interleave_then_deinterleave() {
    let channels = vec![vec![7, -8, 9], vec![-1, 2, -3]];
    let mut inter = vec![0i32; 6];
    interleave_channels_unsafe(&channels, &mut inter);
    let mut out = vec![vec![0i32; 3], vec![0i32; 3]];
    deinterleave_channels_unsafe(&inter, &mut out);
    assert_eq!(out, channels);
}

#[test]
fn test_apply_lowpass_unsafe() {
    // alpha = 0.5: each output moves halfway toward the input
    let mut buffer = vec![32768, 0, 0, 0];
    apply_lowpass_unsafe(&mut buffer, 16384);
    assert_eq!(buffer, vec![32768, 16384, 8192, 4096]);
}

#[test]
fn test_lowpass_short_buffers() {
    let mut empty: Vec<i32> = Vec::new();
    apply_lowpass_unsafe(&mut empty, 16384);
    assert_eq!(empty, Vec::<i32>::new());

    let mut single = vec![777];
    apply_lowpass_unsafe(&mut single, 16384);
    assert_eq!(single, vec![777]);
}

#[test]
fn test_normalize_unsafe() {
    // peak 16384 is scaled onto 32440, the Q15 value of 0.99
    let mut buffer = vec![16384, -8192, 4096];
    normalize_unsafe(&mut buffer);
    assert_eq!(buffer, vec![32440, -16220, 8110]);
    assert_eq!(buffer.iter().map(|x| x.abs()).max(), Some(32440));
}

#[test]
fn test_normalize_silent_buffer() {
    let mut buffer = vec![0, 0, 0];
    normalize_unsafe(&mut buffer);
    assert_eq!(buffer, vec![0, 0, 0]);
}

#[test]
fn test_copy_buffer_unsafe() {
    let src = vec![1, 2, 3];
    let mut dest = vec![9, 9, 9, 9];
    copy_buffer_unsafe(&src, &mut dest);
    assert_eq!(dest, vec![1, 2, 3, 9]);
}

#[test]
fn test_clear_buffer_unsafe() {
    let mut buffer = vec![5, -6, 7];
    clear_buffer_unsafe(&mut buffer);
    assert_eq!(buffer, vec![0, 0, 0]);
}

#[test]
fn test_compute_rms_constant() {
    // RMS of identical samples is exactly their magnitude
    let buffer = vec![-12345; 7];
    assert_eq!(compute_rms_unsafe(&buffer), 12345);
    let unit = vec![32768; 3];
    assert_eq!(compute_rms_unsafe(&unit), 32768);
}

#[test]
fn test_compute_rms_mixed() {
    // mean of squares 300^2 and 400^2 is 125000; its root rounds to 353
    let buffer = vec![300, 400];
    assert_eq!(compute_rms_unsafe(&buffer), 353);
}

#[test]
fn test_clip_buffer_unsafe() {
    let mut buffer = vec![40000, -50000, 123, -32768, 32768, 0];
    clip_buffer_unsafe(&mut buffer);
    assert_eq!(buffer, vec![32768, -32768, 123, -32768, 32768, 0]);
}
