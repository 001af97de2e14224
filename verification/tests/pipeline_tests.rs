use rustfft::num_complex::Complex;
use rustfft::FftPlanner;
use std::f32::consts::PI;
use std::time::Instant;
use ush::modulation::{bits_to_bytes, bytes_to_bits, SymbolPlan};
use ush::protocol::{ProtocolDecoder, ProtocolEncoder};
use ush::UshError;

const AMPLITUDE: f32 = 0.3;
const SILENCE: f32 = 0.001;

fn default_plan() -> SymbolPlan {
    SymbolPlan::new(44100, 18000, 20000, 441, 88).unwrap()
}

/// One symbol per bit: a sine at the bit's tone, the first symbol rising and
/// the last one falling as the plan says.
fn encode_bits(plan: &SymbolPlan, bits: &[bool]) -> Vec<f32> {
    let mut samples = Vec::with_capacity(plan.sample_count(bits.len()).unwrap());
    for (k, &bit) in bits.iter().enumerate() {
        let frequency = if bit { plan.freq_1() } else { plan.freq_0() } as f32;
        for i in 0..plan.samples_per_symbol() {
            let t = i as f32 / plan.sample_rate() as f32;
            let mut amplitude = (2.0 * PI * frequency * t).sin();
            if let Some(parts) = plan.rise(i, k == 0) {
                amplitude *= parts as f32 / plan.ramp_samples() as f32;
            }
            if let Some(parts) = plan.fall(i, k + 1 == bits.len()) {
                amplitude *= parts as f32 / plan.ramp_samples() as f32;
            }
            samples.push(amplitude * AMPLITUDE);
        }
    }
    samples
}

fn encode_bytes(plan: &SymbolPlan, data: &[u8]) -> Vec<f32> {
    encode_bits(plan, &bytes_to_bits(data))
}

fn peak_power(spectrum: &[Complex<f32>], window: (usize, usize)) -> f32 {
    (window.0..=window.1).map(|i| spectrum[i].norm_sqr()).fold(0.0f32, f32::max)
}

/// The bit of each symbol: the tone with more power in the bins around it.
fn decode_samples(plan: &SymbolPlan, samples: &[f32]) -> Result<Vec<bool>, UshError> {
    let symbols = plan.symbol_count(samples.len())?;
    let fft = FftPlanner::new().plan_fft_forward(plan.fft_size());
    let mut bits = Vec::with_capacity(symbols);
    for index in 0..symbols {
        let (start, end) = plan.symbol_window(index, samples.len()).unwrap();
        let mut buffer: Vec<Complex<f32>> =
            samples[start..end].iter().map(|&s| Complex::new(s, 0.0)).collect();
        buffer.resize(plan.fft_size(), Complex::new(0.0, 0.0));
        fft.process(&mut buffer);
        let power_0 = peak_power(&buffer, plan.search_window(plan.bin_0()));
        let power_1 = peak_power(&buffer, plan.search_window(plan.bin_1()));
        if power_0 < SILENCE && power_1 < SILENCE {
            return Err(UshError::Decoding { message: "No signal detected in symbol".to_string() });
        }
        bits.push(power_1 > power_0);
    }
    Ok(bits)
}

fn decode_bytes(plan: &SymbolPlan, samples: &[f32]) -> Result<Vec<u8>, UshError> {
    bits_to_bytes(&decode_samples(plan, samples)?)
}

#[test]
fn modulation_test_encode_decode_roundtrip() {
    let plan = default_plan();

    let original_data = b"Hello, World!";
    let encoded = encode_bytes(&plan, original_data);
    let decoded = decode_bytes(&plan, &encoded).unwrap();

    assert_eq!(original_data, &decoded[..]);
}

#[test]
fn test_bit_encoding() {
    let plan = default_plan();

    let bits = vec![true, false, true, false];
    let samples = encode_bits(&plan, &bits);

    assert_eq!(samples.len(), bits.len() * plan.samples_per_symbol());
}

#[test]
fn two_bytes_are_7056_samples_and_come_back() {
    let plan = default_plan();
    let samples = encode_bytes(&plan, b"Hi");
    assert_eq!(samples.len(), 7056);
    assert_eq!(plan.modulated_length(2), Some(samples.len()));
    assert_eq!(decode_bytes(&plan, &samples).unwrap(), b"Hi".to_vec());
}

#[test]
fn bits_come_back_from_their_samples() {
    let plan = default_plan();
    for bits in [
        vec![true],
        vec![false],
        vec![true, false],
        vec![false, false, true, true, false, true],
        vec![true; 9],
    ] {
        assert_eq!(decode_samples(&plan, &encode_bits(&plan, &bits)).unwrap(), bits);
    }
}

#[test]
fn transmission_begins_at_nothing_and_ends_near_it() {
    let plan = default_plan();
    let samples = encode_bytes(&plan, b"Hi");
    let bound = AMPLITUDE / plan.ramp_samples() as f32;
    assert!(samples[0].abs() <= bound);
    assert!(samples[samples.len() - 1].abs() <= bound);
    assert!(samples.iter().all(|s| s.abs() <= AMPLITUDE));
}

#[test]
fn no_samples_decode_to_no_bytes() {
    let plan = default_plan();
    assert_eq!(decode_bytes(&plan, &[]).unwrap(), Vec::<u8>::new());
}

#[test]
fn ragged_samples_are_a_decoding_failure() {
    let plan = default_plan();
    let mut samples = encode_bytes(&plan, b"Hi");
    samples.push(0.0);
    assert!(matches!(decode_bytes(&plan, &samples), Err(UshError::Decoding { .. })));
}

#[test]
fn silence_is_a_decoding_failure() {
    let plan = default_plan();
    let samples = vec![0.0f32; 441 * 8];
    match decode_bytes(&plan, &samples) {
        Err(UshError::Decoding { message }) => assert_eq!(message, "No signal detected in symbol"),
        other => panic!("expected a decoding failure, got {:?}", other),
    }
}

#[test]
fn test_full_pipeline() {
    let plan = default_plan();

    let mut encoder = ProtocolEncoder::new();
    let mut decoder = ProtocolDecoder::new();

    let original_text = "Hello, ultrasonic world! 🌊";

    let frame_data = encoder.encode_text(original_text).unwrap();
    let audio_samples = encode_bytes(&plan, &frame_data);
    let decoded_frame_data = decode_bytes(&plan, &audio_samples).unwrap();
    let messages = decoder.feed_data(&decoded_frame_data);

    assert!(!messages.is_empty(), "No messages decoded");

    let decoded_text = messages[0].get_text().unwrap();
    assert_eq!(original_text, decoded_text);
}

#[test]
fn test_multiple_messages() {
    let plan = default_plan();

    let mut encoder = ProtocolEncoder::new();
    let mut decoder = ProtocolDecoder::new();

    let messages = vec![
        "First message",
        "Second message with numbers: 12345",
        "Third message with symbols: @#$%^&*()",
    ];

    let mut decoded_messages = Vec::new();

    for message in &messages {
        let frame_data = encoder.encode_text(message).unwrap();
        let samples = encode_bytes(&plan, &frame_data);
        let decoded_bytes = decode_bytes(&plan, &samples).unwrap();
        let messages_decoded = decoder.feed_data(&decoded_bytes);
        decoded_messages.extend(messages_decoded);
    }

    assert_eq!(messages.len(), decoded_messages.len(), "Message count mismatch");

    for (i, decoded_msg) in decoded_messages.iter().enumerate() {
        let decoded_text = decoded_msg.get_text().unwrap();
        assert_eq!(messages[i], decoded_text, "Message {} mismatch", i);
    }
}

#[test]
fn test_noisy_environment() {
    let plan = default_plan();

    let mut encoder = ProtocolEncoder::new();
    let mut decoder = ProtocolDecoder::new();

    let test_message = "Noise test message";
    let frame_data = encoder.encode_text(test_message).unwrap();
    let mut audio_samples = encode_bytes(&plan, &frame_data);

    let noise_level = 0.05;
    for (i, sample) in audio_samples.iter_mut().enumerate() {
        let noise = ((i as f32 * 0.1).sin() + (i as f32 * 0.17).cos()) * noise_level;
        *sample += noise;
    }

    match decode_bytes(&plan, &audio_samples) {
        Ok(bytes) => {
            let messages = decoder.feed_data(&bytes);
            if !messages.is_empty() {
                let decoded_text = messages[0].get_text().unwrap();
                if decoded_text == test_message {
                    println!("Successfully decoded despite noise: \"{}\"", decoded_text);
                } else {
                    println!(
                        "Decoded with errors: \"{}\" (expected: \"{}\")",
                        decoded_text, test_message
                    );
                }
            } else {
                println!("No messages decoded from noisy signal");
            }
        }
        Err(e) => {
            println!("Failed to decode noisy signal: {}", e.describe());
        }
    }
}

#[test]
fn test_different_message_lengths() {
    let plan = default_plan();

    let mut encoder = ProtocolEncoder::new();
    let mut decoder = ProtocolDecoder::new();

    let test_messages = vec![
        "A",
        "Hello",
        "This is a medium-length message for testing purposes.",
        "This is a very long message that contains many words and should test the system's ability to handle longer text transmissions. It includes various characters like numbers 123456789 and symbols !@#$%^&*()_+-=[]{}|;:,.<>? to ensure comprehensive testing coverage.",
    ];

    for (i, message) in test_messages.iter().enumerate() {
        let frame_data = encoder.encode_text(message).unwrap();
        let samples = encode_bytes(&plan, &frame_data);

        let decoded_bytes = decode_bytes(&plan, &samples).unwrap();
        let messages = decoder.feed_data(&decoded_bytes);

        assert!(!messages.is_empty(), "No messages decoded for test {}", i);
        let decoded_text = messages[0].get_text().unwrap();
        assert_eq!(*message, decoded_text, "Message {} length test failed", i);
    }
}

#[test]
fn test_frequency_separation() {
    let configs = vec![(17000, 19000), (18500, 19500), (19000, 21000)];

    let test_message = "Frequency test";

    for (i, (freq_0, freq_1)) in configs.iter().enumerate() {
        let plan = SymbolPlan::new(44100, *freq_0, *freq_1, 441, 88).unwrap();

        let mut encoder = ProtocolEncoder::new();
        let mut decoder = ProtocolDecoder::new();

        let frame_data = encoder.encode_text(test_message).unwrap();
        let samples = encode_bytes(&plan, &frame_data);

        let decoded_bytes = decode_bytes(&plan, &samples).unwrap();
        let messages = decoder.feed_data(&decoded_bytes);

        if !messages.is_empty() {
            let decoded_text = messages[0].get_text().unwrap();
            if decoded_text == test_message {
                println!("Frequency config {}: {}Hz/{}Hz - SUCCESS", i + 1, freq_0, freq_1);
            } else {
                println!("Frequency config {}: {}Hz/{}Hz - DECODE ERROR", i + 1, freq_0, freq_1);
            }
        } else {
            println!("Frequency config {}: {}Hz/{}Hz - NO MESSAGES", i + 1, freq_0, freq_1);
        }
    }
}

#[test]
fn test_performance_benchmarks() {
    let plan = default_plan();

    let mut encoder = ProtocolEncoder::new();
    let test_message = "Performance test message for benchmarking encoding and decoding speed.";

    let start = Instant::now();
    let frame_data = encoder.encode_text(test_message).unwrap();
    let protocol_encode_time = start.elapsed();

    let start = Instant::now();
    let samples = encode_bytes(&plan, &frame_data);
    let modulation_encode_time = start.elapsed();

    let start = Instant::now();
    let decoded_bytes = decode_bytes(&plan, &samples).unwrap();
    let modulation_decode_time = start.elapsed();

    let mut decoder = ProtocolDecoder::new();
    let start = Instant::now();
    let messages = decoder.feed_data(&decoded_bytes);
    let protocol_decode_time = start.elapsed();

    assert!(!messages.is_empty());
    let decoded_text = messages[0].get_text().unwrap();
    assert_eq!(test_message, decoded_text);

    println!("Performance benchmarks:");
    println!("  Protocol encode: {:?}", protocol_encode_time);
    println!("  Modulation encode: {:?}", modulation_encode_time);
    println!("  Modulation decode: {:?}", modulation_decode_time);
    println!("  Protocol decode: {:?}", protocol_decode_time);
    println!("  Audio duration: {:.2}s", samples.len() as f32 / 44100.0);
}

#[test]
fn test_unicode_support() {
    let plan = default_plan();

    let mut encoder = ProtocolEncoder::new();
    let mut decoder = ProtocolDecoder::new();

    let unicode_messages = vec![
        "Hello 世界",
        "Привет мир",
        "مرحبا بالعالم",
        "🌊🔊📡💻🚀",
        "Café naïve résumé",
    ];

    for (i, message) in unicode_messages.iter().enumerate() {
        let frame_data = encoder.encode_text(message).unwrap();
        let samples = encode_bytes(&plan, &frame_data);

        let decoded_bytes = decode_bytes(&plan, &samples).unwrap();
        let messages = decoder.feed_data(&decoded_bytes);

        assert!(!messages.is_empty(), "No messages decoded for Unicode test {}", i);
        assert_eq!(messages.len(), 1);
        let decoded_text = messages[0].get_text().unwrap();
        assert_eq!(*message, decoded_text, "Unicode test {} failed", i);
    }
}
