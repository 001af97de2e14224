use ush::audio::AudioConfig;
use ush::base64::encode;
use ush::cli::validate_sample_rate;
use ush::text::append_decimal;
use ush::UshError;

#[test]
fn sample_rate_limits_are_accepted() {
    assert_eq!(validate_sample_rate(8000), Ok(8000));
    assert_eq!(validate_sample_rate(192000), Ok(192000));
    assert_eq!(validate_sample_rate(44100), Ok(44100));
}

#[test]
fn sample_rate_out_of_range_is_quoted() {
    assert_eq!(
        validate_sample_rate(7999),
        Err("Sample rate 7999 Hz is outside valid range (8000-192000 Hz)".to_string())
    );
    assert_eq!(
        validate_sample_rate(192001),
        Err("Sample rate 192001 Hz is outside valid range (8000-192000 Hz)".to_string())
    );
    assert_eq!(
        validate_sample_rate(0),
        Err("Sample rate 0 Hz is outside valid range (8000-192000 Hz)".to_string())
    );
}

#[test]
fn default_audio_config_is_mono_at_44100() {
    let config = AudioConfig::default();
    assert_eq!(config.sample_rate, 44100);
    assert_eq!(config.channels, 1);
    assert_eq!(config.buffer_size, 4096);
}

#[test]
fn base64_of_known_inputs() {
    assert_eq!(encode(b""), "");
    assert_eq!(encode(b"f"), "Zg==");
    assert_eq!(encode(b"fo"), "Zm8=");
    assert_eq!(encode(b"foo"), "Zm9v");
    assert_eq!(encode(b"foob"), "Zm9vYg==");
    assert_eq!(encode(b"fooba"), "Zm9vYmE=");
    assert_eq!(encode(b"foobar"), "Zm9vYmFy");
    assert_eq!(encode(b"Hello, World!"), "SGVsbG8sIFdvcmxkIQ==");
    assert_eq!(encode(&[0xFB, 0xFF]), "+/8=");
    assert_eq!(encode(&[0x00, 0x00, 0x00]), "AAAA");
    assert_eq!(encode(&[0xFF, 0xFF, 0xFF]), "////");
}

#[test]
fn base64_takes_four_characters_for_three_bytes() {
    for len in 0..50usize {
        let data: Vec<u8> = (0..len).map(|i| (i * 37) as u8).collect();
        assert_eq!(encode(&data).len(), (len + 2) / 3 * 4);
    }
}

#[test]
fn decimal_text_has_no_leading_zero() {
    let mut text = String::from("n=");
    append_decimal(&mut text, 0);
    text.push(' ');
    append_decimal(&mut text, 10);
    text.push(' ');
    append_decimal(&mut text, u64::MAX);
    assert_eq!(text, "n=0 10 18446744073709551615");
}

#[test]
fn failures_are_described_by_kind() {
    assert_eq!(
        UshError::Protocol { message: "too long".to_string() }.describe(),
        "Protocol error: too long"
    );
    assert_eq!(
        UshError::Decoding { message: "no signal".to_string() }.describe(),
        "Decoding error: no signal"
    );
    assert_eq!(
        UshError::Encoding { message: "too big".to_string() }.describe(),
        "Encoding error: too big"
    );
    assert_eq!(
        UshError::CrcMismatch { expected: 1, actual: 4294967295 }.describe(),
        "CRC mismatch: expected 1, got 4294967295"
    );
    assert_eq!(UshError::Timeout.describe(), "Timeout waiting for signal");
    assert_eq!(
        UshError::Config { message: "bad rate".to_string() }.describe(),
        "Invalid configuration: bad rate"
    );
}
