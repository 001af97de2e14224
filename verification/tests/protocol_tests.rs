use ush::protocol::decimal::{push_decimal, scan_number};
use ush::protocol::frame::frame_body;
use ush::protocol::message::calculate_checksum;
use ush::protocol::reader::scan_message;
use ush::protocol::schema::{serialize_header, serialize_message};
use ush::protocol::{Message, MessageHeader, MessageType, ProtocolDecoder, ProtocolEncoder};
use ush::UshError;

fn sample_message() -> Message {
    Message::stamped(MessageType::Text, b"Hi".to_vec(), 7, 1_700_000_000).unwrap()
}

const SAMPLE_BODY: &str = "{\"header\":{\"version\":1,\"message_type\":\"Text\",\"sequence_number\":7,\"timestamp\":1700000000,\"payload_length\":2},\"payload\":[72,105],\"checksum\":3970002705}";

#[test]
fn test_message_creation_and_verification() {
    let msg = Message::new_text("Hello, World!", 42).unwrap();
    assert!(msg.verify_checksum().unwrap());
    assert_eq!(msg.get_text().unwrap(), "Hello, World!");
    assert_eq!(msg.header.sequence_number, 42);
}

#[test]
fn protocol_test_encode_decode_roundtrip() {
    let mut encoder = ProtocolEncoder::new();
    let mut decoder = ProtocolDecoder::new();

    let original_text = "Test message";
    let encoded = encoder.encode_text(original_text).unwrap();
    let messages = decoder.feed_data(&encoded);

    assert_eq!(messages.len(), 1);
    assert_eq!(messages[0].get_text().unwrap(), original_text);
}

#[test]
fn test_checksum_verification() {
    let mut msg = Message::new_text("Test", 1).unwrap();
    assert!(msg.verify_checksum().unwrap());

    // Corrupt the message
    msg.payload[0] = msg.payload[0].wrapping_add(1);
    assert!(!msg.verify_checksum().unwrap());
}

#[test]
fn test_decoder_with_partial_data() {
    let mut encoder = ProtocolEncoder::new();
    let mut decoder = ProtocolDecoder::new();

    let encoded = encoder.encode_text("Test").unwrap();

    // Feed data in chunks
    let chunk_size = 5;
    let mut total_messages = Vec::new();

    for chunk in encoded.chunks(chunk_size) {
        let mut messages = decoder.feed_data(chunk);
        total_messages.append(&mut messages);
    }

    assert_eq!(total_messages.len(), 1);
    assert_eq!(total_messages[0].get_text().unwrap(), "Test");
}

#[test]
fn test_protocol_corruption_recovery() {
    let mut encoder = ProtocolEncoder::new();
    let mut decoder = ProtocolDecoder::new();

    let test_message = "Corruption test message";
    let mut frame_data = encoder.encode_text(test_message).unwrap();

    // Corrupt some bytes in the middle
    if frame_data.len() > 10 {
        let mid_idx = frame_data.len() / 2;
        frame_data[mid_idx] = 0xFF;
        frame_data[mid_idx + 1] = 0x00;
    }

    let messages = decoder.feed_data(&frame_data);

    if messages.is_empty() {
        println!("Correctly rejected corrupted message");
    } else {
        for message in messages {
            if let Ok(is_valid) = message.verify_checksum() {
                if !is_valid {
                    println!("Checksum validation caught corruption");
                } else {
                    println!("Corrupted message passed checksum validation");
                }
            }
        }
    }
}

#[test]
fn text_message_has_the_fields_of_its_kind() {
    let msg = Message::new_text("Hello, World!", 42).unwrap();
    assert_eq!(msg.header.version, 1);
    assert_eq!(msg.header.message_type, MessageType::Text);
    assert_eq!(msg.header.payload_length, 13);
    assert_eq!(msg.payload, b"Hello, World!".to_vec());
    assert!(msg.header.timestamp > 1_600_000_000);
}

#[test]
fn text_of_1024_bytes_is_accepted() {
    let text = "a".repeat(1024);
    let msg = Message::new_text(&text, 0).unwrap();
    assert_eq!(msg.header.payload_length, 1024);
    assert_eq!(msg.get_text().unwrap(), text);
}

#[test]
fn text_of_1025_bytes_is_a_protocol_failure() {
    let text = "a".repeat(1025);
    match Message::new_text(&text, 0) {
        Err(UshError::Protocol { message }) => {
            assert_eq!(message, "Message too long: 1025 bytes (max: 1024)");
        }
        other => panic!("expected a protocol failure, got {:?}", other),
    }
}

#[test]
fn text_length_counts_bytes_not_characters() {
    // 342 characters of three bytes each are 1026 bytes.
    let text = "世".repeat(342);
    assert!(matches!(Message::new_text(&text, 0), Err(UshError::Protocol { .. })));
    let text = "世".repeat(341);
    assert!(Message::new_text(&text, 0).is_ok());
}

#[test]
fn ack_carries_nothing() {
    let msg = Message::new_ack(9).unwrap();
    assert_eq!(msg.header.message_type, MessageType::Ack);
    assert_eq!(msg.header.sequence_number, 9);
    assert_eq!(msg.header.payload_length, 0);
    assert!(msg.payload.is_empty());
    assert!(msg.verify_checksum().unwrap());
}

#[test]
fn ping_carries_the_word_ping() {
    let msg = Message::new_ping(3).unwrap();
    assert_eq!(msg.header.message_type, MessageType::Ping);
    assert_eq!(msg.header.sequence_number, 3);
    assert_eq!(msg.header.payload_length, 4);
    assert_eq!(msg.payload, b"ping".to_vec());
    assert!(msg.verify_checksum().unwrap());
}

#[test]
fn text_of_another_kind_is_a_protocol_failure() {
    let msg = Message::new_ping(3).unwrap();
    match msg.get_text() {
        Err(UshError::Protocol { message }) => {
            assert_eq!(message, "Message is not a text message");
        }
        other => panic!("expected a protocol failure, got {:?}", other),
    }
}

#[test]
fn text_that_is_not_utf8_is_a_protocol_failure() {
    let msg = Message::stamped(MessageType::Text, vec![0xFF, 0xFE], 0, 0).unwrap();
    match msg.get_text() {
        Err(UshError::Protocol { message }) => {
            assert_eq!(message, "Invalid UTF-8 in text message");
        }
        other => panic!("expected a protocol failure, got {:?}", other),
    }
}

#[test]
fn unicode_text_comes_back() {
    let msg = Message::new_text("Hello 世界 🌊", 0).unwrap();
    assert_eq!(msg.get_text().unwrap(), "Hello 世界 🌊");
}

#[test]
fn stamped_refuses_a_payload_over_the_limit() {
    let res = Message::stamped(MessageType::File, vec![0u8; 1025], 0, 0);
    assert!(matches!(res, Err(UshError::Protocol { .. })));
    let res = Message::stamped(MessageType::File, vec![0u8; 1024], 0, 0);
    assert!(res.is_ok());
}

#[test]
fn stamped_by_clock_needs_a_time() {
    let res = Message::stamped_by_clock(MessageType::Ack, Vec::new(), 0, None);
    match res {
        Err(UshError::Config { message }) => {
            assert_eq!(message, "System clock is before the Unix epoch");
        }
        other => panic!("expected a configuration failure, got {:?}", other),
    }
    let msg = Message::stamped_by_clock(MessageType::Ack, Vec::new(), 5, Some(17)).unwrap();
    assert_eq!(msg.header.timestamp, 17);
    assert_eq!(msg.header.sequence_number, 5);
}

#[test]
fn header_is_serialized_as_compact_json() {
    let msg = sample_message();
    let bytes = serialize_header(&msg.header);
    assert_eq!(
        String::from_utf8(bytes).unwrap(),
        "{\"version\":1,\"message_type\":\"Text\",\"sequence_number\":7,\"timestamp\":1700000000,\"payload_length\":2}"
    );
}

#[test]
fn checksum_is_the_crc32_of_header_and_payload() {
    let msg = sample_message();
    assert_eq!(msg.checksum, 3970002705);
    assert_eq!(calculate_checksum(&msg.header, &msg.payload), 3970002705);

    let ack = Message::stamped(MessageType::Ack, Vec::new(), 0, 0).unwrap();
    assert_eq!(ack.checksum, 2348742202);

    let ping = Message::stamped(MessageType::Ping, b"ping".to_vec(), u32::MAX, u64::MAX).unwrap();
    assert_eq!(ping.checksum, 2529251287);
}

#[test]
fn checksum_agrees_with_the_crc_crate_on_the_covered_bytes() {
    let msg = sample_message();
    let mut covered = serialize_header(&msg.header);
    covered.extend_from_slice(&msg.payload);
    let crc = crc::Crc::<u32>::new(&crc::CRC_32_ISO_HDLC);
    assert_eq!(msg.checksum, crc.checksum(&covered));
    assert_eq!(crc.checksum(b"123456789"), 0xCBF43926);
}

#[test]
fn message_is_serialized_as_compact_json() {
    let msg = sample_message();
    let bytes = serialize_message(&msg);
    assert_eq!(String::from_utf8(bytes).unwrap(), SAMPLE_BODY);
}

#[test]
fn serialized_message_is_json_with_the_named_fields() {
    let msg = Message::stamped(MessageType::File, vec![0, 9, 10, 99, 100, 255], 65536, 12).unwrap();
    let bytes = serialize_message(&msg);
    let value: serde_json::Value = serde_json::from_slice(&bytes).unwrap();
    assert_eq!(value["header"]["version"].as_u64(), Some(1));
    assert_eq!(value["header"]["message_type"].as_str(), Some("File"));
    assert_eq!(value["header"]["sequence_number"].as_u64(), Some(65536));
    assert_eq!(value["header"]["timestamp"].as_u64(), Some(12));
    assert_eq!(value["header"]["payload_length"].as_u64(), Some(6));
    let payload: Vec<u64> =
        value["payload"].as_array().unwrap().iter().map(|v| v.as_u64().unwrap()).collect();
    assert_eq!(payload, vec![0, 9, 10, 99, 100, 255]);
    assert_eq!(value["checksum"].as_u64(), Some(msg.checksum as u64));
}

#[test]
fn empty_payload_is_an_empty_list() {
    let msg = Message::stamped(MessageType::Ack, Vec::new(), 0, 0).unwrap();
    let text = String::from_utf8(serialize_message(&msg)).unwrap();
    assert!(text.contains(",\"payload\":[],\"checksum\":"));
}

#[test]
fn serialized_message_is_read_back() {
    for kind in [MessageType::Text, MessageType::File, MessageType::Ack, MessageType::Ping] {
        for payload in [vec![], vec![0u8], vec![255u8], vec![1, 20, 255, 0, 7]] {
            let msg = Message::stamped(kind, payload.clone(), 4_000_000_000, u64::MAX).unwrap();
            let back = scan_message(&serialize_message(&msg)).unwrap();
            assert_eq!(back.header, msg.header);
            assert_eq!(back.payload, payload);
            assert_eq!(back.checksum, msg.checksum);
        }
    }
}

#[test]
fn only_the_canonical_form_is_read() {
    assert!(scan_message(SAMPLE_BODY.as_bytes()).is_some());
    let spaced = SAMPLE_BODY.replace(",\"payload\"", ", \"payload\"");
    assert!(scan_message(spaced.as_bytes()).is_none());
    let leading_zero = SAMPLE_BODY.replace("\"version\":1", "\"version\":01");
    assert!(scan_message(leading_zero.as_bytes()).is_none());
    let version_too_large = SAMPLE_BODY.replace("\"version\":1", "\"version\":256");
    assert!(scan_message(version_too_large.as_bytes()).is_none());
    let byte_too_large = SAMPLE_BODY.replace("[72,105]", "[72,256]");
    assert!(scan_message(byte_too_large.as_bytes()).is_none());
    let unknown_kind = SAMPLE_BODY.replace("\"Text\"", "\"Talk\"");
    assert!(scan_message(unknown_kind.as_bytes()).is_none());
    let trailing = format!("{} ", SAMPLE_BODY);
    assert!(scan_message(trailing.as_bytes()).is_none());
    let cut = &SAMPLE_BODY[..SAMPLE_BODY.len() - 1];
    assert!(scan_message(cut.as_bytes()).is_none());
    assert!(scan_message(b"").is_none());
    let dangling_comma = SAMPLE_BODY.replace("[72,105]", "[72,105,]");
    assert!(scan_message(dangling_comma.as_bytes()).is_none());
}

#[test]
fn numbers_are_written_in_decimal() {
    let mut out = vec![b'x'];
    push_decimal(&mut out, 0);
    push_decimal(&mut out, 7);
    push_decimal(&mut out, 1024);
    push_decimal(&mut out, u64::MAX);
    assert_eq!(String::from_utf8(out).unwrap(), "x07102418446744073709551615");
}

#[test]
fn numbers_are_read_in_canonical_decimal_only() {
    assert_eq!(scan_number(b"0,", 0, 255), Some((0, 1)));
    assert_eq!(scan_number(b"ab255}", 2, 255), Some((255, 5)));
    assert_eq!(scan_number(b"256", 0, 255), None);
    assert_eq!(scan_number(b"007", 0, 255), None);
    assert_eq!(scan_number(b"", 0, 255), None);
    assert_eq!(scan_number(b"x", 0, 255), None);
    assert_eq!(scan_number(b"12", 5, 255), None);
    assert_eq!(scan_number(b"18446744073709551615", 0, u64::MAX), Some((u64::MAX, 20)));
    assert_eq!(scan_number(b"18446744073709551616", 0, u64::MAX), None);
    assert_eq!(scan_number(b"184467440737095516150", 0, u64::MAX), None);
}

#[test]
fn frame_has_preamble_delimiters_and_big_endian_length() {
    let body = vec![1u8; 300];
    let framed = frame_body(&body);
    assert_eq!(framed.len(), 314);
    assert_eq!(&framed[..8], &[0xAA; 8]);
    assert_eq!(&framed[8..10], &[0x7E, 0x7E]);
    assert_eq!(&framed[10..12], &[0x01, 0x2C]);
    assert_eq!(&framed[12..312], &body[..]);
    assert_eq!(&framed[312..], &[0x7E, 0x7E]);
}

#[test]
fn encoded_message_is_the_frame_around_its_serialized_form() {
    let mut encoder = ProtocolEncoder::new();
    let framed = encoder.encode_message(&sample_message()).unwrap();
    let mut expected = vec![0xAA; 8];
    expected.extend_from_slice(&[0x7E, 0x7E, 0x00, 149]);
    expected.extend_from_slice(SAMPLE_BODY.as_bytes());
    expected.extend_from_slice(&[0x7E, 0x7E]);
    assert_eq!(framed, expected);
}

#[test]
fn encode_message_leaves_the_counter() {
    let mut encoder = ProtocolEncoder::new();
    assert_eq!(encoder.get_next_sequence_number(), 0);
    encoder.encode_message(&sample_message()).unwrap();
    assert_eq!(encoder.get_next_sequence_number(), 0);
}

#[test]
fn encode_text_counts_the_texts() {
    let mut encoder = ProtocolEncoder::new();
    let mut decoder = ProtocolDecoder::new();
    for expected in 0..3u32 {
        assert_eq!(encoder.get_next_sequence_number(), expected);
        let framed = encoder.encode_text("x").unwrap();
        let messages = decoder.feed_data(&framed);
        assert_eq!(messages.len(), 1);
        assert_eq!(messages[0].header.sequence_number, expected);
    }
    assert_eq!(encoder.get_next_sequence_number(), 3);
}

#[test]
fn refused_text_leaves_the_counter() {
    let mut encoder = ProtocolEncoder::new();
    encoder.encode_text("x").unwrap();
    let res = encoder.encode_text(&"a".repeat(1025));
    assert!(matches!(res, Err(UshError::Protocol { .. })));
    assert_eq!(encoder.get_next_sequence_number(), 1);
}

#[test]
fn message_too_long_for_the_length_field_is_an_encoding_failure() {
    let long = Message {
        header: MessageHeader {
            version: 1,
            message_type: MessageType::File,
            sequence_number: 0,
            timestamp: 0,
            payload_length: 0,
        },
        payload: vec![200u8; 20000],
        checksum: 0,
    };
    let mut encoder = ProtocolEncoder::new();
    match encoder.encode_message(&long) {
        Err(UshError::Encoding { message }) => {
            assert_eq!(message, "Serialized message too long for a frame: 80124 bytes (max: 65535)");
        }
        other => panic!("expected an encoding failure, got {:?}", other),
    }
}

#[test]
fn default_encoder_and_decoder_are_new() {
    let encoder = ProtocolEncoder::default();
    assert_eq!(encoder.get_next_sequence_number(), 0);
    let mut decoder = ProtocolDecoder::default();
    assert!(decoder.feed_data(&[]).is_empty());
}

#[test]
fn messages_from_the_factories_keep_the_schema() {
    assert!(Message::new_text("Hello", 1).unwrap().is_well_formed());
    assert!(Message::new_text("", 1).unwrap().is_well_formed());
    assert!(Message::new_text(&"a".repeat(1024), 1).unwrap().is_well_formed());
    assert!(Message::new_ack(2).unwrap().is_well_formed());
    assert!(Message::new_ping(3).unwrap().is_well_formed());
    assert!(sample_message().is_well_formed());
}

#[test]
fn message_that_breaks_a_rule_does_not_keep_the_schema() {
    // A wrong checksum.
    let mut message = sample_message();
    message.checksum = message.checksum.wrapping_add(1);
    assert!(!message.is_well_formed());

    // A header that gives another length, under the right checksum.
    let mut message = sample_message();
    message.header.payload_length = 3;
    message.checksum = calculate_checksum(&message.header, &message.payload);
    assert!(message.verify_checksum().unwrap());
    assert!(!message.is_well_formed());

    // A payload over the limit, under the right length and checksum.
    let header = MessageHeader {
        version: 1,
        message_type: MessageType::File,
        sequence_number: 0,
        timestamp: 0,
        payload_length: 1025,
    };
    let payload = vec![7u8; 1025];
    let checksum = calculate_checksum(&header, &payload);
    let message = Message { header, payload, checksum };
    assert!(message.verify_checksum().unwrap());
    assert!(!message.is_well_formed());

    // The limit itself is within the schema.
    let header = MessageHeader { payload_length: 1024, ..header };
    let payload = vec![7u8; 1024];
    let checksum = calculate_checksum(&header, &payload);
    assert!(Message { header, payload, checksum }.is_well_formed());
}
