use ush::protocol::frame::frame_body;
use ush::protocol::message::calculate_checksum;
use ush::protocol::schema::serialize_message;
use ush::protocol::{Message, MessageHeader, MessageType, ProtocolDecoder, ProtocolEncoder};

fn framed(text: &str, sequence_number: u32) -> Vec<u8> {
    let message =
        Message::stamped(MessageType::Text, text.as_bytes().to_vec(), sequence_number, 1_700_000_000)
            .unwrap();
    let mut encoder = ProtocolEncoder::new();
    encoder.encode_message(&message).unwrap()
}

#[test]
fn fresh_decoder_finds_no_preamble() {
    let decoder = ProtocolDecoder::new();
    assert_eq!(decoder.find_preamble(), None);
}

#[test]
fn one_frame_gives_one_message() {
    let mut decoder = ProtocolDecoder::new();
    let messages = decoder.feed_data(&framed("Hello", 5));
    assert_eq!(messages.len(), 1);
    assert_eq!(messages[0].get_text().unwrap(), "Hello");
    assert_eq!(messages[0].header.sequence_number, 5);
    assert_eq!(messages[0].header.timestamp, 1_700_000_000);
    // Nothing is left behind: no preamble, and the next frame decodes.
    assert_eq!(decoder.find_preamble(), None);
    assert_eq!(decoder.feed_data(&framed("again", 6)).len(), 1);
}

#[test]
fn three_frames_in_one_buffer_give_three_messages_in_order() {
    let mut encoder = ProtocolEncoder::new();
    let mut buffer = Vec::new();
    let texts = ["First message", "Second message with numbers: 12345", "Third message"];
    for text in texts {
        buffer.extend_from_slice(&encoder.encode_text(text).unwrap());
    }
    let mut decoder = ProtocolDecoder::new();
    let messages = decoder.feed_data(&buffer);
    assert_eq!(messages.len(), 3);
    for (i, message) in messages.iter().enumerate() {
        assert_eq!(message.get_text().unwrap(), texts[i]);
        assert_eq!(message.header.sequence_number, i as u32);
    }
}

#[test]
fn five_byte_chunks_give_the_message_after_the_last_chunk() {
    let data = framed("Test", 0);
    let mut decoder = ProtocolDecoder::new();
    let chunks: Vec<&[u8]> = data.chunks(5).collect();
    for (i, chunk) in chunks.iter().enumerate() {
        let messages = decoder.feed_data(chunk);
        // The body ends two bytes before the frame does.
        let fed = (i + 1) * 5;
        if fed >= data.len() - 2 && fed - 5 < data.len() - 2 {
            assert_eq!(messages.len(), 1);
            assert_eq!(messages[0].get_text().unwrap(), "Test");
        } else {
            assert!(messages.is_empty());
        }
    }
}

#[test]
fn every_cut_in_two_gives_the_message_once() {
    let data = framed("cut", 1);
    for cut in 0..=data.len() {
        let mut decoder = ProtocolDecoder::new();
        let mut messages = decoder.feed_data(&data[..cut]);
        messages.append(&mut decoder.feed_data(&data[cut..]));
        assert_eq!(messages.len(), 1, "cut at {}", cut);
        assert_eq!(messages[0].get_text().unwrap(), "cut");
    }
}

#[test]
fn byte_by_byte_gives_the_message_once() {
    let data = framed("one by one", 1);
    let mut decoder = ProtocolDecoder::new();
    let mut messages = Vec::new();
    for byte in &data {
        messages.append(&mut decoder.feed_data(&[*byte]));
    }
    assert_eq!(messages.len(), 1);
    assert_eq!(messages[0].get_text().unwrap(), "one by one");
}

#[test]
fn flipped_payload_byte_gives_no_message() {
    let mut data = framed("Corruption test message", 0);
    let body = String::from_utf8(data[12..data.len() - 2].to_vec()).unwrap();
    // The first digit of the first payload byte: 'C' is 67, and becomes 77.
    let at = 12 + body.find("\"payload\":[").unwrap() + "\"payload\":[".len();
    assert_eq!(data[at], b'6');
    data[at] = b'7';
    let mut decoder = ProtocolDecoder::new();
    assert!(decoder.feed_data(&data).is_empty());
    // The decoder goes on: the next frame is delivered.
    let messages = decoder.feed_data(&framed("next", 1));
    assert_eq!(messages.len(), 1);
    assert_eq!(messages[0].get_text().unwrap(), "next");
}

#[test]
fn flipped_header_byte_gives_no_message() {
    let mut data = framed("Corruption test message", 3);
    let body = String::from_utf8(data[12..data.len() - 2].to_vec()).unwrap();
    let at = 12 + body.find("\"sequence_number\":").unwrap() + "\"sequence_number\":".len();
    assert_eq!(data[at], b'3');
    data[at] = b'4';
    let mut decoder = ProtocolDecoder::new();
    assert!(decoder.feed_data(&data).is_empty());
}

#[test]
fn body_that_is_no_message_is_dropped() {
    let data = frame_body(b"{\"not\":\"a message\"}");
    let mut decoder = ProtocolDecoder::new();
    assert!(decoder.feed_data(&data).is_empty());
    assert_eq!(decoder.feed_data(&framed("after", 0)).len(), 1);
}

#[test]
fn bytes_without_a_preamble_before_a_frame_are_passed_over() {
    let data = framed("resync", 2);
    for junk in [
        vec![],
        vec![0x00],
        vec![0x7E, 0x7E],
        vec![1, 2, 3, 4, 5, 6, 7, 8, 9, 10, 11, 12],
        vec![0xAA],
        vec![0x55, 0xAA, 0xAA, 0xAA],
        vec![0xAA; 7],
        vec![0xAA, 0xAA, 0xAA, 0x00, 0xAA, 0xAA, 0xAA, 0xAA, 0xAA, 0xAA, 0xAA],
    ] {
        let mut buffer = junk.clone();
        buffer.extend_from_slice(&data);
        let mut decoder = ProtocolDecoder::new();
        let messages = decoder.feed_data(&buffer);
        assert_eq!(messages.len(), 1, "junk {:?}", junk);
        assert_eq!(messages[0].get_text().unwrap(), "resync");
    }
}

#[test]
fn missing_end_delimiter_is_tolerated() {
    let data = framed("open end", 0);
    let mut decoder = ProtocolDecoder::new();
    let messages = decoder.feed_data(&data[..data.len() - 2]);
    assert_eq!(messages.len(), 1);
    assert_eq!(messages[0].get_text().unwrap(), "open end");

    let mut wrong_end = data[..data.len() - 2].to_vec();
    wrong_end.extend_from_slice(&[0x00, 0x00]);
    wrong_end.extend_from_slice(&framed("next", 1));
    let mut decoder = ProtocolDecoder::new();
    let messages = decoder.feed_data(&wrong_end);
    assert_eq!(messages.len(), 2);
    assert_eq!(messages[1].get_text().unwrap(), "next");
}

#[test]
fn preamble_without_start_delimiter_is_passed_over() {
    let mut buffer = vec![0xAA; 8];
    buffer.extend_from_slice(&[0x00, 0x00]);
    buffer.extend_from_slice(&framed("real", 0));
    let mut decoder = ProtocolDecoder::new();
    let messages = decoder.feed_data(&buffer);
    assert_eq!(messages.len(), 1);
    assert_eq!(messages[0].get_text().unwrap(), "real");
}

#[test]
fn length_over_2048_is_taken_for_noise() {
    let mut buffer = vec![0xAA; 8];
    buffer.extend_from_slice(&[0x7E, 0x7E, 0x08, 0x01]);
    buffer.extend_from_slice(&framed("real", 0));
    let mut decoder = ProtocolDecoder::new();
    let messages = decoder.feed_data(&buffer);
    assert_eq!(messages.len(), 1);
    assert_eq!(messages[0].get_text().unwrap(), "real");
}

#[test]
fn body_of_2048_bytes_is_read_and_a_longer_one_is_not() {
    // 'a' takes three bytes in the list ("97,"), so 640 of them make a body
    // of about 2050 bytes and 630 of them one of about 2020.
    let short = Message::stamped(MessageType::Text, vec![b'a'; 630], 0, 0).unwrap();
    assert!(serialize_message(&short).len() <= 2048);
    let long = Message::stamped(MessageType::Text, vec![b'a'; 640], 0, 0).unwrap();
    assert!(serialize_message(&long).len() > 2048);

    let mut encoder = ProtocolEncoder::new();
    let mut decoder = ProtocolDecoder::new();
    assert_eq!(decoder.feed_data(&encoder.encode_message(&short).unwrap()).len(), 1);
    let mut decoder = ProtocolDecoder::new();
    assert_eq!(decoder.feed_data(&encoder.encode_message(&long).unwrap()).len(), 0);
}

#[test]
fn reset_forgets_a_frame_half_read() {
    let data = framed("forgotten", 0);
    let mut decoder = ProtocolDecoder::new();
    assert!(decoder.feed_data(&data[..20]).is_empty());
    decoder.reset();
    assert!(decoder.feed_data(&data[20..]).is_empty());
    assert_eq!(decoder.feed_data(&data).len(), 1);
}

#[test]
fn buffer_over_10000_bytes_is_cut_to_its_newest_5000() {
    let mut decoder = ProtocolDecoder::new();
    // A preamble right at the start, then noise: the decoder locks on, reads
    // a length, and waits.
    let mut data = vec![0xAA; 8];
    data.extend_from_slice(&[0x7E, 0x7E, 0x07, 0xFF]);
    assert!(decoder.feed_data(&data).is_empty());
    // More than the limit without a preamble; the body of 2047 bytes is
    // read and is no message, the rest stays.
    assert!(decoder.feed_data(&vec![0x11; 13000]).is_empty());
    // What stays holds no preamble, and the decoder waits for one again.
    assert_eq!(decoder.find_preamble(), None);
    let messages = decoder.feed_data(&framed("after the flood", 0));
    assert_eq!(messages.len(), 1);
    assert_eq!(messages[0].get_text().unwrap(), "after the flood");
}

#[test]
fn find_preamble_gives_the_first_place() {
    let mut decoder = ProtocolDecoder::new();
    let mut data = vec![0x01, 0xAA, 0xAA, 0x02];
    data.extend_from_slice(&[0xAA; 9]);
    assert!(decoder.feed_data(&data).is_empty());
    // The decoder has moved to the preamble and waits for the delimiter.
    assert_eq!(decoder.find_preamble(), Some(0));
}

#[test]
fn messages_of_every_kind_are_delivered() {
    let mut encoder = ProtocolEncoder::new();
    let mut decoder = ProtocolDecoder::new();
    let ack = Message::new_ack(1).unwrap();
    let ping = Message::new_ping(2).unwrap();
    let file = Message::stamped(MessageType::File, vec![0, 1, 2, 255], 3, 4).unwrap();
    let mut buffer = encoder.encode_message(&ack).unwrap();
    buffer.extend_from_slice(&encoder.encode_message(&ping).unwrap());
    buffer.extend_from_slice(&encoder.encode_message(&file).unwrap());
    let messages = decoder.feed_data(&buffer);
    assert_eq!(messages.len(), 3);
    assert_eq!(messages[0].header.message_type, MessageType::Ack);
    assert_eq!(messages[1].header.message_type, MessageType::Ping);
    assert_eq!(messages[1].payload, b"ping".to_vec());
    assert_eq!(messages[2].header.message_type, MessageType::File);
    assert_eq!(messages[2].payload, vec![0, 1, 2, 255]);
}

#[test]
fn message_whose_header_gives_another_length_is_dropped() {
    // The checksum is the right one for this header and this payload, and
    // yet the header says five bytes where there are none.
    let header = MessageHeader {
        version: 1,
        message_type: MessageType::Text,
        sequence_number: 0,
        timestamp: 0,
        payload_length: 5,
    };
    let checksum = calculate_checksum(&header, &[]);
    let message = Message { header, payload: Vec::new(), checksum };
    assert!(message.verify_checksum().unwrap());
    assert!(!message.is_well_formed());

    let mut encoder = ProtocolEncoder::new();
    let data = encoder.encode_message(&message).unwrap();
    let mut decoder = ProtocolDecoder::new();
    assert!(decoder.feed_data(&data).is_empty());
    // Nothing is left behind, and the next frame is delivered.
    assert_eq!(decoder.find_preamble(), None);
    let messages = decoder.feed_data(&framed("next", 1));
    assert_eq!(messages.len(), 1);
    assert_eq!(messages[0].get_text().unwrap(), "next");
}

#[test]
fn message_with_fewer_bytes_than_its_header_says_is_dropped() {
    let header = MessageHeader {
        version: 1,
        message_type: MessageType::File,
        sequence_number: 9,
        timestamp: 3,
        payload_length: 4,
    };
    let payload = vec![1u8, 2, 3];
    let checksum = calculate_checksum(&header, &payload);
    let message = Message { header, payload, checksum };
    let mut encoder = ProtocolEncoder::new();
    let data = encoder.encode_message(&message).unwrap();
    let mut decoder = ProtocolDecoder::new();
    assert!(decoder.feed_data(&data).is_empty());
}

#[test]
fn every_message_handed_out_keeps_the_schema() {
    let mut encoder = ProtocolEncoder::new();
    let mut buffer = vec![0xAA, 0x00, 0x7E];
    buffer.extend_from_slice(&encoder.encode_text("one").unwrap());
    buffer.extend_from_slice(&frame_body(b"noise"));
    buffer.extend_from_slice(&encoder.encode_message(&Message::new_ping(4).unwrap()).unwrap());
    let mut decoder = ProtocolDecoder::new();
    let messages = decoder.feed_data(&buffer);
    assert_eq!(messages.len(), 2);
    for message in &messages {
        assert!(message.is_well_formed());
        assert_eq!(message.payload.len(), message.header.payload_length as usize);
        assert!(message.payload.len() <= 1024);
        assert!(message.verify_checksum().unwrap());
    }
}

#[test]
fn text_comes_back_once_or_its_frame_is_too_long() {
    for len in [0usize, 1, 100, 400, 600, 700, 1024] {
        let text = "a".repeat(len);
        let mut encoder = ProtocolEncoder::new();
        let data = encoder.encode_text(&text).unwrap();
        let body_length = data.len() - 14;
        let mut decoder = ProtocolDecoder::new();
        let messages = decoder.feed_data(&data);
        if body_length <= 2048 {
            assert_eq!(messages.len(), 1, "text of {} bytes", len);
            assert_eq!(messages[0].get_text().unwrap(), text);
        } else {
            assert!(messages.is_empty(), "text of {} bytes", len);
            // The decoder has passed over the frame: the next one decodes.
            assert_eq!(decoder.feed_data(&framed("next", 1)).len(), 1);
        }
    }
}
