use dns_codec::{
    build_query, decode_name, encode_name, parse_response, split_labels, DnsError, DnsHeader,
    DnsQuestion, DnsRecord,
};

fn example_labels() -> Vec<Vec<u8>> {
    vec![b"example".to_vec(), b"com".to_vec()]
}

fn example_query() -> Vec<u8> {
    vec![
        0xFF, 0xFF, 0x01, 0x00, 0x00, 0x01, 0x00, 0x00, 0x00, 0x00, 0x00, 0x00, 0x07, 0x65, 0x78,
        0x61, 0x6D, 0x70, 0x6C, 0x65, 0x03, 0x63, 0x6F, 0x6D, 0x00, 0x00, 0x01, 0x00, 0x01,
    ]
}

/// A response to the example query: counts {1, 1, 0, 0}, the example.com
/// question, and one A record whose name points at offset 12.
fn example_response() -> Vec<u8> {
    let mut buf = vec![
        0xFF, 0xFF, 0x81, 0x80, 0x00, 0x01, 0x00, 0x01, 0x00, 0x00, 0x00, 0x00,
    ];
    buf.extend_from_slice(&[
        0x07, b'e', b'x', b'a', b'm', b'p', b'l', b'e', 0x03, b'c', b'o', b'm', 0x00, 0x00, 0x01,
        0x00, 0x01,
    ]);
    buf.extend_from_slice(&[
        0xC0, 0x0C, 0x00, 0x01, 0x00, 0x01, 0x00, 0x00, 0x0E, 0x10, 0x00, 0x04, 93, 184, 216, 34,
    ]);
    buf
}

#[test]
fn build_query_matches_reference_encoding() {
    assert_eq!(build_query("example.com", 65535).unwrap(), example_query());
}

#[test]
fn build_query_uses_given_id() {
    let q = build_query("example.com", 0x1234).unwrap();
    assert_eq!(&q[..2], &[0x12, 0x34]);
    assert_eq!(&q[2..], &example_query()[2..]);
}

#[test]
fn build_query_rejects_long_label() {
    let name = format!("{}.com", "a".repeat(64));
    assert_eq!(build_query(&name, 1), Err(DnsError::LabelTooLong));
}

#[test]
fn header_round_trip() {
    let h = DnsHeader {
        id: 0xBEEF,
        flags: 0x8180,
        num_questions: 1,
        num_answers: 2,
        num_authorities: 3,
        num_additionals: 0xFFFF,
    };
    let bytes = h.as_bytes();
    assert_eq!(
        bytes,
        vec![0xBE, 0xEF, 0x81, 0x80, 0x00, 0x01, 0x00, 0x02, 0x00, 0x03, 0xFF, 0xFF]
    );
    assert_eq!(DnsHeader::parse(&bytes), Ok(h));
}

#[test]
fn header_parse_truncated() {
    assert_eq!(DnsHeader::parse(&[0u8; 11]), Err(DnsError::TruncatedMessage));
    assert_eq!(DnsHeader::parse(&[]), Err(DnsError::TruncatedMessage));
}

#[test]
fn encode_name_example() {
    assert_eq!(encode_name("example.com").unwrap(), example_query()[12..25].to_vec());
}

#[test]
fn encode_name_skips_empty_segments() {
    assert_eq!(encode_name("example.com.").unwrap(), encode_name("example.com").unwrap());
    assert_eq!(encode_name("").unwrap(), vec![0]);
    assert_eq!(encode_name("..").unwrap(), vec![0]);
    assert_eq!(split_labels("a..b"), vec![b"a".to_vec(), b"b".to_vec()]);
}

#[test]
fn encode_name_label_limits() {
    let ok = "b".repeat(63);
    let wire = encode_name(&ok).unwrap();
    assert_eq!(wire.len(), 65);
    assert_eq!(wire[0], 63);
    let too_long = "b".repeat(64);
    assert_eq!(encode_name(&too_long), Err(DnsError::LabelTooLong));
}

#[test]
fn name_round_trip() {
    for name in ["example.com", "a.b.c.d", "x", "", "www.Example.ORG"] {
        let wire = encode_name(name).unwrap();
        let (labels, end) = decode_name(&wire, 0).unwrap();
        assert_eq!(labels, split_labels(name));
        assert_eq!(end, wire.len());
    }
    let long = format!("{}.{}", "c".repeat(63), "d".repeat(1));
    let wire = encode_name(&long).unwrap();
    assert_eq!(decode_name(&wire, 0).unwrap().0, split_labels(&long));
}

#[test]
fn decode_name_in_middle_of_buffer() {
    let mut buf = vec![9, 9, 9];
    buf.extend_from_slice(&encode_name("example.com").unwrap());
    buf.extend_from_slice(&[1, 2, 3]);
    assert_eq!(decode_name(&buf, 3), Ok((example_labels(), 16)));
}

#[test]
fn compression_pointer_gives_question_name() {
    let buf = example_response();
    let (question_name, _) = decode_name(&buf, 12).unwrap();
    let (record_name, end) = decode_name(&buf, 29).unwrap();
    assert_eq!(record_name, question_name);
    assert_eq!(record_name, example_labels());
    assert_eq!(end, 31);
}

#[test]
fn pointer_after_labels() {
    // "www" then a pointer to "example.com" at offset 0.
    let mut buf = encode_name("example.com").unwrap();
    buf.extend_from_slice(&[3, b'w', b'w', b'w', 0xC0, 0x00]);
    let (labels, end) = decode_name(&buf, 13).unwrap();
    assert_eq!(labels, vec![b"www".to_vec(), b"example".to_vec(), b"com".to_vec()]);
    assert_eq!(end, 19);
}

#[test]
fn pointer_chain() {
    // offset 0: "com"; offset 5: "example" + pointer to 0; offset 15: pointer to 5.
    let mut buf = encode_name("com").unwrap();
    buf.extend_from_slice(&[7, b'e', b'x', b'a', b'm', b'p', b'l', b'e', 0xC0, 0x00]);
    buf.extend_from_slice(&[0xC0, 0x05]);
    assert_eq!(decode_name(&buf, 15), Ok((example_labels(), 17)));
}

#[test]
fn pointer_to_itself_is_a_loop() {
    let buf = vec![0, 0, 0, 0, 0xC0, 0x04];
    assert_eq!(decode_name(&buf, 4), Err(DnsError::CompressionLoop));
}

#[test]
fn pointer_forward_is_a_loop() {
    let buf = vec![0xC0, 0x04, 0, 0, 3, b'c', b'o', b'm', 0];
    assert_eq!(decode_name(&buf, 0), Err(DnsError::CompressionLoop));
}

#[test]
fn pointer_back_into_own_run_is_a_loop() {
    // "a" then a pointer back to the start of the same name.
    let buf = vec![1, b'a', 0xC0, 0x00];
    assert_eq!(decode_name(&buf, 0), Err(DnsError::CompressionLoop));
}

#[test]
fn two_pointers_that_refer_to_each_other() {
    let buf = vec![0xC0, 0x02, 0xC0, 0x00];
    assert_eq!(decode_name(&buf, 2), Err(DnsError::CompressionLoop));
}

#[test]
fn wide_pointer_offset() {
    // A 14-bit pointer target above 255 uses the low bits of the first octet.
    let mut buf = vec![0u8; 300];
    buf[256] = 1;
    buf[257] = b'z';
    buf[258] = 0;
    buf.extend_from_slice(&[0xC1, 0x00]);
    assert_eq!(decode_name(&buf, 300), Ok((vec![b"z".to_vec()], 302)));
}

#[test]
fn reserved_label_bits_are_malformed() {
    assert_eq!(decode_name(&[0x40, 0], 0), Err(DnsError::MalformedLabel));
    assert_eq!(decode_name(&[0x80, 0], 0), Err(DnsError::MalformedLabel));
    assert_eq!(decode_name(&[0xBF, 0], 0), Err(DnsError::MalformedLabel));
}

#[test]
fn decode_name_truncated() {
    assert_eq!(decode_name(&[], 0), Err(DnsError::TruncatedMessage));
    assert_eq!(decode_name(&[3, b'c', b'o'], 0), Err(DnsError::TruncatedMessage));
    assert_eq!(decode_name(&[3, b'c', b'o', b'm'], 0), Err(DnsError::TruncatedMessage));
    assert_eq!(decode_name(&[0, 0xC0], 1), Err(DnsError::TruncatedMessage));
    assert_eq!(decode_name(&[0], 5), Err(DnsError::TruncatedMessage));
}

#[test]
fn question_round_trip() {
    let q = DnsQuestion::new("example.com").unwrap();
    assert_eq!(q.name, example_labels());
    assert_eq!((q.type_, q.class_), (1, 1));
    let bytes = q.as_bytes();
    assert_eq!(bytes, example_query()[12..].to_vec());
    let (back, end) = DnsQuestion::parse(&bytes, 0).unwrap();
    assert_eq!(back.name, q.name);
    assert_eq!((back.type_, back.class_), (1, 1));
    assert_eq!(end, bytes.len());
}

#[test]
fn question_new_rejects_long_label() {
    let name = format!("www.{}", "q".repeat(70));
    assert!(matches!(DnsQuestion::new(&name), Err(DnsError::LabelTooLong)));
}

#[test]
fn question_parse_truncated_fields() {
    let bytes = example_query();
    let cut = &bytes[..bytes.len() - 1];
    assert!(matches!(DnsQuestion::parse(cut, 12), Err(DnsError::TruncatedMessage)));
}

#[test]
fn decode_example_response() {
    let buf = example_response();
    let r = parse_response(&buf).unwrap();
    assert_eq!(r.header.id, 0xFFFF);
    assert_eq!(r.header.flags, 0x8180);
    assert_eq!(
        (
            r.header.num_questions,
            r.header.num_answers,
            r.header.num_authorities,
            r.header.num_additionals
        ),
        (1, 1, 0, 0)
    );
    assert_eq!(r.question.name, example_labels());
    assert_eq!((r.question.type_, r.question.class_), (1, 1));
    assert_eq!(r.record.name, example_labels());
    assert_eq!(r.record.type_, 1);
    assert_eq!(r.record.class_, 1);
    assert_eq!(r.record.ttl, 3600);
    assert_eq!(r.record.data_length, 4);
    assert_eq!(r.record.data, [93, 184, 216, 34]);
}

#[test]
fn record_parse_end_offset() {
    let buf = example_response();
    let (rec, end) = DnsRecord::parse(&buf, 29).unwrap();
    assert_eq!(end, buf.len());
    assert_eq!(rec.data, [93, 184, 216, 34]);
}

#[test]
fn truncated_response_at_every_offset() {
    let buf = example_response();
    for k in 0..buf.len() {
        assert!(
            matches!(parse_response(&buf[..k]), Err(DnsError::TruncatedMessage)),
            "cut at {}",
            k
        );
    }
    assert!(parse_response(&buf).is_ok());
}

#[test]
fn record_payload_longer_than_buffer() {
    let mut buf = example_response();
    let len = buf.len();
    buf[len - 5] = 0x10; // data_length 16, only 4 octets follow
    assert!(matches!(parse_response(&buf), Err(DnsError::TruncatedMessage)));
}

#[test]
fn record_of_other_type_is_unsupported() {
    let mut buf = example_response();
    buf[32] = 0x05; // CNAME
    assert!(matches!(parse_response(&buf), Err(DnsError::UnsupportedRecordType)));
}

#[test]
fn record_with_wrong_address_length_is_unsupported() {
    let mut buf = example_response();
    let len = buf.len();
    buf[len - 5] = 0x03;
    assert!(matches!(parse_response(&buf), Err(DnsError::UnsupportedRecordType)));
}

#[test]
fn response_with_looping_record_name() {
    let mut buf = example_response();
    buf[29] = 0xC0;
    buf[30] = 29;
    assert!(matches!(parse_response(&buf), Err(DnsError::CompressionLoop)));
}

#[test]
fn response_with_malformed_question_name() {
    let mut buf = example_response();
    buf[12] = 0x47;
    assert!(matches!(parse_response(&buf), Err(DnsError::MalformedLabel)));
}
