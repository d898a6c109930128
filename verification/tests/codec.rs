use slipstream_dns::{
    base32_decode, base32_encode, decode_response, dotify, encode_response, undotify, DnsError,
    Question, Rcode, ResponseParams, CLASS_IN, RR_A, RR_TXT,
};

#[test]
fn base32_known_vector() {
    assert_eq!(base32_encode(b""), "");
    assert_eq!(base32_encode(b"fo"), "mzxq");
    assert_eq!(base32_encode(b"foobar"), "mzxw6ytboi");
}

#[test]
fn base32_round_trip_all_lengths() {
    for n in 0..40usize {
        let payload: Vec<u8> = (0..n).map(|i| (i * 37 + 11) as u8).collect();
        let encoded = base32_encode(&payload);
        assert_eq!(base32_decode(&encoded).unwrap(), payload);
    }
}

#[test]
fn base32_decode_is_case_insensitive() {
    assert_eq!(base32_decode("MZXQ").unwrap(), b"fo");
    assert_eq!(base32_decode("mZxQ").unwrap(), b"fo");
}

#[test]
fn base32_rejects_alien_characters() {
    assert!(base32_decode("mz1q").is_err());
    assert!(base32_decode("mz q").is_err());
    assert!(base32_decode("mz.q").is_err());
}

#[test]
fn dotify_inserts_a_dot_every_57_characters() {
    let s = "x".repeat(60);
    let dotted = dotify(&s);
    assert_eq!(dotted.len(), 61);
    assert_eq!(&dotted[57..58], ".");
    assert_eq!(undotify(&dotted), s);
}

#[test]
fn dotify_short_input_is_unchanged() {
    let s = "y".repeat(57);
    assert_eq!(dotify(&s), s);
    assert_eq!(dotify(""), "");
}

#[test]
fn undotify_removes_every_dot() {
    assert_eq!(undotify("a.b..c."), "abc");
}

#[test]
fn response_round_trip_txt() {
    let payload: Vec<u8> = (0..300).map(|i| (i % 251) as u8).collect();
    let packet = encode_response(&ResponseParams {
        id: 7,
        question: Question { qname: "q.example.com.", qtype: RR_TXT, qclass: CLASS_IN },
        rcode: Rcode::NoError,
        payload: &payload,
        ra: true,
        ad: false,
        cd: false,
    })
    .unwrap();
    let (rcode, data) = decode_response(&packet).unwrap();
    assert_eq!(rcode, Rcode::NoError);
    assert_eq!(data, payload);
}

#[test]
fn response_round_trip_a_records() {
    let payload = vec![10u8, 0, 0, 1, 192, 168, 1, 2];
    let packet = encode_response(&ResponseParams {
        id: 9,
        question: Question { qname: "q.example.com.", qtype: RR_A, qclass: CLASS_IN },
        rcode: Rcode::NameError,
        payload: &payload,
        ra: false,
        ad: true,
        cd: true,
    })
    .unwrap();
    let (rcode, data) = decode_response(&packet).unwrap();
    assert_eq!(rcode, Rcode::NameError);
    assert_eq!(data, payload);
}

#[test]
fn response_a_records_pad_the_last_chunk() {
    let payload = vec![1u8, 2, 3, 4, 5];
    let packet = encode_response(&ResponseParams {
        id: 1,
        question: Question { qname: "d.example.com.", qtype: RR_A, qclass: CLASS_IN },
        rcode: Rcode::NoError,
        payload: &payload,
        ra: false,
        ad: false,
        cd: false,
    })
    .unwrap();
    let (_, data) = decode_response(&packet).unwrap();
    assert_eq!(data, vec![1u8, 2, 3, 4, 5, 0, 0, 0]);
}

#[test]
fn response_rejects_unsupported_record_type() {
    let r = encode_response(&ResponseParams {
        id: 1,
        question: Question { qname: "d.example.com.", qtype: 28, qclass: CLASS_IN },
        rcode: Rcode::NoError,
        payload: b"x",
        ra: false,
        ad: false,
        cd: false,
    });
    assert_eq!(r.unwrap_err(), DnsError::UnsupportedRecordType);
}

#[test]
fn decode_response_rejects_truncated_packet() {
    assert_eq!(decode_response(&[0u8; 11]).unwrap_err(), DnsError::MalformedPacket);
}

#[test]
fn rcode_values_round_trip() {
    assert_eq!(Rcode::from_u8(0), Rcode::NoError);
    assert_eq!(Rcode::from_u8(3), Rcode::NameError);
    assert_eq!(Rcode::from_u8(5), Rcode::Refused);
    assert_eq!(Rcode::from_u8(9), Rcode::Reserved(9));
    assert_eq!(Rcode::Refused.to_u8(), 5);
}
