use rrcodec::binary::{BinDecoder, BinEncoder};
use rrcodec::errors::ProtoError;
use rrcodec::name::Name;
use rrcodec::registry::{code_to_key, key_display_name, key_to_code, SVCBKey};
use rrcodec::srv;
use rrcodec::srv::SRV;
use rrcodec::svcb;
use rrcodec::svcb::{KeyValue, SVCB};
use rrcodec::text::{parse_u16, u16_dec_string};

fn name(s: &str) -> Name {
    Name::from_str(s).unwrap()
}

fn tokens(s: &str) -> Vec<String> {
    s.split_whitespace().map(|t| t.to_string()).collect()
}

#[test]
fn srv_binary_round_trip_concrete() {
    let rdata = SRV::new(0, 65535, 443, name("old-slow-box.example.com."));
    let mut encoder = BinEncoder::new();
    assert!(srv::emit(&mut encoder, &rdata).is_ok());
    let bytes = encoder.into_bytes();
    let mut decoder = BinDecoder::new(&bytes);
    assert_eq!(rdata, srv::read(&mut decoder).unwrap());
    assert_eq!(decoder.len(), 0);
}

#[test]
fn srv_text_round_trip() {
    let rdata = SRV::new(1, 2, 3, name("example.com."));
    let text = rdata.display();
    assert_eq!(text, "1 2 3 example.com.");
    let parsed = srv::parse(&tokens(&text), None).unwrap();
    assert_eq!(rdata, parsed);
}

#[test]
fn srv_text_round_trip_ignores_origin_when_absolute() {
    let origin = name("example.com.");
    let rdata = SRV::new(9, 8, 7, name("a.b.c."));
    let text = rdata.display();
    let parsed = srv::parse(&tokens(&text), Some(&origin)).unwrap();
    assert_eq!(rdata, parsed);
}

#[test]
fn svcb_text_round_trip_single_pair_only() {
    // One parameter survives the text round trip ...
    let one = SVCB::new(
        1,
        name("example.com."),
        vec![KeyValue {
            key: SVCBKey::Alpn,
            value: b"h2".to_vec(),
        }],
    );
    let text = one.display();
    assert_eq!(text, "1 example.com. alpn=h2");
    assert_eq!(one, svcb::parse(&tokens(&text), None).unwrap());

    // ... but two are run together with no separator, so the text does not
    // round-trip: everything after the first pair's equals sign becomes
    // that pair's value.
    let two = SVCB::new(
        1,
        name("example.com."),
        vec![
            KeyValue {
                key: SVCBKey::Alpn,
                value: b"h2".to_vec(),
            },
            KeyValue {
                key: SVCBKey::Port,
                value: b"80".to_vec(),
            },
        ],
    );
    let text = two.display();
    assert_eq!(text, "1 example.com. alpn=h2port=80");
    let reparsed = svcb::parse(&tokens(&text), None).unwrap();
    assert_ne!(two, reparsed);
    let expected = SVCB::new(
        1,
        name("example.com."),
        vec![KeyValue {
            key: SVCBKey::Alpn,
            value: b"h2port=80".to_vec(),
        }],
    );
    assert_eq!(expected, reparsed);
}

#[test]
fn svcb_parse_comma_separated_pairs() {
    let parsed = svcb::parse(&tokens("1 example.com. alpn=rip,port=80"), None).unwrap();
    let expected = SVCB::new(
        1,
        name("example.com."),
        vec![
            KeyValue {
                key: SVCBKey::Alpn,
                value: b"rip".to_vec(),
            },
            KeyValue {
                key: SVCBKey::Port,
                value: b"80".to_vec(),
            },
        ],
    );
    assert_eq!(expected, parsed);
}

#[test]
fn registry_is_total_and_inverse() {
    for code in [0u16, 1, 2, 3, 4, 5, 6, 32769, 65535] {
        assert_eq!(key_to_code(&code_to_key(code)), code);
    }
    assert_eq!(code_to_key(7), SVCBKey::Reserved);
    assert_eq!(code_to_key(32768), SVCBKey::Reserved);
    assert_eq!(code_to_key(40000), SVCBKey::Reserved);
    assert_eq!(code_to_key(32769), SVCBKey::ODoHConfig);
}

#[test]
fn registry_display_names() {
    assert_eq!(key_display_name(&SVCBKey::NoDefaultAlpn), "no-default-alpn");
    assert_eq!(key_display_name(&SVCBKey::Alpn), "alpn");
    assert_eq!(key_display_name(&SVCBKey::Reserved), "");
}

#[test]
fn svcb_concrete_wire_vector() {
    let rdata = SVCB::new(
        1,
        name("_dns._tcp.example.com"),
        vec![KeyValue {
            key: SVCBKey::Alpn,
            value: b"rip".to_vec(),
        }],
    );
    let mut encoder = BinEncoder::new();
    assert!(svcb::emit(&mut encoder, &rdata).is_ok());
    let bytes = encoder.into_bytes();
    let mut expected: Vec<u8> = vec![0, 1];
    expected.extend_from_slice(&[4]);
    expected.extend_from_slice(b"_dns");
    expected.extend_from_slice(&[4]);
    expected.extend_from_slice(b"_tcp");
    expected.extend_from_slice(&[7]);
    expected.extend_from_slice(b"example");
    expected.extend_from_slice(&[3]);
    expected.extend_from_slice(b"com");
    expected.extend_from_slice(&[0]);
    expected.extend_from_slice(&[0, 1, 0, 3]);
    expected.extend_from_slice(b"rip");
    assert_eq!(bytes, expected);
    let mut decoder = BinDecoder::new(&bytes);
    assert_eq!(rdata, svcb::read(&mut decoder).unwrap());
}

#[test]
fn svcb_boundary_four_byte_tail_decodes_nothing() {
    // Header, name, then exactly four bytes: too few for another
    // key+length header, so they are left unread and no parameter decodes.
    let mut bytes: Vec<u8> = vec![0, 1, 7];
    bytes.extend_from_slice(b"example");
    bytes.extend_from_slice(&[3]);
    bytes.extend_from_slice(b"com");
    bytes.extend_from_slice(&[0]);
    bytes.extend_from_slice(&[0, 1, 0, 0]);
    let mut decoder = BinDecoder::new(&bytes);
    let rdata = svcb::read(&mut decoder).unwrap();
    assert_eq!(rdata, SVCB::new(1, name("example.com."), vec![]));
    assert_eq!(decoder.len(), 4);
}

#[test]
fn svcb_boundary_five_byte_tail_is_unterminated() {
    // Five bytes remain: one more parameter starts, but its declared
    // length overruns the single byte left.
    let mut bytes: Vec<u8> = vec![0, 1, 7];
    bytes.extend_from_slice(b"example");
    bytes.extend_from_slice(&[3]);
    bytes.extend_from_slice(b"com");
    bytes.extend_from_slice(&[0]);
    bytes.extend_from_slice(&[0, 1, 0, 9, 120]);
    let mut decoder = BinDecoder::new(&bytes);
    assert_eq!(
        svcb::read(&mut decoder),
        Err(ProtoError::UnterminatedValue)
    );
}

#[test]
fn svcb_unknown_key_code_decodes_to_reserved() {
    let mut bytes: Vec<u8> = vec![0, 0, 1, 120, 0];
    bytes.extend_from_slice(&[0, 7, 0, 2, 97, 98]);
    let mut decoder = BinDecoder::new(&bytes);
    let rdata = svcb::read(&mut decoder).unwrap();
    let expected = SVCB::new(
        0,
        name("x."),
        vec![KeyValue {
            key: SVCBKey::Reserved,
            value: b"ab".to_vec(),
        }],
    );
    assert_eq!(rdata, expected);
}

#[test]
fn srv_missing_token_errors() {
    assert_eq!(
        srv::parse(&tokens(""), None),
        Err(ProtoError::MissingToken("priority".to_string()))
    );
    assert_eq!(
        srv::parse(&tokens("1 2"), None),
        Err(ProtoError::MissingToken("port".to_string()))
    );
    assert_eq!(
        srv::parse(&tokens("1"), None),
        Err(ProtoError::MissingToken("weight".to_string()))
    );
    assert_eq!(
        srv::parse(&tokens("1 2 3"), None),
        Err(ProtoError::MissingToken("target".to_string()))
    );
}

#[test]
fn svcb_missing_token_errors() {
    assert_eq!(
        svcb::parse(&tokens(""), None),
        Err(ProtoError::MissingToken("priority".to_string()))
    );
    assert_eq!(
        svcb::parse(&tokens("1"), None),
        Err(ProtoError::MissingToken("target".to_string()))
    );
    assert_eq!(
        svcb::parse(&tokens("1 example.com."), None),
        Err(ProtoError::MissingToken("values".to_string()))
    );
}

#[test]
fn malformed_numbers_are_rejected() {
    assert_eq!(
        srv::parse(&tokens("x 2 3 example.com."), None),
        Err(ProtoError::MalformedNumber)
    );
    assert_eq!(
        srv::parse(&tokens("1 65536 3 example.com."), None),
        Err(ProtoError::MalformedNumber)
    );
    assert_eq!(parse_u16(""), Err(ProtoError::MalformedNumber));
    assert_eq!(parse_u16("12a"), Err(ProtoError::MalformedNumber));
    assert_eq!(parse_u16("99999"), Err(ProtoError::MalformedNumber));
    assert_eq!(parse_u16("007"), Ok(7));
    assert_eq!(parse_u16("65535"), Ok(65535));
}

#[test]
fn decimal_rendering_exact() {
    assert_eq!(u16_dec_string(0), "0");
    assert_eq!(u16_dec_string(7), "7");
    assert_eq!(u16_dec_string(65535), "65535");
    assert_eq!(u16_dec_string(1024), "1024");
}

#[test]
fn name_errors() {
    assert_eq!(Name::from_str("a..b"), Err(ProtoError::NameError));
    assert_eq!(Name::from_str(".a"), Err(ProtoError::NameError));
    let long = "a".repeat(64);
    assert_eq!(Name::from_str(&long), Err(ProtoError::NameError));
    assert_eq!(Name::from_str("caf\u{e9}.com"), Err(ProtoError::NameError));
}

#[test]
fn name_origin_resolution() {
    let origin = name("example.com.");
    let rel = Name::parse("www", Some(&origin)).unwrap();
    assert_eq!(rel, name("www.example.com."));
    let root = Name::parse(".", Some(&origin)).unwrap();
    assert_eq!(root, Name::new());
    assert_eq!(root.display(), ".");
}

#[test]
fn name_display_round_trip() {
    let n = name("_dns._tcp.example.com");
    assert_eq!(n.display(), "_dns._tcp.example.com.");
    assert_eq!(Name::from_str(&n.display()).unwrap(), n);
}

#[test]
fn srv_underflow_on_short_buffer() {
    let bytes: Vec<u8> = vec![0, 1, 0, 2];
    let mut decoder = BinDecoder::new(&bytes);
    assert_eq!(srv::read(&mut decoder), Err(ProtoError::BufferUnderflow));
}

#[test]
fn svcb_overflow_on_oversized_value() {
    let rdata = SVCB::new(
        1,
        name("example.com."),
        vec![KeyValue {
            key: SVCBKey::ECHConfig,
            value: vec![0u8; 65536],
        }],
    );
    let mut encoder = BinEncoder::new();
    assert_eq!(
        svcb::emit(&mut encoder, &rdata),
        Err(ProtoError::BufferOverflow)
    );
}

#[test]
fn canonical_emission_lowercases_the_name() {
    let rdata = SVCB::new(1, name("EXAMPLE.Com."), vec![]);
    let mut encoder = BinEncoder::with_canonical_names(true);
    assert!(svcb::emit(&mut encoder, &rdata).is_ok());
    let bytes = encoder.into_bytes();
    let mut decoder = BinDecoder::new(&bytes);
    let read_back = svcb::read(&mut decoder).unwrap();
    assert_eq!(read_back.target().display(), "example.com.");

    let mut plain = BinEncoder::new();
    assert!(svcb::emit(&mut plain, &rdata).is_ok());
    let plain_bytes = plain.into_bytes();
    assert_ne!(bytes, plain_bytes);
}

#[test]
fn svcb_value_getter_is_fixed() {
    let rdata = SVCB::new(0, Name::new(), vec![]);
    assert_eq!(rdata.value(), vec![1, 2]);
    assert_eq!(rdata.priority(), 0);
}

#[test]
fn srv_getters() {
    let rdata = SRV::new(1, 2, 3, name("example.com."));
    assert_eq!(rdata.get_priority(), 1);
    assert_eq!(rdata.get_weight(), 2);
    assert_eq!(rdata.get_port(), 3);
    assert_eq!(rdata.get_target(), &name("example.com."));
}
