use rrcodec::binary::{BinDecoder, BinEncoder};
use rrcodec::name::Name;
use rrcodec::registry::SVCBKey;
use rrcodec::srv;
use rrcodec::srv::SRV;
use rrcodec::svcb;
use rrcodec::svcb::{KeyValue, SVCB};

#[test]
fn test_parse_from_rdata() {
    let kv = KeyValue {
        key: SVCBKey::Alpn,
        value: "rip".as_bytes().to_vec(),
    };

    let rdata = SVCB::new(
        1,
        Name::from_str("_dns._tcp.example.com").unwrap(),
        vec![kv],
    );

    let mut encoder = BinEncoder::new();
    assert!(svcb::emit(&mut encoder, &rdata).is_ok());
    let bytes = encoder.into_bytes();

    println!("bytes: {:?}", bytes);

    let mut decoder = BinDecoder::new(&bytes);

    let read_rdata = svcb::read(&mut decoder).expect("Decoding error");
    assert_eq!(rdata, read_rdata);
}

#[test]
fn test_parse_from_str() {}

#[test]
fn test_bad_svcb() {}

#[test]
fn test_https() {}

#[test]
fn test() {
    let rdata = SRV::new(
        1,
        2,
        3,
        Name::new().label("_dns_tcp").label("example").label("com"),
    );

    let mut encoder = BinEncoder::new();
    assert!(srv::emit(&mut encoder, &rdata).is_ok());
    let bytes = encoder.into_bytes();

    println!("bytes: {:?}", bytes);

    let mut decoder = BinDecoder::new(&bytes);
    let read_rdata = srv::read(&mut decoder);
    assert!(read_rdata.is_ok());
    match read_rdata {
        Ok(v) => assert_eq!(rdata, v),
        Err(e) => panic!("error decoding: {:?}", e),
    }
}
