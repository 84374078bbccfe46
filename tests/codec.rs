use dyndns::address::{decode, encode, Address, CodecError, Family, IpResponse};

fn body(a: Address) -> String {
    IpResponse::new(a).to_body()
}

fn parse(s: &str) -> Result<Address, CodecError> {
    IpResponse::parse(s.to_string()).map(|r| r.ip_addr())
}

#[test]
fn encodes_v4() {
    assert_eq!(body(Address::V4(1, 2, 3, 4)), "IPv4 1.2.3.4");
    assert_eq!(body(Address::V4(255, 0, 10, 100)), "IPv4 255.0.10.100");
}

#[test]
fn encodes_v6_canonically() {
    assert_eq!(body(Address::V6([0, 0, 0, 0, 0, 0, 0, 1])), "IPv6 ::1");
    assert_eq!(body(Address::V6([0; 8])), "IPv6 ::");
    assert_eq!(body(Address::V6([0x2001, 0xdb8, 0, 0, 0, 0, 0, 1])), "IPv6 2001:db8::1");
    assert_eq!(body(Address::V6([1, 0, 0, 2, 0, 0, 0, 3])), "IPv6 1:0:0:2::3");
    assert_eq!(body(Address::V6([1, 0, 0, 2, 0, 0, 3, 4])), "IPv6 1::2:0:0:3:4");
    assert_eq!(body(Address::V6([1, 2, 3, 4, 5, 6, 7, 8])), "IPv6 1:2:3:4:5:6:7:8");
    assert_eq!(body(Address::V6([1, 0, 3, 4, 5, 6, 7, 8])), "IPv6 1:0:3:4:5:6:7:8");
    assert_eq!(body(Address::V6([0, 0, 0, 0, 0, 0xffff, 0x0102, 0x0304])), "IPv6 ::ffff:1.2.3.4");
    assert_eq!(body(Address::V6([0xfe80, 0, 0, 0, 0xabcd, 0, 0, 0])), "IPv6 fe80::abcd:0:0:0");
}

#[test]
fn round_trips_both_families() {
    let samples = vec![
        Address::V4(0, 0, 0, 0),
        Address::V4(1, 2, 3, 4),
        Address::V4(255, 255, 255, 255),
        Address::V4(10, 0, 99, 200),
        Address::V6([0; 8]),
        Address::V6([0, 0, 0, 0, 0, 0, 0, 1]),
        Address::V6([0x2001, 0xdb8, 0, 0, 0, 0, 0, 1]),
        Address::V6([1, 0, 0, 2, 0, 0, 0, 3]),
        Address::V6([0xffff; 8]),
        Address::V6([0, 0, 0, 0, 0, 0xffff, 0x0102, 0x0304]),
        Address::V6([0xfe80, 0, 0, 0, 0xabcd, 0, 0, 0]),
    ];
    for a in samples {
        assert_eq!(parse(&body(a)), Ok(a));
        assert_eq!(decode(&encode(&a)), Ok(a));
    }
}

#[test]
fn rejects_family_syntax_mismatch() {
    assert_eq!(parse("IPv4 ::1"), Err(CodecError::InvalidAddress { expected: Family::V4 }));
    assert_eq!(parse("IPv6 1.2.3.4"), Err(CodecError::InvalidAddress { expected: Family::V6 }));
}

#[test]
fn rejects_missing_space() {
    assert_eq!(parse("garbage"), Err(CodecError::MissingSpace));
    assert_eq!(parse(""), Err(CodecError::MissingSpace));
}

#[test]
fn rejects_unknown_family() {
    assert_eq!(
        parse("IPv9 1.2.3.4"),
        Err(CodecError::UnsupportedFamily { family: "IPv9".to_string() })
    );
    assert_eq!(
        parse("ipv4 1.2.3.4"),
        Err(CodecError::UnsupportedFamily { family: "ipv4".to_string() })
    );
}

#[test]
fn rejects_malformed_addresses() {
    for s in ["IPv4 256.1.1.1", "IPv4 1.2.3", "IPv4 1.2.3.4.5", "IPv4 01.2.3.4", "IPv4 1.2.3.4 ", "IPv4  1.2.3.4", "IPv4 "] {
        assert_eq!(parse(s), Err(CodecError::InvalidAddress { expected: Family::V4 }), "{s}");
    }
    for s in ["IPv6 1:2:3", "IPv6 :::", "IPv6 1::2::3", "IPv6 12345::", "IPv6 g::1", "IPv6 "] {
        assert_eq!(parse(s), Err(CodecError::InvalidAddress { expected: Family::V6 }), "{s}");
    }
}

#[test]
fn accepts_other_ipv6_spellings() {
    assert_eq!(parse("IPv6 0:0:0:0:0:0:0:1"), Ok(Address::V6([0, 0, 0, 0, 0, 0, 0, 1])));
    assert_eq!(parse("IPv6 ::0001"), Ok(Address::V6([0, 0, 0, 0, 0, 0, 0, 1])));
    assert_eq!(parse("IPv6 2001:DB8::1"), Ok(Address::V6([0x2001, 0xdb8, 0, 0, 0, 0, 0, 1])));
    assert_eq!(parse("IPv6 ::1.2.3.4"), Ok(Address::V6([0, 0, 0, 0, 0, 0, 0x0102, 0x0304])));
    assert_eq!(
        parse("IPv6 64:ff9b::1.2.3.4"),
        Ok(Address::V6([0x64, 0xff9b, 0, 0, 0, 0, 0x0102, 0x0304]))
    );
    assert_eq!(
        parse("IPv6 1:2:3:4:5:6:1.2.3.4"),
        Ok(Address::V6([1, 2, 3, 4, 5, 6, 0x0102, 0x0304]))
    );
    assert_eq!(parse("IPv6 ::ffff:1.2.3.4"), Ok(Address::V6([0, 0, 0, 0, 0, 0xffff, 0x0102, 0x0304])));
    assert_eq!(parse("IPv6 1::"), Ok(Address::V6([1, 0, 0, 0, 0, 0, 0, 0])));
}

#[test]
fn rejects_malformed_ipv6() {
    for s in ["IPv6 1:2:3:4::5:6:7:8", "IPv6 1:2:3:4:5:6:7:1.2.3.4", "IPv6 ::ffff:1.2.3", "IPv6 1:2:3:4:5:6:7:8:9", "IPv6 1:2:3:4:5:6:7:"] {
        assert_eq!(parse(s), Err(CodecError::InvalidAddress { expected: Family::V6 }), "{s}");
    }
}
