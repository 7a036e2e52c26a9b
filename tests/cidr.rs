use cidr_chef::cidr::{Cidr, ParseError, ParseResult, Protocol};

#[test]
fn parse_ipv4() {
    assert_eq!(Cidr::parse("1.2.3.4/12"), Ok(Cidr { protocol: Protocol::IPv4, address: 0x01020304, bits: 12 }) as ParseResult);
}

#[test]
fn parse_ipv6() {
    assert_eq!(Cidr::parse("1::2/61"), Ok(Cidr { protocol: Protocol::IPv6, address: 0x0001_0000_0000_0000_0000_0000_0000_0002, bits: 61 }) as ParseResult);
    assert_eq!(Cidr::parse("1::/61"), Ok(Cidr { protocol: Protocol::IPv6, address: 0x0001_0000_0000_0000_0000_0000_0000_0000, bits: 61 }) as ParseResult);
    assert_eq!(Cidr::parse("0::2/61"), Ok(Cidr { protocol: Protocol::IPv6, address: 0x0000_0000_0000_0000_0000_0000_0000_0002, bits: 61 }) as ParseResult);
    assert_eq!(Cidr::parse("::/61"), Ok(Cidr { protocol: Protocol::IPv6, address: 0x0, bits: 61 }) as ParseResult);
    assert_eq!(Cidr::parse("::/61"), Ok(Cidr { protocol: Protocol::IPv6, address: 0x0, bits: 61 }) as ParseResult);
}

#[test]
fn parse_ipv6_hex_groups() {
    let c = Cidr::parse("2001:db8::ff/32").unwrap();
    assert_eq!(c.address, 0x2001_0db8_0000_0000_0000_0000_0000_00ff);
    assert_eq!(c.bits, 32);
    let full = Cidr::parse("1:2:3:4:5:6:7:8/128").unwrap();
    assert_eq!(full.address, 0x0001_0002_0003_0004_0005_0006_0007_0008);
}

#[test]
fn parse_errors() {
    assert_eq!(Cidr::parse("abc"), Err(ParseError::FailedToDetectIpVersion));
    assert_eq!(Cidr::parse("1.2.3.4"), Err(ParseError::FailedToParseCidr));
    assert_eq!(Cidr::parse("1.2.3/8"), Err(ParseError::FailedToParseCidr));
    assert_eq!(Cidr::parse("1.2.3.400/8"), Err(ParseError::FailedToParseInt));
    assert_eq!(Cidr::parse("1.2.x.4/8"), Err(ParseError::FailedToParseInt));
    assert_eq!(Cidr::parse("1.2.3.4/33"), Err(ParseError::FailedToParseInt));
    assert_eq!(Cidr::parse("1.2.3.4/"), Err(ParseError::FailedToParseInt));
    assert_eq!(Cidr::parse("1:2:3/64"), Err(ParseError::FailedToParseCidr));
    assert_eq!(Cidr::parse("1:2:3:4:5:6:7::8/64"), Err(ParseError::FailedToParseCidr));
    assert_eq!(Cidr::parse("1::g/64"), Err(ParseError::FailedToParseInt));
    assert_eq!(Cidr::parse("1::12345/64"), Err(ParseError::FailedToParseInt));
    assert_eq!(Cidr::parse("1::2/129"), Err(ParseError::FailedToParseInt));
}

#[test]
fn text_of_blocks() {
    let c = Cidr { protocol: Protocol::IPv4, address: 0xc0a8_0100, bits: 24 };
    assert_eq!(c.to_string(), "192.168.1.0/24");
    let d = Cidr { protocol: Protocol::IPv6, address: 0x2001_0db8_0000_0000_0000_0000_0000_00ff, bits: 120 };
    assert_eq!(d.to_string(), "2001:db8:0:0:0:0:0:ff/120");
    assert_eq!(Cidr::parse(&d.to_string()), Ok(d));
}

#[test]
fn family_widths() {
    assert_eq!(Protocol::IPv4.len(), 32);
    assert_eq!(Protocol::IPv6.len(), 128);
}
