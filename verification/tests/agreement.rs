use dns_collect::addr::{parse_ipv4, parse_ipv6};
use dns_collect::name::DomainName;
use dns_collect::record_type::RecordType;
use std::str::FromStr;
use trust_dns_proto::rr;
use trust_dns_proto::serialize::binary::{BinEncodable, BinEncoder};

fn chars(s: &str) -> Vec<char> {
    s.chars().collect()
}

const LITERALS: [&str; 40] = [
    "0.0.0.0",
    "1.2.3.4",
    "255.255.255.255",
    "256.0.0.1",
    "01.2.3.4",
    "1.2.3",
    "1.2.3.4.5",
    "1.2.3.4.",
    ".1.2.3.4",
    "1.2.3.0004",
    "",
    "::",
    "::1",
    "1::",
    ":::",
    "::1:",
    ":1::",
    "1:2:3:4:5:6:7:8",
    "1:2:3:4:5:6:7",
    "1:2:3:4:5:6:7:8:9",
    "1:2:3:4:5:6:7::",
    "::2:3:4:5:6:7:8",
    "1::3:4:5:6:7:8",
    "1:2:3:4:5:6:7:8::",
    "::1:2:3:4:5:6:7:8",
    "1::2::3",
    "12345::",
    "0000::0000",
    "FFFF:ffff::aAaA",
    "g::",
    "::ffff:1.2.3.4",
    "::1.2.3.4",
    "1:2:3:4:5:6:1.2.3.4",
    "1:2:3:4:5:6:7:1.2.3.4",
    "1:2:3:4:5:6::1.2.3.4",
    "1:2:3:4:5::1.2.3.4",
    "1.2.3.4::",
    "::1.2.3.4:5",
    "::01.2.3.4",
    "1:2:3:4:5:6:7:8 ",
];

fn std_ipv4(text: &str) -> Option<[u8; 4]> {
    match text.parse().map(rr::RData::A) {
        Ok(rr::RData::A(address)) => Some(address.octets()),
        _ => None,
    }
}

fn std_ipv6(text: &str) -> Option<[u8; 16]> {
    match text.parse().map(rr::RData::AAAA) {
        Ok(rr::RData::AAAA(address)) => Some(address.octets()),
        _ => None,
    }
}

#[test]
fn address_literals_are_read_as_the_standard_library_reads_them() {
    for text in LITERALS {
        assert_eq!(parse_ipv4(&chars(text)), std_ipv4(text), "{:?}", text);
        assert_eq!(parse_ipv6(&chars(text)), std_ipv6(text), "{:?}", text);
    }
}

fn emitted(text: &str) -> Vec<u8> {
    let name = rr::Name::from_str(text).unwrap().to_lowercase();
    let mut bytes = Vec::new();
    let mut encoder = BinEncoder::new(&mut bytes);
    name.emit(&mut encoder).unwrap();
    bytes
}

#[test]
fn wire_form_is_what_the_protocol_crate_emits() {
    for text in [".", "com.", "example.com.", "WWW.Example.COM", "_Srv._TCP.example.", "a.a.a.", "*.example.com."] {
        let name = DomainName::parse(text).unwrap();
        assert_eq!(name.wire(), emitted(text), "{:?}", text);
    }
}

#[test]
fn names_compare_as_in_the_protocol_crate() {
    let texts = ["example.com.", "EXAMPLE.com.", "_X.example.", "_x.example.", "example.org.", "com."];
    for a in texts {
        for b in texts {
            let outside = rr::Name::from_str(a).unwrap() == rr::Name::from_str(b).unwrap();
            let own = DomainName::parse(a).unwrap().same_name(&DomainName::parse(b).unwrap());
            assert_eq!(own, outside, "{:?} {:?}", a, b);
        }
    }
}

#[test]
fn record_types_are_numbered_as_in_the_protocol_crate() {
    for name in ["A", "AAAA", "ANAME", "CNAME", "NS", "NULL", "PTR", "MX", "TXT", "SOA", "SRV", "CAA"] {
        let outside = rr::RecordType::from_str(name).unwrap();
        match RecordType::parse(name).unwrap() {
            RecordType::Unknown(code) => assert_eq!(code, u16::from(outside)),
            own => assert_eq!(format!("{:?}", own), format!("{:?}", outside)),
        }
        assert_eq!(RecordType::parse(name).unwrap().name(), name);
    }
}
