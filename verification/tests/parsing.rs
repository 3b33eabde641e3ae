use dns_collect::addr::{parse_ip, parse_ipv4, parse_ipv6, IpAddress};
use dns_collect::collect::{
    parse_line, parse_record_data, parse_ttl, query, query_arguments, query_names,
};
use dns_collect::error::{QueryError, RDataParseError, RecordParseError};
use dns_collect::name::DomainName;
use dns_collect::record_type::{DnsClass, RecordType};
use dns_collect::record_wrapper::RData;
use dns_collect::text::{chars_of, split_fields, split_lines, split_text, Separator};

fn chars(s: &str) -> Vec<char> {
    s.chars().collect()
}

fn texts(v: Vec<Vec<char>>) -> Vec<String> {
    v.into_iter().map(|piece| piece.into_iter().collect()).collect()
}

#[test]
fn characters_of_a_text() {
    assert_eq!(chars_of("a\u{e9}b"), vec!['a', '\u{e9}', 'b']);
    assert!(chars_of("").is_empty());
}

#[test]
fn splitting_keeps_empty_pieces() {
    assert_eq!(texts(split_text(&chars("a..b"), Separator::Char('.'))), vec!["a", "", "b"]);
    assert_eq!(texts(split_text(&chars(""), Separator::Char('.'))), vec![""]);
    assert_eq!(texts(split_text(&chars("."), Separator::Char('.'))), vec!["", ""]);
}

#[test]
fn lines_of_a_text() {
    assert!(split_lines(&chars("")).is_empty());
    assert_eq!(texts(split_lines(&chars("a\nb"))), vec!["a", "b"]);
    assert_eq!(texts(split_lines(&chars("a\nb\n"))), vec!["a", "b"]);
    assert_eq!(texts(split_lines(&chars("a\n\nb\n"))), vec!["a", "", "b"]);
    assert_eq!(texts(split_lines(&chars("\n"))), vec![""]);
}

#[test]
fn fields_of_a_line() {
    assert_eq!(texts(split_fields(&chars("  a \t b\r"))), vec!["a", "b"]);
    assert!(split_fields(&chars(" \t ")).is_empty());
    assert_eq!(
        texts(split_fields(&chars("example.com.\t300\tIN\tA\t93.184.216.34"))),
        vec!["example.com.", "300", "IN", "A", "93.184.216.34"]
    );
}

#[test]
fn ipv4_literals() {
    assert_eq!(parse_ipv4(&chars("93.184.216.34")), Some([93, 184, 216, 34]));
    assert_eq!(parse_ipv4(&chars("0.0.0.0")), Some([0, 0, 0, 0]));
    assert_eq!(parse_ipv4(&chars("255.255.255.255")), Some([255, 255, 255, 255]));
    for bad in ["", "1.2.3", "1.2.3.4.5", "256.1.1.1", "01.2.3.4", "1..2.3", "1.2.3.4 ", "a.b.c.d",
        "1.2.3.-4", "1.2.3.0004", "+1.2.3.4"]
    {
        assert_eq!(parse_ipv4(&chars(bad)), None, "{}", bad);
    }
}

#[test]
fn ipv6_literals() {
    assert_eq!(parse_ipv6(&chars("::")), Some([0; 16]));
    let mut one = [0u8; 16];
    one[15] = 1;
    assert_eq!(parse_ipv6(&chars("::1")), Some(one));
    let mut first = [0u8; 16];
    first[1] = 1;
    assert_eq!(parse_ipv6(&chars("1::")), Some(first));
    assert_eq!(
        parse_ipv6(&chars("2001:db8::ff00:42:8329")),
        Some([0x20, 0x01, 0x0d, 0xb8, 0, 0, 0, 0, 0, 0, 0xff, 0, 0, 0x42, 0x83, 0x29])
    );
    assert_eq!(
        parse_ipv6(&chars("1:2:3:4:5:6:7:8")),
        Some([0, 1, 0, 2, 0, 3, 0, 4, 0, 5, 0, 6, 0, 7, 0, 8])
    );
    assert_eq!(
        parse_ipv6(&chars("1:2:3:4:5:6:7::")),
        Some([0, 1, 0, 2, 0, 3, 0, 4, 0, 5, 0, 6, 0, 7, 0, 0])
    );
    assert_eq!(
        parse_ipv6(&chars("::ffff:1.2.3.4")),
        Some([0, 0, 0, 0, 0, 0, 0, 0, 0, 0, 0xff, 0xff, 1, 2, 3, 4])
    );
    assert_eq!(
        parse_ipv6(&chars("1:2:3:4:5:6:1.2.3.4")),
        Some([0, 1, 0, 2, 0, 3, 0, 4, 0, 5, 0, 6, 1, 2, 3, 4])
    );
    assert_eq!(
        parse_ipv6(&chars("ABCD:ef01::")),
        Some([0xab, 0xcd, 0xef, 0x01, 0, 0, 0, 0, 0, 0, 0, 0, 0, 0, 0, 0])
    );
    for bad in ["", ":", ":::", "1:2:3:4:5:6:7", "1:2:3:4:5:6:7:8:9", "1::2::3", "12345::", "g::",
        "1:2:3:4:5:6:7:8::", "::1:2:3:4:5:6:7:8", "1.2.3.4::", "::1.2.3.4:5", "1:2:3:4:5:6:7:1.2.3.4",
        "1:2:3:4:5:6::1.2.3.4", ":1::", "::1:", "1.2.3.4"]
    {
        assert_eq!(parse_ipv6(&chars(bad)), None, "{}", bad);
    }
}

#[test]
fn ip_literals_prefer_ipv4() {
    assert_eq!(parse_ip(&chars("1.2.3.4")), Some(IpAddress::V4([1, 2, 3, 4])));
    assert_eq!(parse_ip(&chars("::")), Some(IpAddress::V6([0; 16])));
    assert_eq!(parse_ip(&chars("nope")), None);
}

#[test]
fn ttls() {
    assert_eq!(parse_ttl(&chars("300")), Some(300));
    assert_eq!(parse_ttl(&chars("+300")), Some(300));
    assert_eq!(parse_ttl(&chars("007")), Some(7));
    assert_eq!(parse_ttl(&chars("0")), Some(0));
    assert_eq!(parse_ttl(&chars("4294967295")), Some(u32::MAX));
    for bad in ["", "+", "-1", "4294967296", "99999999999999999999999", "12a", " 1", "1.0", "++1"] {
        assert_eq!(parse_ttl(&chars(bad)), None, "{}", bad);
    }
}

#[test]
fn names_are_read_by_the_protocol_crate() {
    let name = DomainName::parse("WWW.Example.COM.").unwrap();
    assert_eq!(name.labels(), &vec![b"www".to_vec(), b"example".to_vec(), b"com".to_vec()]);
    assert!(name.is_fqdn());
    let relative = DomainName::parse("example.com").unwrap();
    assert!(!relative.is_fqdn());
    assert!(!relative.same_name(&DomainName::parse("example.com.").unwrap()));
    assert!(relative.with_fqdn(true).same_name(&DomainName::parse("EXAMPLE.com.").unwrap()));
    let root = DomainName::parse(".").unwrap();
    assert!(root.labels().is_empty());
    assert!(root.is_fqdn());
    assert!(DomainName::parse("a..b").is_none());
    assert!(DomainName::parse("a b").is_none());
}

#[test]
fn names_are_written_by_the_protocol_crate() {
    let name = DomainName::parse("example.com.").unwrap();
    assert_eq!(name.to_utf8().as_deref(), Some("example.com."));
    assert_eq!(name.with_fqdn(false).to_utf8().as_deref(), Some("example.com"));
    let punycode = DomainName::parse("b\u{fc}cher.example.").unwrap();
    assert_eq!(punycode.labels()[0], b"xn--bcher-kva".to_vec());
    assert_eq!(punycode.to_utf8().as_deref(), Some("b\u{fc}cher.example."));
}

#[test]
fn names_compare_without_case() {
    let a = DomainName::from_labels(vec![b"WWW".to_vec(), b"example".to_vec()], true).unwrap();
    let b = DomainName::from_labels(vec![b"www".to_vec(), b"Example".to_vec()], true).unwrap();
    let c = DomainName::from_labels(vec![b"www".to_vec(), b"example".to_vec()], false).unwrap();
    let d = DomainName::from_labels(vec![b"www".to_vec()], true).unwrap();
    assert!(a.same_name(&b));
    assert!(!a.same_name(&c));
    assert!(!a.same_name(&d));
    assert!(a.clone().same_name(&a));
    assert_eq!(a.duplicate().labels(), a.labels());
}

#[test]
fn labels_of_more_than_63_octets_are_refused() {
    assert!(DomainName::from_labels(vec![vec![b'a'; 63]], false).is_some());
    assert!(DomainName::from_labels(vec![vec![b'a'; 64]], false).is_none());
}

#[test]
fn wire_form_of_a_name() {
    let name = DomainName::parse("WWW.example.com.").unwrap();
    assert_eq!(name.wire(), b"\x03www\x07example\x03com\x00".to_vec());
    let upper = DomainName::from_labels(vec![b"AbC".to_vec()], false).unwrap();
    assert_eq!(upper.wire(), b"\x03abc\x00".to_vec());
    assert_eq!(DomainName::parse(".").unwrap().wire(), vec![0]);
}

#[test]
fn record_types_by_name() {
    assert_eq!(RecordType::parse("A"), Some(RecordType::A));
    assert_eq!(RecordType::parse("AAAA"), Some(RecordType::AAAA));
    assert_eq!(RecordType::parse("ANAME"), Some(RecordType::ANAME));
    assert_eq!(RecordType::parse("CNAME"), Some(RecordType::CNAME));
    assert_eq!(RecordType::parse("NS"), Some(RecordType::NS));
    assert_eq!(RecordType::parse("NULL"), Some(RecordType::NULL));
    assert_eq!(RecordType::parse("PTR"), Some(RecordType::PTR));
    assert_eq!(RecordType::parse("MX"), Some(RecordType::Unknown(15)));
    assert_eq!(RecordType::parse("TXT"), Some(RecordType::Unknown(16)));
    assert_eq!(RecordType::parse("SOA"), Some(RecordType::Unknown(6)));
    assert_eq!(RecordType::parse("BOGUS"), None);
    assert_eq!(RecordType::parse("a"), None);
    assert_eq!(RecordType::parse(""), None);
    assert_eq!(RecordType::parse("*"), None);
    assert_eq!(RecordType::parse("A "), None);
}

#[test]
fn record_types_have_names() {
    assert_eq!(RecordType::A.name(), "A");
    assert_eq!(RecordType::AAAA.name(), "AAAA");
    assert_eq!(RecordType::PTR.name(), "PTR");
    assert_eq!(RecordType::Unknown(15).name(), "MX");
    assert_eq!(RecordType::Unknown(4242).name(), "Unknown");
}

#[test]
fn data_of_address_records() {
    assert!(matches!(parse_record_data("1.2.3.4", RecordType::A), Ok(RData::A([1, 2, 3, 4]))));
    assert!(matches!(parse_record_data("1.2.3.4", RecordType::AAAA), Ok(RData::A([1, 2, 3, 4]))));
    match parse_record_data("::1", RecordType::A) {
        Ok(RData::AAAA(a)) => assert_eq!(a[15], 1),
        other => panic!("{:?}", other),
    }
    assert_eq!(
        parse_record_data("one.two", RecordType::A).err(),
        Some(RDataParseError::InvalidIpAddr)
    );
}

#[test]
fn data_of_name_records() {
    for t in [RecordType::ANAME, RecordType::CNAME, RecordType::NS, RecordType::PTR] {
        let data = parse_record_data("Target.example.", t).unwrap();
        assert_eq!(data.to_record_type(), t);
        assert_eq!(data.to_wire(), b"\x06target\x07example\x00".to_vec());
        assert_eq!(parse_record_data("a..b", t).err(), Some(RDataParseError::InvalidName(t)));
    }
}

#[test]
fn data_of_other_records_is_kept_as_octets() {
    match parse_record_data("hello", RecordType::NULL) {
        Ok(RData::NULL(bytes)) => assert_eq!(bytes, b"hello".to_vec()),
        other => panic!("{:?}", other),
    }
    match parse_record_data("v=spf1", RecordType::Unknown(16)) {
        Ok(RData::Unknown { code, rdata }) => {
            assert_eq!(code, 16);
            assert_eq!(rdata, b"v=spf1".to_vec());
        },
        other => panic!("{:?}", other),
    }
    let data = parse_record_data("\u{e9}", RecordType::Unknown(1)).unwrap();
    assert_eq!(data.to_record_type(), RecordType::Unknown(1));
    assert_eq!(data.to_wire(), vec![0xc3, 0xa9]);
}

#[test]
fn a_line_becomes_a_record() {
    let r = parse_line("example.com.\t300\tIN\tA\t93.184.216.34").unwrap();
    assert_eq!(r.name().labels(), &vec![b"example".to_vec(), b"com".to_vec()]);
    assert!(r.name().is_fqdn());
    assert_eq!(r.ttl(), 300);
    assert_eq!(r.dns_class(), DnsClass::IN);
    assert_eq!(r.record_type(), RecordType::A);
    assert!(matches!(r.rdata(), RData::A([93, 184, 216, 34])));
    let mx = parse_line("example.com. 5 CH MX 10").unwrap();
    assert_eq!(mx.record_type(), RecordType::Unknown(15));
    assert_eq!(mx.dns_class(), DnsClass::IN);
}

#[test]
fn each_way_a_line_is_refused() {
    let cases = [
        ("", RecordParseError::NotEnoughArguments),
        ("a. 1 IN A", RecordParseError::NotEnoughArguments),
        ("a. 1 IN A 1.1.1.1 extra", RecordParseError::NotEnoughArguments),
        ("a..b 1 IN A 1.1.1.1", RecordParseError::InvalidDomainName),
        ("a. x IN A 1.1.1.1", RecordParseError::InvalidTtl),
        ("a. 4294967296 IN A 1.1.1.1", RecordParseError::InvalidTtl),
        ("a. 1 IN BOGUS 1.1.1.1", RecordParseError::InvalidRecord),
        ("a. 1 IN A? 1.1.1.1", RecordParseError::InvalidRecord),
        ("a. 1 IN A 1.1.1", RecordParseError::InvalidRData(RDataParseError::InvalidIpAddr)),
        (
            "a. 1 IN CNAME a..b",
            RecordParseError::InvalidRData(RDataParseError::InvalidName(RecordType::CNAME)),
        ),
        // The first field that cannot be read decides.
        ("a..b x IN BOGUS 1.1.1", RecordParseError::InvalidDomainName),
        ("a. x IN BOGUS 1.1.1", RecordParseError::InvalidTtl),
    ];
    for (line, error) in cases {
        assert_eq!(parse_line(line).err(), Some(error), "{}", line);
    }
}

#[test]
fn output_that_is_not_utf8_is_refused() {
    assert_eq!(query(vec![0x61, 0xff, 0x62]).err(), Some(QueryError::StringConvertError));
    let results = query(b"a. 1 IN A 1.1.1.1\nbad\n".to_vec()).unwrap();
    assert_eq!(results.len(), 2);
    assert!(results[0].is_ok());
    assert_eq!(results[1].as_ref().err(), Some(&RecordParseError::NotEnoughArguments));
    assert!(query(Vec::new()).unwrap().is_empty());
}

#[test]
fn names_of_a_batch_as_they_are_asked_for() {
    let names = vec!["Example.COM".to_string(), "b\u{fc}cher.example.".to_string()];
    assert_eq!(
        query_names(&names),
        Ok(vec!["example.com".to_string(), "b\u{fc}cher.example.".to_string()])
    );
    let bad = vec!["example.com".to_string(), "a..b".to_string()];
    assert_eq!(query_names(&bad), Err(QueryError::TrustDnsProtoError));
    assert_eq!(query_names(&Vec::new()), Ok(Vec::new()));
}

#[test]
fn arguments_of_the_query_tool() {
    let names = vec!["example.com".to_string(), "example.org.".to_string()];
    assert_eq!(
        query_arguments("8.8.8.8", &names, RecordType::AAAA),
        Ok(vec![
            "+noall".to_string(),
            "+answer".to_string(),
            "+norecurse".to_string(),
            "@8.8.8.8".to_string(),
            "example.com".to_string(),
            "example.org.".to_string(),
            "AAAA".to_string(),
        ])
    );
    assert_eq!(
        query_arguments("8.8.8.8", &vec!["a..b".to_string()], RecordType::A),
        Err(QueryError::TrustDnsProtoError)
    );
}
