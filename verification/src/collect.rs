//! Reading answers, and taking what one query round brought into the
//! store.

use crate::addr::{
    ip_literal, ipv4, ipv6, lemma_number_grows, lemma_number_prefix, number, parse_ip, IpAddress,
};
use crate::error::{QueryError, RDataParseError, RecordParseError};
use crate::name::{lower_labels, name_of, name_text, DomainName, NameKey};
use crate::record_type::{record_type_of, record_type_text, DnsClass, RecordType};
use crate::record_wrapper::{identity_of, RData, Record, RecordIdentity};
use crate::store::{
    lemma_observe_counts, no_stat, observe_all, records_in, stat_in, AllDomains, StatView,
};
use crate::text::{
    chars_of, fields, join_lines, lemma_lines_of_join, lines, single_lines, split_fields,
    split_lines, text_of, texts,
};
use std::collections::HashSet;
use vstd::prelude::*;
use vstd::string::StrSliceExecFns;
use vstd::string::StringExecFns;
use vstd::utf8::{decode_utf8, encode_utf8, valid_utf8};

verus! {

/// The statistics of one record identity.
#[derive(Debug, PartialEq, Eq)]
pub struct DomainStat {
    /// How often the record was seen.
    pub counts: usize,
    /// The TTLs that it was seen with.
    pub ttls: HashSet<u32>,
}

/// Counters of one collection round over one batch of domain names.
#[derive(Clone, Copy, Debug, PartialEq, Eq, Structural)]
pub struct CollectMetadata {
    /// Records whose owner name was among the names asked for.
    pub in_queries: usize,
    /// Records whose owner name was not among them.
    pub not_in_queries: usize,
    /// Query rounds made.
    pub repeat_count: usize,
    /// Query rounds that brought an answer.
    pub repeat_valid: usize,
    /// Answer lines received.
    pub response_count: usize,
    /// Answer lines that were read as records.
    pub response_valid: usize,
}

impl View for DomainStat {
    type V = StatView;

    open spec fn view(&self) -> StatView {
        StatView { counts: self.counts as nat, ttls: self.ttls@ }
    }
}

impl Default for DomainStat {
    /// The statistics of a record that was never seen.
    fn default() -> (out: DomainStat)
        ensures
            out@ == no_stat(),
    {
        DomainStat { counts: 0, ttls: HashSet::new() }
    }
}

impl Default for CollectMetadata {
    /// All counters at zero.
    fn default() -> (out: CollectMetadata)
        ensures
            out == (CollectMetadata {
                in_queries: 0,
                not_in_queries: 0,
                repeat_count: 0,
                repeat_valid: 0,
                response_count: 0,
                response_valid: 0,
            }),
    {
        CollectMetadata {
            in_queries: 0,
            not_in_queries: 0,
            repeat_count: 0,
            repeat_valid: 0,
            response_count: 0,
            response_valid: 0,
        }
    }
}

/// `String::from_utf8` of std: the string whose UTF-8 encoding is
/// `bytes`, or nothing where `bytes` is not UTF-8.
#[verifier::external_body]
fn string_from_utf8(bytes: Vec<u8>) -> (out: Option<String>)
    ensures
        match out {
            Some(text) => valid_utf8(bytes@) && encode_utf8(text@) == bytes@,
            None => !valid_utf8(bytes@),
        },
{
    String::from_utf8(bytes).ok()
}

/// The TTL that `s` writes: decimal digits, behind a plus sign or none,
/// that write a number of at most 32 bits.
pub open spec fn ttl_of(s: Seq<char>) -> Option<u32> {
    let digits = if s.len() > 0 && s[0] == '+' {
        s.skip(1)
    } else {
        s
    };
    if digits.len() == 0 {
        None
    } else {
        match number(digits, 10) {
            Some(v) => if v <= u32::MAX {
                Some(v as u32)
            } else {
                None
            },
            None => None,
        }
    }
}

/// Reads a TTL.
pub fn parse_ttl(s: &Vec<char>) -> (out: Option<u32>)
    ensures
        out == ttl_of(s@),
{
    let start: usize = if s.len() > 0 && s[0] == '+' {
        1
    } else {
        0
    };
    let ghost digits = s@.skip(start as int);
    proof {
        assert(s@.skip(0) == s@);
    }
    if start == s.len() {
        return None;
    }
    let mut acc: u64 = 0;
    let mut i: usize = start;
    proof {
        assert(digits.take(0) == Seq::<char>::empty());
    }
    while i < s.len()
        invariant
            start <= i <= s.len(),
            start < s.len(),
            digits == s@.skip(start as int),
            digits == if s@.len() > 0 && s@[0] == '+' {
                s@.skip(1)
            } else {
                s@
            },
            number(digits.take(i - start), 10) == Some(acc as nat),
            acc <= u32::MAX,
        decreases s.len() - i,
    {
        let x = s[i] as u32;
        proof {
            let prefix = digits.take(i - start + 1);
            assert(prefix.drop_last() == digits.take(i - start));
            assert(prefix.last() == s@[i as int]);
        }
        if !(48 <= x && x <= 57) {
            proof {
                lemma_number_prefix(digits, i - start + 1, 10);
            }
            return None;
        }
        acc = acc * 10 + (x - 48) as u64;
        if acc > u32::MAX as u64 {
            proof {
                if number(digits, 10) is Some {
                    lemma_number_grows(digits, i - start + 1, 10);
                }
            }
            return None;
        }
        i += 1;
    }
    proof {
        assert(digits.take(digits.len() as int) == digits);
    }
    Some(acc as u32)
}

/// Whether `data` is what the text of a data field reads as for a record
/// of type `t`: an address for the address types (an IPv4 literal gives
/// an `A`, an IPv6 literal an `AAAA`, whichever of the two types was
/// named), a domain name for the name types, and the octets of the text
/// for every other type.
pub open spec fn reads_as(text: Seq<char>, t: RecordType, data: RData) -> bool {
    match t {
        RecordType::A | RecordType::AAAA => match data {
            RData::A(a) => ipv4(text) == Some(a@),
            RData::AAAA(a) => ipv4(text) is None && ipv6(text) == Some(a@),
            _ => false,
        },
        RecordType::ANAME => data matches RData::ANAME(n) && name_of(text) == Some(
            (n@.labels, n@.fqdn),
        ),
        RecordType::CNAME => data matches RData::CNAME(n) && name_of(text) == Some(
            (n@.labels, n@.fqdn),
        ),
        RecordType::NS => data matches RData::NS(n) && name_of(text) == Some(
            (n@.labels, n@.fqdn),
        ),
        RecordType::PTR => data matches RData::PTR(n) && name_of(text) == Some(
            (n@.labels, n@.fqdn),
        ),
        RecordType::NULL => data matches RData::NULL(bytes) && bytes@ == encode_utf8(text),
        RecordType::Unknown(number) => data matches RData::Unknown { code, rdata } && code
            == number && rdata@ == encode_utf8(text),
    }
}

/// Why the text of a data field is refused for a record of type `t`, if
/// it is.
pub open spec fn data_error(text: Seq<char>, t: RecordType) -> Option<RDataParseError> {
    if t.is_address() {
        if ip_literal(text) is None {
            Some(RDataParseError::InvalidIpAddr)
        } else {
            None
        }
    } else if t.is_name() {
        if name_of(text) is None {
            Some(RDataParseError::InvalidName(t))
        } else {
            None
        }
    } else {
        None
    }
}

/// Reads the data field of an answer line for a record of the given type.
pub fn parse_record_data(rdata: &str, record_type: RecordType) -> (out: Result<
    RData,
    RDataParseError,
>)
    ensures
        match out {
            Ok(data) => data_error(rdata@, record_type) is None && reads_as(
                rdata@,
                record_type,
                data,
            ),
            Err(e) => data_error(rdata@, record_type) == Some(e),
        },
{
    match record_type {
        RecordType::A | RecordType::AAAA => {
            let chars = chars_of(rdata);
            match parse_ip(&chars) {
                Some(IpAddress::V4(a)) => Ok(RData::A(a)),
                Some(IpAddress::V6(a)) => Ok(RData::AAAA(a)),
                None => Err(RDataParseError::InvalidIpAddr),
            }
        },
        RecordType::ANAME => match DomainName::parse(rdata) {
            Some(n) => Ok(RData::ANAME(n)),
            None => Err(RDataParseError::InvalidName(record_type)),
        },
        RecordType::CNAME => match DomainName::parse(rdata) {
            Some(n) => Ok(RData::CNAME(n)),
            None => Err(RDataParseError::InvalidName(record_type)),
        },
        RecordType::NS => match DomainName::parse(rdata) {
            Some(n) => Ok(RData::NS(n)),
            None => Err(RDataParseError::InvalidName(record_type)),
        },
        RecordType::PTR => match DomainName::parse(rdata) {
            Some(n) => Ok(RData::PTR(n)),
            None => Err(RDataParseError::InvalidName(record_type)),
        },
        RecordType::NULL => Ok(RData::NULL(rdata.as_bytes_vec())),
        RecordType::Unknown(code) => Ok(RData::Unknown { code, rdata: rdata.as_bytes_vec() }),
    }
}

/// Why an answer line is refused, if it is: the first of its five fields
/// that cannot be read. The class field is not read.
pub open spec fn line_error(line: Seq<char>) -> Option<RecordParseError> {
    let f = fields(line);
    if f.len() != 5 {
        Some(RecordParseError::NotEnoughArguments)
    } else if name_of(f[0]) is None {
        Some(RecordParseError::InvalidDomainName)
    } else if ttl_of(f[1]) is None {
        Some(RecordParseError::InvalidTtl)
    } else if record_type_of(f[3]) is None {
        Some(RecordParseError::InvalidRecord)
    } else {
        match data_error(f[4], record_type_of(f[3])->0) {
            Some(e) => Some(RecordParseError::InvalidRData(e)),
            None => None,
        }
    }
}

/// Whether `r` is the record that an answer line writes: owner name, TTL,
/// class (not read), record type and data, with class `IN`.
pub open spec fn reads_record(line: Seq<char>, r: Record) -> bool {
    let f = fields(line);
    &&& f.len() == 5
    &&& name_of(f[0]) == Some((r.name@.labels, r.name@.fqdn))
    &&& ttl_of(f[1]) == Some(r.ttl)
    &&& r.dns_class == DnsClass::IN
    &&& record_type_of(f[3]) is Some
    &&& reads_as(f[4], record_type_of(f[3])->0, r.rdata)
}

/// Whether `result` is what reading the answer line `line` gives.
pub open spec fn line_outcome(line: Seq<char>, result: Result<Record, RecordParseError>) -> bool {
    match result {
        Ok(r) => line_error(line) is None && reads_record(line, r),
        Err(e) => line_error(line) == Some(e),
    }
}

/// Reads one answer line.
pub fn parse_line(line: &str) -> (out: Result<Record, RecordParseError>)
    ensures
        line_outcome(line@, out),
{
    let chars = chars_of(line);
    read_line(&chars)
}

/// Reads one answer line from its characters.
fn read_line(line: &Vec<char>) -> (out: Result<Record, RecordParseError>)
    ensures
        line_outcome(line@, out),
{
    let f = split_fields(line);
    if f.len() != 5 {
        return Err(RecordParseError::NotEnoughArguments);
    }
    proof {
        assert(forall|i: int| 0 <= i < 5 ==> texts(f@)[i] == f@[i]@);
    }
    let owner = text_of(&f[0]);
    let name = match DomainName::parse(owner.as_str()) {
        Some(name) => name,
        None => {
            return Err(RecordParseError::InvalidDomainName);
        },
    };
    let ttl = match parse_ttl(&f[1]) {
        Some(ttl) => ttl,
        None => {
            return Err(RecordParseError::InvalidTtl);
        },
    };
    let kind = text_of(&f[3]);
    let record_type = match RecordType::parse(kind.as_str()) {
        Some(t) => t,
        None => {
            return Err(RecordParseError::InvalidRecord);
        },
    };
    let data = text_of(&f[4]);
    match parse_record_data(data.as_str(), record_type) {
        Ok(rdata) => Ok(Record::from_rdata(name, ttl, rdata)),
        Err(e) => Err(RecordParseError::InvalidRData(e)),
    }
}

/// Whether `results` is what reading the answer text `text` line by line
/// gives: one result for each line, each decided by its line alone.
pub open spec fn answer_outcome(
    text: Seq<char>,
    results: Seq<Result<Record, RecordParseError>>,
) -> bool {
    &&& results.len() == lines(text).len()
    &&& forall|i: int| 0 <= i < results.len() ==> line_outcome(lines(text)[i], #[trigger] results[i])
}

/// A line of an answer is read as a record or refused by what the line
/// itself holds, wherever in the answer it stands and whatever the other
/// lines hold: a refused line costs no other line its record.
pub proof fn lemma_fault_isolation(
    all: Seq<Seq<char>>,
    results: Seq<Result<Record, RecordParseError>>,
)
    requires
        single_lines(all),
        answer_outcome(join_lines(all), results),
    ensures
        results.len() == all.len(),
        forall|i: int| 0 <= i < all.len() ==> line_outcome(all[i], #[trigger] results[i]),
        forall|i: int|
            0 <= i < all.len() ==> ((#[trigger] results[i]) is Ok <==> line_error(all[i]) is None),
{
    lemma_lines_of_join(all);
}

/// Reads an answer text line by line. A line that is refused leaves the
/// other lines as they are.
pub fn parse_answer(text: &str) -> (out: Vec<Result<Record, RecordParseError>>)
    ensures
        answer_outcome(text@, out@),
{
    let chars = chars_of(text);
    let all = split_lines(&chars);
    let mut out: Vec<Result<Record, RecordParseError>> = Vec::new();
    let mut i: usize = 0;
    while i < all.len()
        invariant
            0 <= i <= all.len(),
            texts(all@) == lines(text@),
            out@.len() == i,
            forall|k: int| 0 <= k < i ==> line_outcome(lines(text@)[k], #[trigger] out@[k]),
        decreases all.len() - i,
    {
        proof {
            assert(texts(all@)[i as int] == all@[i as int]@);
        }
        let result = read_line(&all[i]);
        out.push(result);
        i += 1;
    }
    out
}

/// Reads what the query tool wrote: one result for each line of the
/// output, or the failure that the output is not UTF-8.
pub fn query(output: Vec<u8>) -> (out: Result<Vec<Result<Record, RecordParseError>>, QueryError>)
    ensures
        match out {
            Ok(results) => valid_utf8(output@) && answer_outcome(decode_utf8(output@), results@),
            Err(e) => !valid_utf8(output@) && e == QueryError::StringConvertError,
        },
{
    broadcast use vstd::utf8::encode_utf8_decode_utf8;

    match string_from_utf8(output) {
        Some(text) => {
            proof {
                assert(decode_utf8(encode_utf8(text@)) == text@);
            }
            Ok(parse_answer(text.as_str()))
        },
        None => Err(QueryError::StringConvertError),
    }
}

/// The texts that a vector of strings holds.
pub open spec fn strings(v: Seq<String>) -> Seq<Seq<char>> {
    Seq::new(v.len(), |i: int| v[i]@)
}

/// The text that a domain name is asked for under: the text that the
/// protocol crate writes for the name that it reads from `text`.
pub open spec fn asked_name(text: Seq<char>) -> Option<Seq<char>> {
    match name_of(text) {
        Some(parts) => name_text(parts.0, parts.1),
        None => None,
    }
}

/// The domain names of a batch as they are handed to the query tool. The
/// batch is refused as a whole where one name of it cannot be written so.
pub fn query_names(domain_names: &Vec<String>) -> (out: Result<Vec<String>, QueryError>)
    ensures
        match out {
            Ok(names) => names@.len() == domain_names@.len() && forall|i: int|
                0 <= i < names@.len() ==> asked_name(domain_names@[i]@) == Some(
                    #[trigger] names@[i]@,
                ),
            Err(e) => e == QueryError::TrustDnsProtoError && exists|i: int|
                0 <= i < domain_names@.len() && asked_name(#[trigger] domain_names@[i]@) is None,
        },
{
    let mut names: Vec<String> = Vec::new();
    let mut i: usize = 0;
    while i < domain_names.len()
        invariant
            0 <= i <= domain_names.len(),
            names@.len() == i,
            forall|k: int|
                0 <= k < i ==> asked_name(domain_names@[k]@) == Some(#[trigger] names@[k]@),
        decreases domain_names.len() - i,
    {
        let written = match DomainName::parse(domain_names[i].as_str()) {
            Some(name) => name.to_utf8(),
            None => None,
        };
        match written {
            Some(text) => {
                names.push(text);
            },
            None => {
                proof {
                    assert(asked_name(domain_names@[i as int]@) is None);
                }
                return Err(QueryError::TrustDnsProtoError);
            },
        }
        i += 1;
    }
    Ok(names)
}

/// The arguments of one call of the query tool: no output but the answer
/// section, no recursion, the name server behind an `@`, the domain names
/// as [`query_names`] writes them, and the name of the record type.
pub fn query_arguments(name_server: &str, domain_names: &Vec<String>, record_type: RecordType) -> (out:
    Result<Vec<String>, QueryError>)
    ensures
        match out {
            Ok(args) => {
                let n = domain_names@.len() as int;
                &&& args@.len() == n + 5
                &&& args@[0]@ == "+noall"@
                &&& args@[1]@ == "+answer"@
                &&& args@[2]@ == "+norecurse"@
                &&& args@[3]@ == "@"@ + name_server@
                &&& forall|i: int|
                    0 <= i < n ==> asked_name(domain_names@[i]@) == Some(
                        (#[trigger] args@[4 + i])@,
                    )
                &&& args@[4 + n]@ == record_type_text(record_type)
            },
            Err(e) => e == QueryError::TrustDnsProtoError && exists|i: int|
                0 <= i < domain_names@.len() && asked_name(#[trigger] domain_names@[i]@) is None,
        },
{
    let names = match query_names(domain_names) {
        Ok(names) => names,
        Err(e) => {
            return Err(e);
        },
    };
    let mut args: Vec<String> = Vec::new();
    args.push("+noall".to_owned());
    args.push("+answer".to_owned());
    args.push("+norecurse".to_owned());
    let mut server = String::from_str("@");
    server.append(name_server);
    args.push(server);
    let mut i: usize = 0;
    while i < names.len()
        invariant
            0 <= i <= names.len(),
            args@.len() == 4 + i,
            args@[0]@ == "+noall"@,
            args@[1]@ == "+answer"@,
            args@[2]@ == "+norecurse"@,
            args@[3]@ == "@"@ + name_server@,
            forall|k: int| 0 <= k < i ==> (#[trigger] args@[4 + k])@ == names@[k]@,
        decreases names.len() - i,
    {
        args.push(names[i].clone());
        i += 1;
    }
    args.push(record_type.name());
    Ok(args)
}

/// The keys of the given names.
pub open spec fn name_keys(names: Seq<DomainName>) -> Set<NameKey> {
    Set::new(|k: NameKey| exists|i: int| 0 <= i < names.len() && (#[trigger] names[i]).key() == k)
}

/// The key that the owner names of the answers are held against for one
/// domain name of a batch: the key of its fully-qualified form, where the
/// name can be read.
pub open spec fn asked_key(text: Seq<char>) -> Option<NameKey> {
    match name_of(text) {
        Some(parts) => Some(NameKey { labels: lower_labels(parts.0), fqdn: true }),
        None => None,
    }
}

/// The keys that the owner names of the answers are held against: see
/// [`asked_key`].
pub open spec fn asked_keys(domain_names: Seq<Seq<char>>) -> Set<NameKey> {
    Set::new(
        |k: NameKey|
            exists|i: int|
                0 <= i < domain_names.len() && asked_key(#[trigger] domain_names[i]) == Some(k),
    )
}

/// The fully-qualified forms of the domain names of a batch, those left
/// out that cannot be read.
pub fn membership_test(domain_names: &Vec<String>) -> (out: Vec<DomainName>)
    ensures
        name_keys(out@) == asked_keys(strings(domain_names@)),
{
    let mut out: Vec<DomainName> = Vec::new();
    let mut i: usize = 0;
    let ghost texts = strings(domain_names@);
    proof {
        assert(name_keys(out@) =~= asked_keys(texts.take(0)));
    }
    while i < domain_names.len()
        invariant
            0 <= i <= domain_names.len(),
            texts == strings(domain_names@),
            name_keys(out@) == asked_keys(texts.take(i as int)),
        decreases domain_names.len() - i,
    {
        let ghost before = out@;
        proof {
            assert(texts[i as int] == domain_names@[i as int]@);
        }
        match DomainName::parse(domain_names[i].as_str()) {
            Some(name) => {
                let full = name.with_fqdn(true);
                out.push(full);
                proof {
                    lemma_keys_push(before, full);
                    lemma_asked_step(texts, i as int);
                }
            },
            None => {
                proof {
                    lemma_asked_step(texts, i as int);
                }
            },
        }
        i += 1;
    }
    proof {
        assert(texts.take(domain_names.len() as int) == texts);
    }
    out
}

/// The keys of names with one more name behind them.
proof fn lemma_keys_push(names: Seq<DomainName>, name: DomainName)
    ensures
        name_keys(names.push(name)) == name_keys(names).insert(name.key()),
{
    let more = names.push(name);
    assert forall|k: NameKey| name_keys(more).contains(k) <==> name_keys(names).insert(
        name.key(),
    ).contains(k) by {
        if name_keys(more).contains(k) {
            let j = choose|j: int| 0 <= j < more.len() && (#[trigger] more[j]).key() == k;
            if j < names.len() {
                assert(names[j].key() == k);
            }
        }
        if name_keys(names).contains(k) {
            let j = choose|j: int| 0 <= j < names.len() && (#[trigger] names[j]).key() == k;
            assert(more[j].key() == k);
        }
        assert(more[names.len() as int].key() == name.key());
    }
    assert(name_keys(more) =~= name_keys(names).insert(name.key()));
}

/// The keys asked for by one more domain name of a batch.
proof fn lemma_asked_step(texts: Seq<Seq<char>>, i: int)
    requires
        0 <= i < texts.len(),
    ensures
        asked_keys(texts.take(i + 1)) == match asked_key(texts[i]) {
            Some(k) => asked_keys(texts.take(i)).insert(k),
            None => asked_keys(texts.take(i)),
        },
{
    let shorter = texts.take(i);
    let longer = texts.take(i + 1);
    let goal = match asked_key(texts[i]) {
        Some(k) => asked_keys(shorter).insert(k),
        None => asked_keys(shorter),
    };
    assert forall|k: NameKey| asked_keys(longer).contains(k) <==> goal.contains(k) by {
        if asked_keys(longer).contains(k) {
            let m = choose|m: int| 0 <= m < longer.len() && asked_key(#[trigger] longer[m]) == Some(k);
            if m < i {
                assert(asked_key(shorter[m]) == Some(k));
            }
        }
        if asked_keys(shorter).contains(k) {
            let m = choose|m: int|
                0 <= m < shorter.len() && asked_key(#[trigger] shorter[m]) == Some(k);
            assert(asked_key(longer[m]) == Some(k));
        }
        if asked_key(texts[i]) == Some(k) {
            assert(asked_key(longer[i]) == Some(k));
        }
    }
    assert(asked_keys(longer) =~= goal);
}

/// Whether one of `names` has the key of `name`.
pub fn has_key(names: &Vec<DomainName>, name: &DomainName) -> (r: bool)
    ensures
        r == name_keys(names@).contains(name.key()),
{
    let mut i: usize = 0;
    while i < names.len()
        invariant
            0 <= i <= names.len(),
            forall|j: int| 0 <= j < i ==> (#[trigger] names@[j]).key() != name.key(),
        decreases names.len() - i,
    {
        if names[i].same_name(name) {
            return true;
        }
        i += 1;
    }
    false
}

/// The records among the results of reading an answer, in order.
pub open spec fn valid_records(results: Seq<Result<Record, RecordParseError>>) -> Seq<Record>
    decreases results.len(),
{
    if results.len() == 0 {
        Seq::empty()
    } else {
        match results.last() {
            Ok(r) => valid_records(results.drop_last()).push(r),
            Err(_) => valid_records(results.drop_last()),
        }
    }
}

/// How many of the records have an owner name whose key is in `asked`.
pub open spec fn count_asked(records: Seq<Record>, asked: Set<NameKey>) -> nat
    decreases records.len(),
{
    if records.len() == 0 {
        0
    } else {
        count_asked(records.drop_last(), asked) + if asked.contains(records.last().name.key()) {
            1nat
        } else {
            0nat
        }
    }
}

/// The counters after one query round: the round is counted; where it
/// brought an answer, the round counts as valid, every line of the answer
/// as a response, every record among them as a valid response, and each
/// record as asked for or not by the key of its owner name.
pub open spec fn tally(
    meta: CollectMetadata,
    response: Result<Seq<Result<Record, RecordParseError>>, QueryError>,
    asked: Set<NameKey>,
) -> CollectMetadata {
    match response {
        Ok(results) => {
            let records = valid_records(results);
            let hits = count_asked(records, asked);
            CollectMetadata {
                in_queries: (meta.in_queries + hits) as usize,
                not_in_queries: (meta.not_in_queries + records.len() - hits) as usize,
                repeat_count: (meta.repeat_count + 1) as usize,
                repeat_valid: (meta.repeat_valid + 1) as usize,
                response_count: (meta.response_count + results.len()) as usize,
                response_valid: (meta.response_valid + records.len()) as usize,
            }
        },
        Err(_) => CollectMetadata { repeat_count: (meta.repeat_count + 1) as usize, ..meta },
    }
}

/// The results of a round as a sequence, for [`tally`].
pub open spec fn response_view(
    response: Result<Vec<Result<Record, RecordParseError>>, QueryError>,
) -> Result<Seq<Result<Record, RecordParseError>>, QueryError> {
    match response {
        Ok(results) => Ok(results@),
        Err(e) => Err(e),
    }
}

/// No more records are asked for than there are records.
proof fn lemma_count_asked_bound(records: Seq<Record>, asked: Set<NameKey>)
    ensures
        count_asked(records, asked) <= records.len(),
    decreases records.len(),
{
    if records.len() > 0 {
        lemma_count_asked_bound(records.drop_last(), asked);
    }
}

/// No more records are read than there are results.
proof fn lemma_valid_records_bound(results: Seq<Result<Record, RecordParseError>>)
    ensures
        valid_records(results).len() <= results.len(),
    decreases results.len(),
{
    if results.len() > 0 {
        lemma_valid_records_bound(results.drop_last());
    }
}

/// Takes in what one query round brought: the counters move as [`tally`]
/// says, and every record of the answer is observed in the store, in the
/// order of the answer. A round that failed, and a line that was refused,
/// leave the store as it is.
pub fn collect(
    membership: &Vec<DomainName>,
    response: Result<Vec<Result<Record, RecordParseError>>, QueryError>,
    meta: &mut CollectMetadata,
    all_domains_counts: &mut AllDomains,
)
    requires
        old(all_domains_counts).wf(),
        old(meta).repeat_count < usize::MAX,
        old(meta).repeat_valid < usize::MAX,
        response matches Ok(results) ==> {
            &&& old(meta).response_count + results@.len() <= usize::MAX
            &&& old(meta).response_valid + results@.len() <= usize::MAX
            &&& old(meta).in_queries + results@.len() <= usize::MAX
            &&& old(meta).not_in_queries + results@.len() <= usize::MAX
            &&& forall|name: NameKey, id: RecordIdentity|
                (#[trigger] stat_in(records_in(old(all_domains_counts)@, name), id)).counts
                    + results@.len() <= usize::MAX
        },
    ensures
        final(all_domains_counts).wf(),
        *final(meta) == tally(*old(meta), response_view(response), name_keys(membership@)),
        final(all_domains_counts)@ == match response {
            Ok(results) => observe_all(old(all_domains_counts)@, valid_records(results@)),
            Err(_) => old(all_domains_counts)@,
        },
{
    let ghost asked = name_keys(membership@);
    let ghost start = all_domains_counts@;
    let ghost before = *meta;
    meta.repeat_count += 1;
    match response {
        Ok(results) => {
            let ghost all = results@;
            meta.repeat_valid += 1;
            meta.response_count += results.len();
            let it = results.into_iter();
            for result in iter: it
                invariant
                    iter.seq() == all,
                    asked == name_keys(membership@),
                    all_domains_counts.wf(),
                    all_domains_counts@ == observe_all(
                        start,
                        valid_records(all.take(iter.index())),
                    ),
                    meta.repeat_count == before.repeat_count + 1,
                    meta.repeat_valid == before.repeat_valid + 1,
                    meta.response_count == before.response_count + all.len(),
                    meta.response_valid == before.response_valid + valid_records(
                        all.take(iter.index()),
                    ).len(),
                    meta.in_queries == before.in_queries + count_asked(
                        valid_records(all.take(iter.index())),
                        asked,
                    ),
                    meta.not_in_queries == before.not_in_queries + valid_records(
                        all.take(iter.index()),
                    ).len() - count_asked(valid_records(all.take(iter.index())), asked),
                    before.response_valid + all.len() <= usize::MAX,
                    before.in_queries + all.len() <= usize::MAX,
                    before.not_in_queries + all.len() <= usize::MAX,
                    forall|name: NameKey, id: RecordIdentity|
                        (#[trigger] stat_in(records_in(start, name), id)).counts + all.len()
                            <= usize::MAX,
                    forall|name: NameKey, id: RecordIdentity|
                        (#[trigger] stat_in(records_in(all_domains_counts@, name), id)).counts
                            <= stat_in(records_in(start, name), id).counts + iter.index(),
            {
                let ghost k = iter.index();
                let ghost seen = valid_records(all.take(k));
                let ghost held = all_domains_counts@;
                proof {
                    assert(all.take(k + 1).drop_last() == all.take(k));
                    assert(all.take(k + 1).last() == result);
                    lemma_valid_records_bound(all.take(k));
                    lemma_count_asked_bound(seen, asked);
                }
                match result {
                    Ok(record) => {
                        proof {
                            assert(valid_records(all.take(k + 1)) == seen.push(record));
                            assert(seen.push(record).drop_last() == seen);
                            let id = identity_of(record);
                            assert(stat_in(records_in(held, id.name), id).counts <= stat_in(
                                records_in(start, id.name),
                                id,
                            ).counts + k);
                        }
                        meta.response_valid += 1;
                        if has_key(membership, &record.name) {
                            meta.in_queries += 1;
                        } else {
                            meta.not_in_queries += 1;
                        }
                        all_domains_counts.update(record);
                        proof {
                            assert forall|name: NameKey, id: RecordIdentity|
                                (#[trigger] stat_in(
                                    records_in(all_domains_counts@, name),
                                    id,
                                )).counts <= stat_in(records_in(start, name), id).counts + k
                                    + 1 by {
                                lemma_observe_counts(held, record, name, id);
                                assert(stat_in(records_in(held, name), id).counts <= stat_in(
                                    records_in(start, name),
                                    id,
                                ).counts + k);
                            }
                        }
                    },
                    Err(_) => {
                        proof {
                            assert(valid_records(all.take(k + 1)) == seen);
                        }
                    },
                }
            }
            proof {
                assert(all.take(all.len() as int) == all);
            }
        },
        Err(_) => {},
    }
}

} // verus!
