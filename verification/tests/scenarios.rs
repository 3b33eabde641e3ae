use dns_collect::analysis::{name_overlaps, record_overlaps, PairCount, TripleCount};
use dns_collect::collect::{parse_answer, parse_line, DomainStat};
use dns_collect::store::AllDomains;
use dns_collect::error::RecordParseError;
use dns_collect::record_wrapper::{Record, RecordWrapper};

fn record(line: &str) -> Record {
    parse_line(line).unwrap()
}

fn store_of(lines: &[&str]) -> AllDomains {
    let mut store = AllDomains::new();
    for line in lines {
        store.update(record(line));
    }
    store
}

#[test]
fn dedup_ttl_accumulation() {
    let mut store = AllDomains::new();
    let first = record("example.com. 300 IN A 93.184.216.34");
    let second = record("example.com. 60 IN A 93.184.216.34");
    let probe = RecordWrapper::new(first.clone());
    store.update(first);
    store.update(second);
    assert_eq!(store.len(), 1);
    assert_eq!(store.entries().len(), 1);
    assert_eq!(store.entries()[0].records.len(), 1);
    let stat = store.get(&probe).unwrap();
    assert_eq!(stat.counts, 2);
    assert_eq!(stat.ttls.len(), 2);
    assert!(stat.ttls.contains(&300));
    assert!(stat.ttls.contains(&60));
}

#[test]
fn overlap_of_three_stores() {
    let s1 = store_of(&["a. 1 IN A 1.1.1.1", "b. 1 IN A 2.2.2.2"]);
    let s2 = store_of(&["b. 1 IN A 2.2.2.2", "c. 1 IN A 3.3.3.3"]);
    let s3 = store_of(&["b. 1 IN A 2.2.2.2"]);
    let report = name_overlaps(&vec![s1, s2, s3]);
    assert_eq!(report.sizes, vec![2, 2, 1]);
    assert_eq!(report.union, 3);
    assert_eq!(
        report.pairs,
        vec![
            PairCount { first: 0, second: 1, count: 1 },
            PairCount { first: 0, second: 2, count: 1 },
            PairCount { first: 1, second: 2, count: 1 },
        ]
    );
    assert_eq!(report.pair_union, 1);
    assert_eq!(report.triples, vec![TripleCount { first: 0, second: 1, third: 2, count: 1 }]);
    assert_eq!(report.triple_union, 1);
}

#[test]
fn malformed_line() {
    let bad = parse_line("foo.com 300 IN A");
    assert_eq!(bad.err(), Some(RecordParseError::NotEnoughArguments));
    let results = parse_answer("foo.com 300 IN A\nfoo.com. 300 IN A 1.2.3.4\n");
    assert_eq!(results.len(), 2);
    assert_eq!(results[0].as_ref().err(), Some(&RecordParseError::NotEnoughArguments));
    let good = results[1].as_ref().unwrap();
    assert_eq!(good.ttl, 300);
    assert_eq!(good.name.labels(), &vec![b"foo".to_vec(), b"com".to_vec()]);
}

#[test]
fn malformed_line_at_any_position() {
    let valid = ["a.com. 1 IN A 1.1.1.1", "b.com. 2 IN A 2.2.2.2", "c.com. 3 IN A 3.3.3.3"];
    for position in 0..=valid.len() {
        let mut lines: Vec<&str> = valid.to_vec();
        lines.insert(position, "broken line");
        let text = lines.join("\n");
        let results = parse_answer(&text);
        assert_eq!(results.len(), 4);
        let errors = results.iter().filter(|r| r.is_err()).count();
        assert_eq!(errors, 1);
        assert!(results[position].is_err());
        let ttls: Vec<u32> = results.iter().filter_map(|r| r.as_ref().ok()).map(|r| r.ttl).collect();
        assert_eq!(ttls, vec![1, 2, 3]);
    }
}

#[test]
fn identity_ignores_ttl() {
    let a = RecordWrapper::new(record("example.com. 300 IN A 93.184.216.34"));
    let b = RecordWrapper::new(record("example.com. 60 IN A 93.184.216.34"));
    let c = RecordWrapper::new(record("example.com. 300 IN A 93.184.216.35"));
    let d = RecordWrapper::new(record("example.org. 300 IN A 93.184.216.34"));
    assert!(a.same_identity(&b));
    assert!(b.same_identity(&a));
    assert!(!a.same_identity(&c));
    assert!(!a.same_identity(&d));
    assert_eq!(a.unwrap().ttl, 300);
}

#[test]
fn identity_ignores_case_of_names() {
    let a = RecordWrapper::new(record("example.com. 300 IN CNAME www.example.com."));
    let b = RecordWrapper::new(record("EXAMPLE.com. 10 IN CNAME WWW.Example.COM."));
    let c = RecordWrapper::new(record("example.com. 300 IN NS www.example.com."));
    assert!(a.same_identity(&b));
    assert!(!a.same_identity(&c));
}

fn count(store: &AllDomains, line: &str) -> Option<(usize, Vec<u32>)> {
    store.get(&RecordWrapper::new(record(line))).map(|stat: &DomainStat| {
        let mut ttls: Vec<u32> = stat.ttls.iter().copied().collect();
        ttls.sort();
        (stat.counts, ttls)
    })
}

#[test]
fn merge_sums_counts_and_unites_ttls() {
    let lines_a = ["a. 1 IN A 1.1.1.1", "a. 2 IN A 1.1.1.1", "b. 5 IN A 2.2.2.2"];
    let lines_b = ["a. 2 IN A 1.1.1.1", "a. 3 IN A 1.1.1.1", "c. 7 IN AAAA ::1"];
    let mut ab = store_of(&lines_a);
    ab.merge(store_of(&lines_b));
    let mut ba = store_of(&lines_b);
    ba.merge(store_of(&lines_a));
    for store in [&ab, &ba] {
        assert_eq!(store.len(), 3);
        assert_eq!(count(store, "a. 0 IN A 1.1.1.1"), Some((4, vec![1, 2, 3])));
        assert_eq!(count(store, "b. 0 IN A 2.2.2.2"), Some((1, vec![5])));
        assert_eq!(count(store, "c. 0 IN AAAA ::1"), Some((1, vec![7])));
        assert_eq!(count(store, "c. 0 IN A 1.1.1.1"), None);
    }
}

#[test]
fn merge_is_associative_on_examples() {
    let a = ["a. 1 IN A 1.1.1.1"];
    let b = ["a. 2 IN A 1.1.1.1", "b. 1 IN A 1.1.1.1"];
    let c = ["a. 1 IN A 1.1.1.1", "b. 9 IN A 1.1.1.1", "c. 1 IN A 1.1.1.1"];
    let mut left = store_of(&a);
    left.merge(store_of(&b));
    left.merge(store_of(&c));
    let mut bc = store_of(&b);
    bc.merge(store_of(&c));
    let mut right = store_of(&a);
    right.merge(bc);
    for store in [&left, &right] {
        assert_eq!(count(store, "a. 0 IN A 1.1.1.1"), Some((3, vec![1, 2])));
        assert_eq!(count(store, "b. 0 IN A 1.1.1.1"), Some((2, vec![1, 9])));
        assert_eq!(count(store, "c. 0 IN A 1.1.1.1"), Some((1, vec![1])));
    }
}

#[test]
fn merged_chunks_equal_one_aggregation() {
    let all = ["a. 1 IN A 1.1.1.1", "b. 2 IN A 2.2.2.2", "a. 3 IN A 1.1.1.1", "a. 1 IN A 9.9.9.9"];
    let whole = store_of(&all);
    let mut parts = store_of(&all[..2]);
    parts.merge(store_of(&all[2..]));
    for line in all {
        assert_eq!(count(&whole, line), count(&parts, line));
    }
    assert_eq!(whole.len(), parts.len());
}

#[test]
fn record_overlap_loose_and_strict() {
    let s1 = store_of(&["a. 1 IN A 1.1.1.1", "a. 1 IN A 1.1.1.2", "b. 1 IN A 2.2.2.2"]);
    let s2 = store_of(&["a. 1 IN A 1.1.1.2", "a. 1 IN A 1.1.1.3", "b. 1 IN A 2.2.2.2"]);
    let s3 = store_of(&["a. 1 IN A 1.1.1.3", "b. 1 IN A 7.7.7.7"]);
    let stores = vec![s1, s2, s3];
    let loose = record_overlaps(&stores, false);
    // a of the first and of the second share 1.1.1.2; a of the third shares
    // nothing with the first, which was gathered; b of the third is new.
    assert_eq!(loose.sizes, vec![2, 2, 2]);
    assert_eq!(loose.union, 4);
    assert_eq!(
        loose.pairs,
        vec![
            PairCount { first: 0, second: 1, count: 2 },
            PairCount { first: 0, second: 2, count: 0 },
            PairCount { first: 1, second: 2, count: 1 },
        ]
    );
    assert_eq!(loose.pair_union, 2);
    assert_eq!(loose.triples, vec![TripleCount { first: 0, second: 1, third: 2, count: 0 }]);
    assert_eq!(loose.triple_union, 0);
    let strict = record_overlaps(&stores, true);
    assert_eq!(strict.union, 5);
    assert_eq!(
        strict.pairs,
        vec![
            PairCount { first: 0, second: 1, count: 1 },
            PairCount { first: 0, second: 2, count: 0 },
            PairCount { first: 1, second: 2, count: 0 },
        ]
    );
    assert_eq!(strict.pair_union, 1);
}

#[test]
fn overlap_bounds() {
    let s1 = store_of(&["a. 1 IN A 1.1.1.1", "b. 1 IN A 2.2.2.2", "d. 1 IN A 2.2.2.2"]);
    let s2 = store_of(&["b. 1 IN A 2.2.2.2", "c. 1 IN A 3.3.3.3"]);
    let report = name_overlaps(&vec![s1, s2]);
    assert_eq!(report.sizes, vec![3, 2]);
    assert_eq!(report.union, 4);
    assert_eq!(report.pairs, vec![PairCount { first: 0, second: 1, count: 1 }]);
    for pair in &report.pairs {
        assert!(pair.count <= report.sizes[pair.first].min(report.sizes[pair.second]));
    }
    assert!(report.union >= *report.sizes.iter().max().unwrap());
    assert!(report.triples.is_empty());
    assert_eq!(report.triple_union, 0);
}

#[test]
fn overlap_of_no_store_and_of_one() {
    let none = name_overlaps(&Vec::new());
    assert!(none.sizes.is_empty());
    assert_eq!(none.union, 0);
    assert!(none.pairs.is_empty());
    let one = name_overlaps(&vec![store_of(&["a. 1 IN A 1.1.1.1"])]);
    assert_eq!(one.sizes, vec![1]);
    assert_eq!(one.union, 1);
    assert!(one.pairs.is_empty());
    assert_eq!(one.pair_union, 0);
}

#[test]
fn four_stores_give_six_pairs_and_four_triples() {
    let stores: Vec<AllDomains> =
        (0..4).map(|_| store_of(&["a. 1 IN A 1.1.1.1"])).collect();
    let report = name_overlaps(&stores);
    let pairs: Vec<(usize, usize)> = report.pairs.iter().map(|p| (p.first, p.second)).collect();
    assert_eq!(pairs, vec![(0, 1), (0, 2), (0, 3), (1, 2), (1, 3), (2, 3)]);
    let triples: Vec<(usize, usize, usize)> =
        report.triples.iter().map(|t| (t.first, t.second, t.third)).collect();
    assert_eq!(triples, vec![(0, 1, 2), (0, 1, 3), (0, 2, 3), (1, 2, 3)]);
    assert_eq!(report.union, 1);
    assert_eq!(report.triple_union, 1);
}

fn first_labels(store: &AllDomains) -> Vec<Vec<u8>> {
    store.entries().iter().map(|entry| entry.name.labels()[0].clone()).collect()
}

#[test]
fn entries_keep_the_order_of_entering() {
    let mut store = store_of(&["b. 1 IN A 1.1.1.1", "a. 1 IN A 1.1.1.1", "b. 2 IN A 2.2.2.2"]);
    assert_eq!(first_labels(&store), vec![b"b".to_vec(), b"a".to_vec()]);
    assert_eq!(store.entries()[0].records.len(), 2);
    store.merge(store_of(&["c. 1 IN A 1.1.1.1", "a. 1 IN A 3.3.3.3", "d. 1 IN A 1.1.1.1"]));
    assert_eq!(
        first_labels(&store),
        vec![b"b".to_vec(), b"a".to_vec(), b"d".to_vec(), b"c".to_vec()]
    );
    assert_eq!(store.entries()[1].records.len(), 2);
}
