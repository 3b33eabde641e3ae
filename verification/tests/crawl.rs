use dns_collect::analysis::distribution;
use dns_collect::batch::{
    batch_count, chunk_range, chunk_ranges, minutes_spent, partition, snapshot_name, take_n, BATCH,
    REPEAT, SAVE_EVERY,
};
use dns_collect::collect::{
    collect, has_key, membership_test, parse_answer, CollectMetadata, DomainStat,
};
use dns_collect::error::QueryError;
use dns_collect::name::DomainName;
use dns_collect::name_server::NameServer;
use dns_collect::record_wrapper::RecordWrapper;
use dns_collect::store::AllDomains;

fn names(n: usize) -> Vec<String> {
    (1..=n).map(|i| format!("d{}.example", i)).collect()
}

#[test]
fn limits_of_a_run() {
    assert_eq!(REPEAT, 10);
    assert_eq!(BATCH, 100);
    assert_eq!(SAVE_EVERY, 1000);
}

#[test]
fn number_of_batches() {
    assert_eq!(batch_count(0, 100), 0);
    assert_eq!(batch_count(1, 100), 1);
    assert_eq!(batch_count(100, 100), 1);
    assert_eq!(batch_count(101, 100), 2);
    assert_eq!(batch_count(250, 100), 3);
    assert_eq!(batch_count(usize::MAX, 1), usize::MAX);
    assert_eq!(batch_count(usize::MAX, 2), usize::MAX / 2 + 1);
}

#[test]
fn minutes_are_rounded_up() {
    assert_eq!(minutes_spent(0), 0);
    assert_eq!(minutes_spent(1), 1);
    assert_eq!(minutes_spent(60), 1);
    assert_eq!(minutes_spent(61), 2);
    assert_eq!(minutes_spent(u64::MAX), u64::MAX / 60 + 1);
}

#[test]
fn partition_preserves_order_and_totals() {
    let all = names(250);
    let parts = partition(&all, 100);
    let sizes: Vec<usize> = parts.iter().map(|p| p.len()).collect();
    assert_eq!(sizes, vec![100, 100, 50]);
    assert_eq!(parts.concat(), all);
    let exact = partition(&names(200), 100);
    assert_eq!(exact.len(), 2);
    assert_eq!(exact[1].len(), 100);
    assert!(partition(&Vec::new(), 100).is_empty());
    assert_eq!(partition(&names(3), 1).len(), 3);
}

#[test]
fn chunks_and_batches_nest() {
    let all = names(2350);
    let chunks = partition(&all, SAVE_EVERY);
    assert_eq!(chunks.len(), 3);
    let mut seen = Vec::new();
    for chunk in &chunks {
        let batches = partition(chunk, BATCH);
        assert_eq!(batches.len(), batch_count(chunk.len(), BATCH));
        assert!(batches.iter().all(|b| !b.is_empty() && b.len() <= BATCH));
        assert_eq!(&batches.concat(), chunk);
        seen.extend(batches.concat());
    }
    assert_eq!(seen, all);
}

#[test]
fn next_names_of_a_source() {
    let all = names(5);
    assert_eq!(take_n(2, &all, 0), all[0..2].to_vec());
    assert_eq!(take_n(2, &all, 4), all[4..5].to_vec());
    assert!(take_n(2, &all, 5).is_empty());
    assert!(take_n(0, &all, 1).is_empty());
    assert_eq!(take_n(usize::MAX, &all, 1), all[1..].to_vec());
}

#[test]
fn checkpoint_range_coverage() {
    assert_eq!(chunk_ranges(2500, 1000), vec![(1, 1000), (1001, 2000), (2001, 2500)]);
    assert_eq!(chunk_ranges(2000, 1000), vec![(1, 1000), (1001, 2000)]);
    assert_eq!(chunk_ranges(1, 1000), vec![(1, 1)]);
    assert!(chunk_ranges(0, 1000).is_empty());
    let ranges = chunk_ranges(7000, 1000);
    assert_eq!(ranges.len(), 7);
    assert_eq!(ranges[6], (6001, 7000));
    let total: usize = ranges.iter().map(|(start, end)| end - start + 1).sum();
    assert_eq!(total, 7000);
}

#[test]
fn snapshot_names_encode_the_range() {
    assert_eq!(snapshot_name(6001, 7000), "6001-7000.txt");
    assert_eq!(snapshot_name(1, 9), "1-9.txt");
    assert_eq!(snapshot_name(0, 10), "0-10.txt");
    assert_eq!(chunk_range(6000, 1000), (6001, 7000));
    let (start, end) = chunk_range(2000, 500);
    assert_eq!(snapshot_name(start, end), "2001-2500.txt");
}

#[test]
fn names_asked_for_are_held_fully_qualified() {
    let asked = membership_test(&vec![
        "Example.com".to_string(),
        "a..b".to_string(),
        "example.org.".to_string(),
    ]);
    assert_eq!(asked.len(), 2);
    assert!(asked.iter().all(|n| n.is_fqdn()));
    assert!(has_key(&asked, &DomainName::parse("example.com.").unwrap()));
    assert!(has_key(&asked, &DomainName::parse("EXAMPLE.ORG.").unwrap()));
    assert!(!has_key(&asked, &DomainName::parse("example.com").unwrap()));
    assert!(!has_key(&asked, &DomainName::parse("example.net.").unwrap()));
}

#[test]
fn a_round_moves_the_counters_and_the_store() {
    let asked = membership_test(&vec!["a.example".to_string(), "b.example".to_string()]);
    let mut meta = CollectMetadata::default();
    let mut store = AllDomains::new();
    let answer = parse_answer(
        "a.example. 30 IN A 1.1.1.1\ngarbage\nc.example. 5 IN A 3.3.3.3\na.example. 40 IN A 1.1.1.1\n",
    );
    let probe = RecordWrapper::new(answer[0].clone().unwrap());
    collect(&asked, Ok(answer), &mut meta, &mut store);
    assert_eq!(
        meta,
        CollectMetadata {
            in_queries: 2,
            not_in_queries: 1,
            repeat_count: 1,
            repeat_valid: 1,
            response_count: 4,
            response_valid: 3,
        }
    );
    assert_eq!(store.len(), 2);
    assert_eq!(store.get(&probe).unwrap().counts, 2);
    assert_eq!(store.max_count(), 2);
    collect(&asked, Err(QueryError::CommandError), &mut meta, &mut store);
    assert_eq!(meta.repeat_count, 2);
    assert_eq!(meta.repeat_valid, 1);
    assert_eq!(meta.response_count, 4);
    assert_eq!(store.len(), 2);
    collect(&asked, Ok(Vec::new()), &mut meta, &mut store);
    assert_eq!(meta.repeat_count, 3);
    assert_eq!(meta.repeat_valid, 2);
    assert_eq!(meta.response_count, 4);
}

#[test]
fn statistics_start_empty() {
    let stat = DomainStat::default();
    assert_eq!(stat.counts, 0);
    assert!(stat.ttls.is_empty());
    let store = AllDomains::new();
    assert_eq!(store.len(), 0);
    assert_eq!(store.max_count(), 0);
    assert!(!store.contains_name(&DomainName::parse("a.").unwrap()));
}

#[test]
fn owner_names_can_be_entered_without_records() {
    let mut store = AllDomains::new();
    let name = DomainName::parse("a.example.").unwrap();
    store.touch(&name);
    store.touch(&DomainName::parse("A.Example.").unwrap());
    assert_eq!(store.len(), 1);
    assert!(store.contains_name(&name));
    assert!(store.entries()[0].records.is_empty());
}

#[test]
fn statistics_are_added_to_what_is_held() {
    let answer = parse_answer("a. 1 IN A 1.1.1.1\n");
    let record = answer[0].clone().unwrap();
    let mut store = AllDomains::new();
    let mut stat = DomainStat::default();
    stat.counts = 5;
    stat.ttls.insert(7);
    store.insert_stat(RecordWrapper::new(record.clone()), stat);
    store.update(record.clone());
    let held = store.get(&RecordWrapper::new(record)).unwrap();
    assert_eq!(held.counts, 6);
    assert_eq!(held.ttls.len(), 2);
    assert!(held.ttls.contains(&7) && held.ttls.contains(&1));
}

#[test]
fn distribution_counts_names_per_bin_and_store() {
    let mut first = AllDomains::new();
    let mut second = AllDomains::new();
    for r in parse_answer("d1.example. 1 IN A 1.1.1.1\nd3.example. 1 IN A 1.1.1.1\nd4.example. 1 IN A 1.1.1.1\n") {
        first.update(r.unwrap());
    }
    for r in parse_answer("D4.EXAMPLE. 1 IN A 1.1.1.1\nother. 1 IN A 1.1.1.1\nd5.example 1 IN A 1.1.1.1\n") {
        second.update(r.unwrap());
    }
    let mut ranked = names(5);
    ranked.push("not a name".to_string());
    let rows = distribution(&ranked, &vec![first, second], 2);
    assert_eq!(rows, vec![vec![1, 0], vec![2, 1], vec![0, 1]]);
    assert!(distribution(&Vec::new(), &Vec::new(), 100).is_empty());
    assert_eq!(distribution(&names(3), &Vec::new(), 2), vec![Vec::<usize>::new(), Vec::new()]);
}

#[test]
fn name_servers_hold_a_name_and_a_host() {
    let server = NameServer::new("google".to_string(), "8.8.8.8".to_string());
    assert_eq!(server.name, "google");
    assert_eq!(server.host, "8.8.8.8");
    assert_eq!(server.clone(), server);
}
