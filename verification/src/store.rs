//! The aggregation store: per owner name and record identity, how often
//! a record was seen and with which TTLs; observing, merging, and the
//! laws of both.

use crate::collect::DomainStat;
use crate::name::{DomainName, NameKey};
use crate::record_wrapper::{identity_of, Record, RecordIdentity, RecordWrapper};
use std::collections::HashSet;
use vstd::prelude::*;
use vstd::std_specs::iter::IteratorSpec;

verus! {

/// What is known of one record identity: how often it was seen, and the
/// TTLs it was seen with.
#[verifier::ext_equal]
pub struct StatView {
    pub counts: nat,
    pub ttls: Set<u32>,
}

/// One record identity of an owner name, with its statistics.
#[derive(Debug)]
pub struct RecordEntry {
    pub record: RecordWrapper,
    pub stat: DomainStat,
}

/// One owner name, with the records seen under it.
#[derive(Debug)]
pub struct DomainEntry {
    pub name: DomainName,
    pub records: Vec<RecordEntry>,
}

/// The records of one owner name as a map from identity to statistics.
pub type RecordsView = Map<RecordIdentity, StatView>;

/// A store as a map from the key of an owner name to its records.
pub type StoreView = Map<NameKey, RecordsView>;

/// One owner name of a store with the identities of the records seen
/// under it.
#[verifier::ext_equal]
pub struct Answers {
    pub name: NameKey,
    pub ids: Set<RecordIdentity>,
}

/// The statistics of a record that was never seen.
pub open spec fn no_stat() -> StatView {
    StatView { counts: 0, ttls: Set::empty() }
}

/// The statistics of one observation with the given TTL.
pub open spec fn seen_once(ttl: u32) -> StatView {
    StatView { counts: 1, ttls: set![ttl] }
}

/// Two statistics of one identity taken together: the counts added, the
/// TTL sets united.
pub open spec fn merge_stat(a: StatView, b: StatView) -> StatView {
    StatView { counts: a.counts + b.counts, ttls: a.ttls.union(b.ttls) }
}

/// The statistics that `records` holds for `id`; those of a record never
/// seen where it holds none.
pub open spec fn stat_in(records: RecordsView, id: RecordIdentity) -> StatView {
    if records.contains_key(id) {
        records[id]
    } else {
        no_stat()
    }
}

/// The records that `store` holds for `name`; none where it does not hold
/// the name.
pub open spec fn records_in(store: StoreView, name: NameKey) -> RecordsView {
    if store.contains_key(name) {
        store[name]
    } else {
        Map::empty()
    }
}

/// The records of one owner name from two stores taken together.
pub open spec fn merge_records(a: RecordsView, b: RecordsView) -> RecordsView {
    Map::new(
        |id: RecordIdentity| a.contains_key(id) || b.contains_key(id),
        |id: RecordIdentity| merge_stat(stat_in(a, id), stat_in(b, id)),
    )
}

/// Two stores taken together: every owner name and identity of either,
/// with counts added and TTL sets united where both hold an identity.
pub open spec fn merge_views(a: StoreView, b: StoreView) -> StoreView {
    Map::new(
        |name: NameKey| a.contains_key(name) || b.contains_key(name),
        |name: NameKey| merge_records(records_in(a, name), records_in(b, name)),
    )
}

/// The store that holds one identity with the given statistics.
pub open spec fn single(id: RecordIdentity, stat: StatView) -> StoreView {
    map![id.name => map![id => stat]]
}

/// The store after `stat` was added to what `store` holds for `id`.
pub open spec fn with_stat(store: StoreView, id: RecordIdentity, stat: StatView) -> StoreView {
    store.insert(
        id.name,
        records_in(store, id.name).insert(
            id,
            merge_stat(stat_in(records_in(store, id.name), id), stat),
        ),
    )
}

/// The store after one more observation of record `r`.
pub open spec fn observe(store: StoreView, r: Record) -> StoreView {
    with_stat(store, identity_of(r), seen_once(r.ttl))
}

/// Adding statistics for one identity is merging with the store that
/// holds just them.
pub proof fn lemma_with_stat_is_merge(store: StoreView, id: RecordIdentity, stat: StatView)
    ensures
        with_stat(store, id, stat) == merge_views(store, single(id, stat)),
{
    let one = single(id, stat);
    let left = with_stat(store, id, stat);
    let right = merge_views(store, one);
    assert(one.contains_key(id.name));
    assert(one[id.name].contains_key(id));
    assert forall|name: NameKey| left.contains_key(name) implies #[trigger] left[name]
        == right[name] by {
        let a = records_in(store, name);
        let b = records_in(one, name);
        if name == id.name {
            assert forall|i: RecordIdentity| left[name].contains_key(i) implies #[trigger] left[name][i]
                == right[name][i] by {
                if i != id {
                    assert(!b.contains_key(i));
                    assert(merge_stat(stat_in(a, i), no_stat()) == stat_in(a, i));
                }
            }
            assert(left[name] =~= right[name]);
        } else {
            assert(b =~= Map::empty());
            assert forall|i: RecordIdentity| a.contains_key(i) implies merge_stat(
                stat_in(a, i),
                stat_in(b, i),
            ) == a[i] by {
                assert(merge_stat(a[i], no_stat()) == a[i]);
            }
            assert(right[name] =~= a);
        }
    }
    assert(left =~= right);
}

/// Merging is commutative.
pub proof fn lemma_merge_commutative(a: StoreView, b: StoreView)
    ensures
        merge_views(a, b) == merge_views(b, a),
{
    let left = merge_views(a, b);
    let right = merge_views(b, a);
    assert forall|name: NameKey| left.contains_key(name) implies #[trigger] left[name]
        == right[name] by {
        let x = records_in(a, name);
        let y = records_in(b, name);
        assert forall|id: RecordIdentity|
            x.contains_key(id) || y.contains_key(id) implies merge_stat(
            stat_in(x, id),
            stat_in(y, id),
        ) == merge_stat(stat_in(y, id), stat_in(x, id)) by {
            assert(stat_in(x, id).ttls.union(stat_in(y, id).ttls) =~= stat_in(y, id).ttls.union(
                stat_in(x, id).ttls,
            ));
        }
        assert(merge_records(x, y) =~= merge_records(y, x));
    }
    assert(left =~= right);
}

/// What a merge of records holds for an identity: the merge of what the
/// two sides hold for it.
pub proof fn lemma_stat_in_merge(x: RecordsView, y: RecordsView, id: RecordIdentity)
    ensures
        stat_in(merge_records(x, y), id) == merge_stat(stat_in(x, id), stat_in(y, id)),
{
    assert(no_stat().ttls.union(no_stat().ttls) =~= no_stat().ttls);
}

/// What a merge of stores holds for a name: the merge of what the two
/// sides hold for it.
pub proof fn lemma_records_in_merge(a: StoreView, b: StoreView, name: NameKey)
    ensures
        records_in(merge_views(a, b), name) == merge_records(
            records_in(a, name),
            records_in(b, name),
        ),
{
    if !(a.contains_key(name) || b.contains_key(name)) {
        assert(merge_records(Map::empty(), Map::empty()) =~= Map::<
            RecordIdentity,
            StatView,
        >::empty());
    }
}

/// Merging is associative.
pub proof fn lemma_merge_associative(a: StoreView, b: StoreView, c: StoreView)
    ensures
        merge_views(merge_views(a, b), c) == merge_views(a, merge_views(b, c)),
{
    let left = merge_views(merge_views(a, b), c);
    let right = merge_views(a, merge_views(b, c));
    assert forall|name: NameKey| left.contains_key(name) implies #[trigger] left[name]
        == right[name] by {
        let x = records_in(a, name);
        let y = records_in(b, name);
        let z = records_in(c, name);
        lemma_records_in_merge(a, b, name);
        lemma_records_in_merge(b, c, name);
        let l = merge_records(merge_records(x, y), z);
        let r = merge_records(x, merge_records(y, z));
        assert forall|id: RecordIdentity| l.contains_key(id) implies #[trigger] l[id]
            == r[id] by {
            lemma_stat_in_merge(x, y, id);
            lemma_stat_in_merge(y, z, id);
            let s = stat_in(x, id);
            let t = stat_in(y, id);
            let u = stat_in(z, id);
            assert(s.ttls.union(t.ttls).union(u.ttls) =~= s.ttls.union(t.ttls.union(u.ttls)));
        }
        assert(l =~= r);
    }
    assert(left =~= right);
}

/// Observing a record in a merged store gives what merging gives after
/// the record was observed in either part: the parts of a run can be
/// aggregated apart and merged later.
pub proof fn lemma_observe_merge(a: StoreView, b: StoreView, r: Record)
    ensures
        observe(merge_views(a, b), r) == merge_views(a, observe(b, r)),
        observe(merge_views(a, b), r) == merge_views(observe(a, r), b),
{
    let one = single(identity_of(r), seen_once(r.ttl));
    lemma_with_stat_is_merge(merge_views(a, b), identity_of(r), seen_once(r.ttl));
    lemma_with_stat_is_merge(a, identity_of(r), seen_once(r.ttl));
    lemma_with_stat_is_merge(b, identity_of(r), seen_once(r.ttl));
    lemma_merge_associative(a, b, one);
    lemma_merge_commutative(b, one);
    lemma_merge_associative(a, one, b);
}

/// Puts every element of `source` into `target`.
pub fn add_all(target: &mut HashSet<u32>, source: &HashSet<u32>)
    ensures
        final(target)@ == old(target)@.union(source@),
{
    broadcast use vstd::std_specs::hash::group_hash_axioms;

    let ghost before = target@;
    let it = source.iter();
    let ghost all = it.remaining().unref();
    for t in iter: it
        invariant
            iter.seq().unref() == all,
            all.to_set() == source@,
            target@ == before.union(all.take(iter.index()).to_set()),
    {
        proof {
            let seen = all.take(iter.index());
            assert(all.take(iter.index() + 1) == seen.push(*t));
            seen.lemma_push_to_set_commute(*t);
            assert(before.union(seen.to_set().insert(*t)) == before.union(seen.to_set()).insert(
                *t,
            ));
        }
        target.insert(*t);
    }
    proof {
        assert(all.take(all.len() as int) == all);
    }
}

/// The identity of the entry at index `p`.
pub open spec fn id_at(entries: Seq<RecordEntry>, p: int) -> RecordIdentity {
    entries[p].record.identity()
}

/// Whether some entry has identity `id`.
pub open spec fn has_id(entries: Seq<RecordEntry>, id: RecordIdentity) -> bool {
    exists|p: int| 0 <= p < entries.len() && #[trigger] id_at(entries, p) == id
}

/// The index of an entry with identity `id`.
pub open spec fn index_of_id(entries: Seq<RecordEntry>, id: RecordIdentity) -> int {
    choose|p: int| 0 <= p < entries.len() && #[trigger] id_at(entries, p) == id
}

/// Whether no two entries have the same identity.
pub open spec fn distinct_ids(entries: Seq<RecordEntry>) -> bool {
    forall|p: int, q: int|
        0 <= p < q < entries.len() ==> #[trigger] id_at(entries, p) != #[trigger] id_at(
            entries,
            q,
        )
}

/// The entries as a map from identity to statistics.
pub open spec fn records_view(entries: Seq<RecordEntry>) -> RecordsView {
    Map::new(
        |id: RecordIdentity| has_id(entries, id),
        |id: RecordIdentity| entries[index_of_id(entries, id)].stat@,
    )
}

/// The key of the owner name at index `i`.
pub open spec fn key_at(domains: Seq<DomainEntry>, i: int) -> NameKey {
    domains[i].name.key()
}

/// Whether some entry has the owner name key `name`.
pub open spec fn has_name(domains: Seq<DomainEntry>, name: NameKey) -> bool {
    exists|i: int| 0 <= i < domains.len() && #[trigger] key_at(domains, i) == name
}

/// The index of an entry with the owner name key `name`.
pub open spec fn index_of_name(domains: Seq<DomainEntry>, name: NameKey) -> int {
    choose|i: int| 0 <= i < domains.len() && #[trigger] key_at(domains, i) == name
}

/// Whether no two entries have the same owner name key.
pub open spec fn distinct_names(domains: Seq<DomainEntry>) -> bool {
    forall|i: int, j: int|
        0 <= i < j < domains.len() ==> #[trigger] key_at(domains, i) != #[trigger] key_at(
            domains,
            j,
        )
}

/// Whether the records of an entry have distinct identities, each under
/// the entry's owner name.
pub open spec fn entry_wf(key: NameKey, entries: Seq<RecordEntry>) -> bool {
    &&& distinct_ids(entries)
    &&& forall|p: int| 0 <= p < entries.len() ==> (#[trigger] id_at(entries, p)).name == key
}

/// Whether the entries are a store: distinct owner names, and under each
/// distinct identities of that owner name.
pub open spec fn store_wf(domains: Seq<DomainEntry>) -> bool {
    &&& distinct_names(domains)
    &&& forall|i: int|
        0 <= i < domains.len() ==> entry_wf(#[trigger] key_at(domains, i), domains[i].records@)
}

/// The entries as a map from owner name key to records.
pub open spec fn store_view(domains: Seq<DomainEntry>) -> StoreView {
    Map::new(
        |name: NameKey| has_name(domains, name),
        |name: NameKey| records_view(domains[index_of_name(domains, name)].records@),
    )
}

/// The owner name of an entry with the identities of its records.
pub open spec fn answers_of(e: DomainEntry) -> Answers {
    Answers { name: e.name.key(), ids: records_view(e.records@).dom() }
}

/// The entries of a store as a list, in the order of the store.
pub open spec fn listing_answers(entries: Seq<DomainEntry>) -> Seq<Answers> {
    Seq::new(entries.len(), |i: int| answers_of(entries[i]))
}

/// Whether the list holds the owner name `name`.
pub open spec fn holds_name(list: Seq<Answers>, name: NameKey) -> bool {
    exists|i: int| 0 <= i < list.len() && (#[trigger] list[i]).name == name
}

/// The index at which the list holds the owner name `name`.
pub open spec fn index_named(list: Seq<Answers>, name: NameKey) -> int {
    choose|i: int| 0 <= i < list.len() && (#[trigger] list[i]).name == name
}

/// The list after the identities `x.ids` were entered under the owner
/// name `x.name`: they join those of the entry of that name, which keeps
/// its place; a name that the list does not hold is put behind the others.
pub open spec fn taken_in(list: Seq<Answers>, x: Answers) -> Seq<Answers> {
    if holds_name(list, x.name) {
        let i = index_named(list, x.name);
        list.update(i, Answers { name: x.name, ids: list[i].ids.union(x.ids) })
    } else {
        list.push(x)
    }
}

/// The list after the entries of `more` were taken in, from the last of
/// them to the first.
pub open spec fn merged(list: Seq<Answers>, more: Seq<Answers>) -> Seq<Answers>
    decreases more.len(),
{
    if more.len() == 0 {
        list
    } else {
        merged(taken_in(list, more.last()), more.drop_last())
    }
}

/// Where an entry of the owner name stands, the list takes the identities
/// in at that place.
proof fn lemma_taken_in_at(domains: Seq<DomainEntry>, i: int, e: DomainEntry, x: Answers)
    requires
        distinct_names(domains),
        0 <= i < domains.len(),
        key_at(domains, i) == x.name,
        e.name.key() == x.name,
        answers_of(e).ids == answers_of(domains[i]).ids.union(x.ids),
    ensures
        listing_answers(domains.update(i, e)) == taken_in(listing_answers(domains), x),
{
    let list = listing_answers(domains);
    assert(list[i].name == x.name);
    let j = index_named(list, x.name);
    assert(0 <= j < list.len() && list[j].name == x.name);
    if j < i {
        assert(key_at(domains, j) != key_at(domains, i));
    } else if i < j {
        assert(key_at(domains, i) != key_at(domains, j));
    }
    assert(listing_answers(domains.update(i, e)) =~= list.update(
        i,
        Answers { name: x.name, ids: list[i].ids.union(x.ids) },
    ));
}

/// Where no entry of the owner name stands, the list takes the
/// identities in behind the others.
proof fn lemma_taken_in_new(domains: Seq<DomainEntry>, e: DomainEntry, x: Answers)
    requires
        !has_name(domains, x.name),
        answers_of(e) == x,
    ensures
        listing_answers(domains.push(e)) == taken_in(listing_answers(domains), x),
{
    let list = listing_answers(domains);
    if holds_name(list, x.name) {
        let j = index_named(list, x.name);
        assert(key_at(domains, j) == x.name);
    }
    assert(listing_answers(domains.push(e)) =~= list.push(x));
}

/// Identities taken in under one owner name in two steps are taken in
/// together.
proof fn lemma_taken_in_twice(
    list: Seq<Answers>,
    name: NameKey,
    first: Set<RecordIdentity>,
    second: Set<RecordIdentity>,
)
    requires
        forall|i: int, j: int|
            0 <= i < j < list.len() ==> (#[trigger] list[i]).name != (#[trigger] list[j]).name,
    ensures
        taken_in(taken_in(list, Answers { name, ids: first }), Answers { name, ids: second })
            == taken_in(list, Answers { name, ids: first.union(second) }),
{
    let once = taken_in(list, Answers { name, ids: first });
    let i = if holds_name(list, name) {
        index_named(list, name)
    } else {
        list.len() as int
    };
    assert(0 <= i < once.len() && once[i].name == name);
    let j = index_named(once, name);
    assert(0 <= j < once.len() && once[j].name == name);
    if j != i {
        if holds_name(list, name) {
            assert(list[j].name == name);
            if j < i {
                assert(list[j].name != list[i].name);
            } else {
                assert(list[i].name != list[j].name);
            }
        } else {
            assert(list[j].name == name);
        }
    }
    if holds_name(list, name) {
        assert(list[i].ids.union(first).union(second) =~= list[i].ids.union(first.union(second)));
    }
    assert(taken_in(once, Answers { name, ids: second }) =~= taken_in(
        list,
        Answers { name, ids: first.union(second) },
    ));
}

/// The list of a store holds each owner name of the store once.
proof fn lemma_listing_distinct(domains: Seq<DomainEntry>)
    requires
        distinct_names(domains),
    ensures
        forall|i: int, j: int|
            0 <= i < j < domains.len() ==> (#[trigger] listing_answers(domains)[i]).name != (
            #[trigger] listing_answers(domains)[j]).name,
{
    let list = listing_answers(domains);
    assert forall|i: int, j: int| 0 <= i < j < domains.len() implies (#[trigger] list[i]).name != (
    #[trigger] list[j]).name by {
        assert(key_at(domains, i) != key_at(domains, j));
    }
}

/// Among distinct identities, the map holds for the identity of an
/// entry the statistics of that entry.
proof fn lemma_records_lookup(entries: Seq<RecordEntry>, p: int)
    requires
        distinct_ids(entries),
        0 <= p < entries.len(),
    ensures
        has_id(entries, id_at(entries, p)),
        index_of_id(entries, id_at(entries, p)) == p,
        records_view(entries).contains_key(id_at(entries, p)),
        records_view(entries)[id_at(entries, p)] == entries[p].stat@,
{
    let id = id_at(entries, p);
    let q = index_of_id(entries, id);
    assert(0 <= q < entries.len() && id_at(entries, q) == id);
    if q < p {
        assert(id_at(entries, q) != id_at(entries, p));
    } else if p < q {
        assert(id_at(entries, p) != id_at(entries, q));
    }
}

/// An entry of a new identity, put behind the others, enters the map.
proof fn lemma_records_push(entries: Seq<RecordEntry>, e: RecordEntry)
    requires
        distinct_ids(entries),
        !has_id(entries, e.record.identity()),
    ensures
        distinct_ids(entries.push(e)),
        records_view(entries.push(e)) == records_view(entries).insert(e.record.identity(), e.stat@),
{
    let more = entries.push(e);
    let id = e.record.identity();
    assert forall|p: int, q: int| 0 <= p < q < more.len() implies #[trigger] id_at(more, p)
        != #[trigger] id_at(more, q) by {
        if q < entries.len() {
            assert(id_at(entries, p) != id_at(entries, q));
        } else {
            assert(id_at(entries, p) != id);
        }
    }
    assert(id_at(more, entries.len() as int) == id);
    let left = records_view(more);
    let right = records_view(entries).insert(id, e.stat@);
    assert forall|i: RecordIdentity| left.contains_key(i) <==> right.contains_key(i) by {
        if has_id(more, i) {
            let p = index_of_id(more, i);
            if p < entries.len() {
                assert(id_at(entries, p) == i);
            }
        }
        if has_id(entries, i) {
            let p = index_of_id(entries, i);
            assert(id_at(more, p) == i);
        }
    }
    assert forall|i: RecordIdentity| left.contains_key(i) implies #[trigger] left[i]
        == right[i] by {
        let p = index_of_id(more, i);
        lemma_records_lookup(more, p);
        if p < entries.len() {
            assert(id_at(entries, p) == i);
            lemma_records_lookup(entries, p);
        }
    }
    assert(left =~= right);
}

/// An entry put in the place of one of the same identity replaces it in
/// the map.
proof fn lemma_records_set(entries: Seq<RecordEntry>, p: int, e: RecordEntry)
    requires
        distinct_ids(entries),
        0 <= p < entries.len(),
        e.record.identity() == id_at(entries, p),
    ensures
        distinct_ids(entries.update(p, e)),
        records_view(entries.update(p, e)) == records_view(entries).insert(
            id_at(entries, p),
            e.stat@,
        ),
{
    let changed = entries.update(p, e);
    let id = id_at(entries, p);
    assert forall|q: int| 0 <= q < entries.len() implies #[trigger] id_at(changed, q) == id_at(
        entries,
        q,
    ) by {}
    assert forall|a: int, b: int| 0 <= a < b < changed.len() implies #[trigger] id_at(
        changed,
        a,
    ) != #[trigger] id_at(changed, b) by {
        assert(id_at(entries, a) != id_at(entries, b));
    }
    let left = records_view(changed);
    let right = records_view(entries).insert(id, e.stat@);
    assert forall|i: RecordIdentity| left.contains_key(i) <==> right.contains_key(i) by {
        if has_id(changed, i) {
            let q = index_of_id(changed, i);
            assert(id_at(entries, q) == i);
        }
        if has_id(entries, i) {
            let q = index_of_id(entries, i);
            assert(id_at(changed, q) == i);
        }
        assert(id_at(changed, p) == id);
    }
    assert forall|i: RecordIdentity| left.contains_key(i) implies #[trigger] left[i]
        == right[i] by {
        let q = index_of_id(changed, i);
        lemma_records_lookup(changed, q);
        assert(id_at(entries, q) == i);
        lemma_records_lookup(entries, q);
    }
    assert(left =~= right);
}

/// Among distinct owner names, the store holds for the name of an entry
/// the records of that entry.
proof fn lemma_store_lookup(domains: Seq<DomainEntry>, i: int)
    requires
        distinct_names(domains),
        0 <= i < domains.len(),
    ensures
        has_name(domains, key_at(domains, i)),
        index_of_name(domains, key_at(domains, i)) == i,
        store_view(domains).contains_key(key_at(domains, i)),
        store_view(domains)[key_at(domains, i)] == records_view(domains[i].records@),
{
    let name = key_at(domains, i);
    let j = index_of_name(domains, name);
    assert(0 <= j < domains.len() && key_at(domains, j) == name);
    if j < i {
        assert(key_at(domains, j) != key_at(domains, i));
    } else if i < j {
        assert(key_at(domains, i) != key_at(domains, j));
    }
}

/// An entry of a new owner name, put behind the others, enters the store.
proof fn lemma_store_push(domains: Seq<DomainEntry>, e: DomainEntry)
    requires
        distinct_names(domains),
        !has_name(domains, e.name.key()),
    ensures
        distinct_names(domains.push(e)),
        store_view(domains.push(e)) == store_view(domains).insert(
            e.name.key(),
            records_view(e.records@),
        ),
{
    let more = domains.push(e);
    let name = e.name.key();
    assert forall|i: int, j: int| 0 <= i < j < more.len() implies #[trigger] key_at(more, i)
        != #[trigger] key_at(more, j) by {
        if j < domains.len() {
            assert(key_at(domains, i) != key_at(domains, j));
        } else {
            assert(key_at(domains, i) != name);
        }
    }
    assert(key_at(more, domains.len() as int) == name);
    let left = store_view(more);
    let right = store_view(domains).insert(name, records_view(e.records@));
    assert forall|n: NameKey| left.contains_key(n) <==> right.contains_key(n) by {
        if has_name(more, n) {
            let i = index_of_name(more, n);
            if i < domains.len() {
                assert(key_at(domains, i) == n);
            }
        }
        if has_name(domains, n) {
            let i = index_of_name(domains, n);
            assert(key_at(more, i) == n);
        }
    }
    assert forall|n: NameKey| left.contains_key(n) implies #[trigger] left[n] == right[n] by {
        let i = index_of_name(more, n);
        lemma_store_lookup(more, i);
        if i < domains.len() {
            assert(key_at(domains, i) == n);
            lemma_store_lookup(domains, i);
        }
    }
    assert(left =~= right);
}

/// An entry put in the place of one of the same owner name replaces it
/// in the store.
proof fn lemma_store_set(domains: Seq<DomainEntry>, i: int, e: DomainEntry)
    requires
        distinct_names(domains),
        0 <= i < domains.len(),
        e.name.key() == key_at(domains, i),
    ensures
        distinct_names(domains.update(i, e)),
        store_view(domains.update(i, e)) == store_view(domains).insert(
            key_at(domains, i),
            records_view(e.records@),
        ),
{
    let changed = domains.update(i, e);
    let name = key_at(domains, i);
    assert forall|j: int| 0 <= j < domains.len() implies #[trigger] key_at(changed, j)
        == key_at(domains, j) by {}
    assert forall|a: int, b: int| 0 <= a < b < changed.len() implies #[trigger] key_at(
        changed,
        a,
    ) != #[trigger] key_at(changed, b) by {
        assert(key_at(domains, a) != key_at(domains, b));
    }
    let left = store_view(changed);
    let right = store_view(domains).insert(name, records_view(e.records@));
    assert forall|n: NameKey| left.contains_key(n) <==> right.contains_key(n) by {
        if has_name(changed, n) {
            let j = index_of_name(changed, n);
            assert(key_at(domains, j) == n);
        }
        if has_name(domains, n) {
            let j = index_of_name(domains, n);
            assert(key_at(changed, j) == n);
        }
        assert(key_at(changed, i) == name);
    }
    assert forall|n: NameKey| left.contains_key(n) implies #[trigger] left[n] == right[n] by {
        let j = index_of_name(changed, n);
        lemma_store_lookup(changed, j);
        assert(key_at(domains, j) == n);
        lemma_store_lookup(domains, j);
    }
    assert(left =~= right);
}

/// The aggregation store of one name server: for each owner name the
/// record identities seen under it, each with its statistics.
#[derive(Debug)]
pub struct AllDomains {
    domains: Vec<DomainEntry>,
}

impl View for AllDomains {
    type V = StoreView;

    closed spec fn view(&self) -> StoreView {
        store_view(self.domains@)
    }
}

/// Finds the entry with the identity of `record`.
fn find_record(entries: &Vec<RecordEntry>, record: &RecordWrapper) -> (out: Option<usize>)
    ensures
        out matches Some(p) ==> p < entries.len() && id_at(entries@, p as int)
            == record.identity(),
        out is None ==> !has_id(entries@, record.identity()),
{
    let mut p: usize = 0;
    while p < entries.len()
        invariant
            0 <= p <= entries.len(),
            forall|q: int| 0 <= q < p ==> #[trigger] id_at(entries@, q) != record.identity(),
        decreases entries.len() - p,
    {
        if entries[p].record.same_identity(record) {
            return Some(p);
        }
        p += 1;
    }
    None
}

impl AllDomains {
    /// Whether the store holds each owner name once and each identity
    /// once, under its owner name.
    pub closed spec fn wf(&self) -> bool {
        store_wf(self.domains@)
    }

    /// The entries of the store, in the order in which it holds them.
    pub closed spec fn listing(&self) -> Seq<DomainEntry> {
        self.domains@
    }

    /// The owner names of the store, each with the identities of its
    /// records, in the order in which the store holds them: the order in
    /// which the owner names were entered.
    pub open spec fn answers(&self) -> Seq<Answers> {
        listing_answers(self.listing())
    }

    /// The empty store.
    pub fn new() -> (out: AllDomains)
        ensures
            out.wf(),
            out@ == Map::<NameKey, RecordsView>::empty(),
            out.answers() == Seq::<Answers>::empty(),
    {
        let out = AllDomains { domains: Vec::new() };
        proof {
            assert(out@ =~= Map::<NameKey, RecordsView>::empty());
            assert(out.answers() =~= Seq::<Answers>::empty());
        }
        out
    }

    /// Finds the entry of the owner name `name`.
    fn find_name(&self, name: &DomainName) -> (out: Option<usize>)
        ensures
            out matches Some(i) ==> i < self.domains.len() && key_at(self.domains@, i as int)
                == name.key(),
            out is None ==> !has_name(self.domains@, name.key()),
    {
        let mut i: usize = 0;
        while i < self.domains.len()
            invariant
                0 <= i <= self.domains.len(),
                forall|j: int| 0 <= j < i ==> #[trigger] key_at(self.domains@, j) != name.key(),
            decreases self.domains.len() - i,
        {
            if self.domains[i].name.same_name(name) {
                return Some(i);
            }
            i += 1;
        }
        None
    }

    /// Whether the store holds the owner name `name`.
    pub fn contains_name(&self, name: &DomainName) -> (r: bool)
        requires
            self.wf(),
        ensures
            r == self@.contains_key(name.key()),
    {
        match self.find_name(name) {
            Some(i) => true,
            None => false,
        }
    }

    /// The statistics that the store holds for the identity of `record`.
    pub fn get(&self, record: &RecordWrapper) -> (out: Option<&DomainStat>)
        requires
            self.wf(),
        ensures
            match out {
                Some(stat) => records_in(self@, record.identity().name).contains_key(
                    record.identity(),
                ) && stat@ == self@[record.identity().name][record.identity()],
                None => !records_in(self@, record.identity().name).contains_key(
                    record.identity(),
                ),
            },
    {
        match self.find_name(&record.get().name) {
            Some(i) => {
                proof {
                    lemma_store_lookup(self.domains@, i as int);
                }
                match find_record(&self.domains[i].records, record) {
                    Some(p) => {
                        proof {
                            lemma_records_lookup(self.domains@[i as int].records@, p as int);
                        }
                        Some(&self.domains[i].records[p].stat)
                    },
                    None => None,
                }
            },
            None => None,
        }
    }

    /// Adds `stat` to what the store holds for the identity of `record`:
    /// the counts are added and the TTL sets united. An identity or an
    /// owner name that the store does not hold yet is entered.
    pub fn insert_stat(&mut self, record: RecordWrapper, stat: DomainStat)
        requires
            old(self).wf(),
            stat_in(records_in(old(self)@, record.identity().name), record.identity()).counts
                + stat.counts <= usize::MAX,
        ensures
            final(self).wf(),
            final(self)@ == with_stat(old(self)@, record.identity(), stat@),
            final(self).answers() == taken_in(
                old(self).answers(),
                Answers { name: record.identity().name, ids: set![record.identity()] },
            ),
    {
        let ghost id = record.identity();
        let ghost start = self.domains@;
        let ghost one = Answers { name: id.name, ids: set![id] };
        let found = self.find_name(&record.get().name);
        let i = match found {
            Some(i) => {
                proof {
                    lemma_store_lookup(start, i as int);
                }
                i
            },
            None => {
                let entry = DomainEntry {
                    name: record.get().name.duplicate(),
                    records: Vec::new(),
                };
                proof {
                    lemma_store_push(start, entry);
                    assert(records_view(entry.records@) =~= Map::<
                        RecordIdentity,
                        StatView,
                    >::empty());
                    lemma_wf_push(start, entry);
                    lemma_store_lookup(start.push(entry), start.len() as int);
                }
                self.domains.push(entry);
                self.domains.len() - 1
            },
        };
        let ghost mid = self.domains@;
        let ghost held = records_in(store_view(start), id.name);
        assert(store_wf(mid));
        assert(key_at(mid, i as int) == id.name);
        assert(records_view(mid[i as int].records@) == held);
        assert(store_view(mid) == store_view(start).insert(id.name, held));
        match find_record(&self.domains[i].records, &record) {
            Some(p) => {
                proof {
                    lemma_records_lookup(mid[i as int].records@, p as int);
                }
                self.domains[i].records[p].stat.counts += stat.counts;
                add_all(&mut self.domains[i].records[p].stat.ttls, &stat.ttls);
                proof {
                    let entry = self.domains@[i as int];
                    let e = entry.records@[p as int];
                    assert(entry.records@ == mid[i as int].records@.update(p as int, e));
                    assert(self.domains@ == mid.update(i as int, entry));
                    lemma_records_set(mid[i as int].records@, p as int, e);
                    lemma_store_set(mid, i as int, entry);
                    assert(e.stat@ == merge_stat(stat_in(held, id), stat@));
                    assert(answers_of(entry).ids =~= held.dom().union(one.ids));
                    assert(entry_wf(key_at(mid, i as int), mid[i as int].records@));
                    assert forall|q: int| 0 <= q < entry.records@.len() implies (#[trigger] id_at(
                        entry.records@,
                        q,
                    )).name == entry.name.key() by {
                        assert(id_at(entry.records@, q) == id_at(mid[i as int].records@, q));
                    }
                    lemma_wf_set(mid, i as int, entry);
                }
            },
            None => {
                let ghost e = RecordEntry { record, stat };
                self.domains[i].records.push(RecordEntry { record, stat });
                proof {
                    let entry = self.domains@[i as int];
                    assert(entry.records@ == mid[i as int].records@.push(e));
                    assert(self.domains@ == mid.update(i as int, entry));
                    lemma_records_push(mid[i as int].records@, e);
                    lemma_store_set(mid, i as int, entry);
                    assert(merge_stat(no_stat(), stat@) == stat@);
                    assert(answers_of(entry).ids =~= held.dom().union(one.ids));
                    assert(entry_wf(key_at(mid, i as int), mid[i as int].records@));
                    assert forall|q: int| 0 <= q < entry.records@.len() implies (#[trigger] id_at(
                        entry.records@,
                        q,
                    )).name == entry.name.key() by {
                        if q < mid[i as int].records@.len() {
                            assert(id_at(entry.records@, q) == id_at(mid[i as int].records@, q));
                        }
                    }
                    lemma_wf_set(mid, i as int, entry);
                }
            },
        }
        proof {
            assert(self@ =~= with_stat(store_view(start), id, stat@));
            let entry = self.domains@[i as int];
            if found is Some {
                assert(self.domains@ == start.update(i as int, entry));
                lemma_taken_in_at(start, i as int, entry, one);
            } else {
                assert(self.domains@ == start.push(entry));
                assert(held =~= Map::<RecordIdentity, StatView>::empty());
                assert(answers_of(entry).ids =~= one.ids);
                lemma_taken_in_new(start, entry, one);
            }
        }
    }

    /// The number of owner names that the store holds.
    pub fn len(&self) -> (out: usize)
        requires
            self.wf(),
        ensures
            self@.dom().finite(),
            out == self@.dom().len(),
    {
        proof {
            lemma_store_names(self.domains@);
        }
        self.domains.len()
    }

    /// The largest count of the store; zero for a store without a record.
    pub fn max_count(&self) -> (out: usize)
        requires
            self.wf(),
        ensures
            forall|name: NameKey, id: RecordIdentity|
                (#[trigger] stat_in(records_in(self@, name), id)).counts <= out,
            out > 0 ==> exists|name: NameKey, id: RecordIdentity|
                (#[trigger] stat_in(records_in(self@, name), id)).counts == out,
    {
        let mut out: usize = 0;
        let mut i: usize = 0;
        while i < self.domains.len()
            invariant
                0 <= i <= self.domains.len(),
                self.wf(),
                out > 0 ==> exists|a: int, p: int|
                    0 <= a < self.domains@.len() && 0 <= p < self.domains@[a].records@.len() && (
                    #[trigger] self.domains@[a].records@[p]).stat.counts == out,
                forall|a: int, p: int|
                    0 <= a < i && 0 <= p < self.domains@[a].records@.len() ==> (
                    #[trigger] self.domains@[a].records@[p]).stat.counts <= out,
            decreases self.domains.len() - i,
        {
            let records = &self.domains[i].records;
            let mut p: usize = 0;
            while p < records.len()
                invariant
                    0 <= p <= records.len(),
                    i < self.domains.len(),
                    records == &self.domains@[i as int].records,
                    out > 0 ==> exists|a: int, q: int|
                        0 <= a < self.domains@.len() && 0 <= q < self.domains@[a].records@.len()
                            && (#[trigger] self.domains@[a].records@[q]).stat.counts == out,
                    forall|a: int, q: int|
                        0 <= a < i && 0 <= q < self.domains@[a].records@.len() ==> (
                        #[trigger] self.domains@[a].records@[q]).stat.counts <= out,
                    forall|q: int| 0 <= q < p ==> (#[trigger] records@[q]).stat.counts <= out,
                decreases records.len() - p,
            {
                if records[p].stat.counts > out {
                    out = records[p].stat.counts;
                    assert(self.domains@[i as int].records@[p as int].stat.counts == out);
                }
                p += 1;
            }
            i += 1;
        }
        proof {
            assert forall|name: NameKey, id: RecordIdentity|
                (#[trigger] stat_in(records_in(self@, name), id)).counts <= out by {
                if has_name(self.domains@, name) {
                    let a = index_of_name(self.domains@, name);
                    lemma_store_lookup(self.domains@, a);
                    let entries = self.domains@[a].records@;
                    if has_id(entries, id) {
                        let q = index_of_id(entries, id);
                        assert(entry_wf(key_at(self.domains@, a), entries));
                        lemma_records_lookup(entries, q);
                        assert(entries[q].stat.counts <= out);
                    }
                }
            }
            if out > 0 {
                let (a, q) = choose|a: int, q: int|
                    0 <= a < self.domains@.len() && 0 <= q < self.domains@[a].records@.len() && (
                    #[trigger] self.domains@[a].records@[q]).stat.counts == out;
                let entries = self.domains@[a].records@;
                lemma_store_lookup(self.domains@, a);
                assert(entry_wf(key_at(self.domains@, a), entries));
                lemma_records_lookup(entries, q);
                assert(stat_in(records_in(self@, key_at(self.domains@, a)), id_at(entries, q)).counts
                    == out);
            }
        }
        out
    }

    /// The listing of a store is what the store holds.
    pub proof fn lemma_listing(&self)
        requires
            self.wf(),
        ensures
            store_wf(self.listing()),
            store_view(self.listing()) == self@,
    {
    }

    /// The entries of the store: each owner name once, with its records.
    pub fn entries(&self) -> (out: &Vec<DomainEntry>)
        requires
            self.wf(),
        ensures
            out@ == self.listing(),
            store_wf(out@),
            store_view(out@) == self@,
    {
        &self.domains
    }

    /// Counts one more observation of `record`: its identity is looked up
    /// or entered under its owner name, the count grows by one, and the
    /// TTL joins the TTLs seen.
    pub fn update(&mut self, record: Record)
        requires
            old(self).wf(),
            stat_in(
                records_in(old(self)@, identity_of(record).name),
                identity_of(record),
            ).counts < usize::MAX,
        ensures
            final(self).wf(),
            final(self)@ == observe(old(self)@, record),
            final(self).answers() == taken_in(
                old(self).answers(),
                Answers { name: identity_of(record).name, ids: set![identity_of(record)] },
            ),
    {
        broadcast use vstd::std_specs::hash::group_hash_axioms;

        let mut ttls: HashSet<u32> = HashSet::new();
        ttls.insert(record.ttl);
        let stat = DomainStat { counts: 1, ttls };
        proof {
            assert(stat@.ttls =~= set![record.ttl]);
            assert(stat@ == seen_once(record.ttl));
        }
        self.insert_stat(RecordWrapper::new(record), stat);
    }

    /// Enters the owner name `name`, with no record, unless the store
    /// holds it.
    pub fn touch(&mut self, name: &DomainName)
        requires
            old(self).wf(),
        ensures
            final(self).wf(),
            final(self)@ == old(self)@.insert(name.key(), records_in(old(self)@, name.key())),
            final(self).answers() == taken_in(
                old(self).answers(),
                Answers { name: name.key(), ids: Set::empty() },
            ),
    {
        let ghost start = self.domains@;
        let ghost none = Answers { name: name.key(), ids: Set::<RecordIdentity>::empty() };
        match self.find_name(name) {
            Some(i) => {
                proof {
                    lemma_store_lookup(start, i as int);
                    assert(self@ =~= self@.insert(name.key(), records_in(self@, name.key())));
                    assert(answers_of(start[i as int]).ids.union(none.ids) =~= answers_of(
                        start[i as int],
                    ).ids);
                    assert(start.update(i as int, start[i as int]) == start);
                    lemma_taken_in_at(start, i as int, start[i as int], none);
                }
            },
            None => {
                let entry = DomainEntry { name: name.duplicate(), records: Vec::new() };
                proof {
                    lemma_store_push(start, entry);
                    assert(records_view(entry.records@) =~= Map::<
                        RecordIdentity,
                        StatView,
                    >::empty());
                    lemma_wf_push(start, entry);
                    assert(answers_of(entry).ids =~= none.ids);
                    lemma_taken_in_new(start, entry, none);
                }
                self.domains.push(entry);
            },
        }
    }

    /// Takes in the records of one owner name: see [`AllDomains::merge`].
    fn absorb(&mut self, entry: DomainEntry)
        requires
            old(self).wf(),
            entry_wf(entry.name.key(), entry.records@),
            forall|id: RecordIdentity|
                stat_in(records_in(old(self)@, entry.name.key()), id).counts + (#[trigger] stat_in(
                    records_view(entry.records@),
                    id,
                )).counts <= usize::MAX,
        ensures
            final(self).wf(),
            final(self)@ == merge_views(
                old(self)@,
                map![entry.name.key() => records_view(entry.records@)],
            ),
            final(self).answers() == taken_in(old(self).answers(), answers_of(entry)),
    {
        let ghost start = self@;
        let ghost list = self.answers();
        let ghost key = entry.name.key();
        let ghost all = records_view(entry.records@);
        let ghost goal = merge_views(start, map![key => all]);
        let ghost mut done = Set::<RecordIdentity>::empty();
        proof {
            lemma_listing_distinct(self.domains@);
        }
        let DomainEntry { name, records } = entry;
        let mut rest = records;
        self.touch(&name);
        proof {
            lemma_touch_merge(start, key, all);
            assert(done.union(records_view(rest@).dom()) =~= all.dom());
        }
        while rest.len() > 0
            invariant
                self.wf(),
                self@.contains_key(key),
                entry_wf(key, rest@),
                forall|i: int, j: int|
                    0 <= i < j < list.len() ==> (#[trigger] list[i]).name != (
                    #[trigger] list[j]).name,
                self.answers() == taken_in(list, Answers { name: key, ids: done }),
                done.union(records_view(rest@).dom()) == all.dom(),
                merge_views(self@, map![key => records_view(rest@)]) == goal,
                goal == merge_views(start, map![key => all]),
                forall|id: RecordIdentity|
                    stat_in(records_in(start, key), id).counts + (#[trigger] stat_in(
                        all,
                        id,
                    )).counts <= usize::MAX,
            decreases rest.len(),
        {
            let ghost before = rest@;
            let ghost now = self@;
            let e = rest.pop().unwrap();
            let RecordEntry { record, stat } = e;
            proof {
                let id = record.identity();
                let p = before.len() - 1;
                assert(before == rest@.push(e));
                assert(id_at(before, p) == id);
                assert(id.name == key);
                assert(!has_id(rest@, id)) by {
                    if has_id(rest@, id) {
                        let q = index_of_id(rest@, id);
                        assert(id_at(before, q) == id_at(rest@, q));
                        assert(id_at(before, q) != id_at(before, p));
                    }
                }
                assert(distinct_ids(rest@)) by {
                    assert forall|a: int, b: int| 0 <= a < b < rest@.len() implies #[trigger] id_at(
                        rest@,
                        a,
                    ) != #[trigger] id_at(rest@, b) by {
                        assert(id_at(before, a) != id_at(before, b));
                    }
                }
                assert forall|q: int| 0 <= q < rest@.len() implies (#[trigger] id_at(
                    rest@,
                    q,
                )).name == key by {
                    assert(id_at(before, q) == id_at(rest@, q));
                }
                lemma_records_push(rest@, e);
                lemma_split_off(key, records_view(rest@), id, stat@);
                // the count that the identity ends with is within the machine's range
                lemma_records_in_merge(now, map![key => records_view(before)], key);
                lemma_stat_in_merge(records_in(now, key), records_view(before), id);
                lemma_records_in_merge(start, map![key => all], key);
                lemma_stat_in_merge(records_in(start, key), all, id);
                assert(stat_in(all, id).counts >= 0);
            }
            self.insert_stat(record, stat);
            proof {
                let id = record.identity();
                lemma_with_stat_is_merge(now, id, stat@);
                lemma_merge_associative(
                    now,
                    single(id, stat@),
                    map![key => records_view(rest@)],
                );
                lemma_taken_in_twice(list, key, done, set![id]);
                assert(done.insert(id).union(records_view(rest@).dom()) =~= done.union(
                    records_view(before).dom(),
                ));
                assert(done.union(set![id]) =~= done.insert(id));
                done = done.insert(id);
            }
        }
        proof {
            assert(records_view(rest@) =~= Map::<RecordIdentity, StatView>::empty());
            lemma_touch_merge(self@, key, Map::empty());
            assert(self@.insert(key, records_in(self@, key)) =~= self@);
            assert(done =~= all.dom());
        }
    }

    /// Takes in every record of `other`: an identity that both hold ends
    /// with the counts added and the TTL sets united, any other with what
    /// the one store held for it. The entries of `other` are taken in from
    /// its last to its first; an owner name that the store does not hold
    /// yet is put behind those that it holds.
    pub fn merge(&mut self, other: AllDomains)
        requires
            old(self).wf(),
            other.wf(),
            forall|name: NameKey, id: RecordIdentity|
                (#[trigger] stat_in(records_in(old(self)@, name), id)).counts + (#[trigger] stat_in(
                    records_in(other@, name),
                    id,
                )).counts <= usize::MAX,
        ensures
            final(self).wf(),
            final(self)@ == merge_views(old(self)@, other@),
            final(self).answers() == merged(old(self).answers(), other.answers()),
    {
        let ghost start = self@;
        let ghost goal = merge_views(start, other@);
        let ghost lists = merged(self.answers(), other.answers());
        let AllDomains { domains } = other;
        let mut rest = domains;
        while rest.len() > 0
            invariant
                self.wf(),
                store_wf(rest@),
                merge_views(self@, store_view(rest@)) == goal,
                merged(self.answers(), listing_answers(rest@)) == lists,
                forall|name: NameKey, id: RecordIdentity|
                    (#[trigger] stat_in(records_in(self@, name), id)).counts + (#[trigger] stat_in(
                        records_in(store_view(rest@), name),
                        id,
                    )).counts <= usize::MAX,
            decreases rest.len(),
        {
            let ghost before = rest@;
            let ghost now = self@;
            let entry = rest.pop().unwrap();
            proof {
                let key = entry.name.key();
                let recs = records_view(entry.records@);
                let p = before.len() - 1;
                assert(before == rest@.push(entry));
                assert(key_at(before, p) == key);
                assert(entry_wf(key_at(before, p), before[p].records@));
                assert(!has_name(rest@, key)) by {
                    if has_name(rest@, key) {
                        let q = index_of_name(rest@, key);
                        assert(key_at(before, q) == key_at(rest@, q));
                        assert(key_at(before, q) != key_at(before, p));
                    }
                }
                assert(store_wf(rest@)) by {
                    assert forall|a: int, b: int| 0 <= a < b < rest@.len() implies #[trigger] key_at(
                        rest@,
                        a,
                    ) != #[trigger] key_at(rest@, b) by {
                        assert(key_at(before, a) != key_at(before, b));
                    }
                    assert forall|j: int| 0 <= j < rest@.len() implies entry_wf(
                        #[trigger] key_at(rest@, j),
                        rest@[j].records@,
                    ) by {
                        assert(entry_wf(key_at(before, j), before[j].records@));
                    }
                }
                lemma_store_push(rest@, entry);
                lemma_new_name_merge(store_view(rest@), key, recs);
                lemma_store_lookup(before, p);
                assert forall|id: RecordIdentity|
                    stat_in(records_in(now, key), id).counts + (#[trigger] stat_in(
                        recs,
                        id,
                    )).counts <= usize::MAX by {
                    assert(stat_in(records_in(now, key), id).counts + stat_in(
                        records_in(store_view(before), key),
                        id,
                    ).counts <= usize::MAX);
                }
            }
            proof {
                let more = listing_answers(before);
                assert(more.drop_last() =~= listing_answers(rest@));
                assert(more.last() == answers_of(entry));
            }
            self.absorb(entry);
            proof {
                let key = entry.name.key();
                let recs = records_view(entry.records@);
                let one = map![key => recs];
                lemma_merge_associative(now, one, store_view(rest@));
                assert forall|name: NameKey, id: RecordIdentity|
                    (#[trigger] stat_in(records_in(self@, name), id)).counts + (#[trigger] stat_in(
                        records_in(store_view(rest@), name),
                        id,
                    )).counts <= usize::MAX by {
                    lemma_records_in_merge(now, one, name);
                    lemma_stat_in_merge(records_in(now, name), records_in(one, name), id);
                    lemma_records_in_merge(one, store_view(rest@), name);
                    lemma_stat_in_merge(
                        records_in(one, name),
                        records_in(store_view(rest@), name),
                        id,
                    );
                    assert(stat_in(records_in(now, name), id).counts + stat_in(
                        records_in(store_view(before), name),
                        id,
                    ).counts <= usize::MAX);
                }
            }
        }
        proof {
            assert(store_view(rest@) =~= Map::<NameKey, RecordsView>::empty());
            lemma_merge_empty(self@);
            assert(listing_answers(rest@).len() == 0);
        }
    }
}

/// Merging with the empty store changes nothing.
pub proof fn lemma_merge_empty(store: StoreView)
    ensures
        merge_views(store, Map::empty()) == store,
{
    let merged = merge_views(store, Map::empty());
    assert forall|name: NameKey| store.contains_key(name) implies #[trigger] merged[name]
        == store[name] by {
        let recs = store[name];
        assert forall|id: RecordIdentity| recs.contains_key(id) implies merge_stat(
            stat_in(recs, id),
            no_stat(),
        ) == recs[id] by {
            assert(recs[id].ttls.union(Set::empty()) =~= recs[id].ttls);
        }
        assert(merge_records(recs, Map::empty()) =~= recs);
    }
    assert(merged =~= store);
}

/// Entering an owner name is merging with the store that holds its
/// records, once no record of that store is left to take in.
proof fn lemma_touch_merge(store: StoreView, key: NameKey, recs: RecordsView)
    ensures
        merge_views(store.insert(key, records_in(store, key)), map![key => recs]) == merge_views(
            store,
            map![key => recs],
        ),
        recs == Map::<RecordIdentity, StatView>::empty() ==> merge_views(store, map![key => recs])
            == store.insert(key, records_in(store, key)),
{
    let touched = store.insert(key, records_in(store, key));
    let one = map![key => recs];
    let left = merge_views(touched, one);
    let right = merge_views(store, one);
    assert forall|name: NameKey| left.contains_key(name) implies #[trigger] left[name]
        == right[name] by {
        assert(records_in(touched, name) == records_in(store, name));
    }
    assert(left =~= right);
    if recs == Map::<RecordIdentity, StatView>::empty() {
        assert forall|name: NameKey| right.contains_key(name) implies #[trigger] right[name]
            == touched[name] by {
            let held = records_in(store, name);
            assert(records_in(one, name) =~= Map::<RecordIdentity, StatView>::empty());
            assert forall|id: RecordIdentity| held.contains_key(id) implies merge_stat(
                stat_in(held, id),
                no_stat(),
            ) == held[id] by {
                assert(held[id].ttls.union(Set::empty()) =~= held[id].ttls);
            }
            assert(merge_records(held, Map::empty()) =~= held);
        }
        assert(right =~= touched);
    }
}

/// The records of one owner name, one identity apart: merging the part
/// with that identity and the part without it gives all of them.
proof fn lemma_split_off(
    key: NameKey,
    recs: RecordsView,
    id: RecordIdentity,
    stat: StatView,
)
    requires
        id.name == key,
        !recs.contains_key(id),
    ensures
        merge_views(single(id, stat), map![key => recs]) == map![key => recs.insert(id, stat)],
{
    let left = merge_views(single(id, stat), map![key => recs]);
    let right = map![key => recs.insert(id, stat)];
    let a = map![id => stat];
    assert(single(id, stat)[key] == a);
    assert forall|i: RecordIdentity| a.contains_key(i) || recs.contains_key(i) implies merge_stat(
        stat_in(a, i),
        stat_in(recs, i),
    ) == recs.insert(id, stat)[i] by {
        if i == id {
            assert(stat.ttls.union(Set::empty()) =~= stat.ttls);
        } else {
            assert(Set::<u32>::empty().union(recs[i].ttls) =~= recs[i].ttls);
        }
    }
    assert(merge_records(a, recs) =~= recs.insert(id, stat));
    assert(left =~= right);
}

/// A store and the records of an owner name that it does not hold:
/// merging them enters the name with those records.
proof fn lemma_new_name_merge(store: StoreView, key: NameKey, recs: RecordsView)
    requires
        !store.contains_key(key),
    ensures
        merge_views(map![key => recs], store) == store.insert(key, recs),
{
    let one = map![key => recs];
    let left = merge_views(one, store);
    let right = store.insert(key, recs);
    assert forall|name: NameKey| left.contains_key(name) implies #[trigger] left[name]
        == right[name] by {
        if name == key {
            assert forall|id: RecordIdentity| recs.contains_key(id) implies merge_stat(
                stat_in(recs, id),
                no_stat(),
            ) == recs[id] by {
                assert(recs[id].ttls.union(Set::empty()) =~= recs[id].ttls);
            }
            assert(merge_records(recs, Map::empty()) =~= recs);
        } else {
            let held = store[name];
            assert(records_in(one, name) =~= Map::<RecordIdentity, StatView>::empty());
            assert forall|id: RecordIdentity| held.contains_key(id) implies merge_stat(
                no_stat(),
                stat_in(held, id),
            ) == held[id] by {
                assert(Set::<u32>::empty().union(held[id].ttls) =~= held[id].ttls);
            }
            assert(merge_records(Map::empty(), held) =~= held);
        }
    }
    assert(left =~= right);
}

/// A store stays one where an entry of a new owner name is added.
proof fn lemma_wf_push(domains: Seq<DomainEntry>, e: DomainEntry)
    requires
        store_wf(domains),
        !has_name(domains, e.name.key()),
        entry_wf(e.name.key(), e.records@),
    ensures
        store_wf(domains.push(e)),
{
    let more = domains.push(e);
    lemma_store_push(domains, e);
    assert forall|j: int| 0 <= j < more.len() implies entry_wf(
        #[trigger] key_at(more, j),
        more[j].records@,
    ) by {
        if j < domains.len() {
            assert(entry_wf(key_at(domains, j), domains[j].records@));
        }
    }
}

/// A store stays one where one entry is replaced by an entry of the same
/// owner name that is well formed.
proof fn lemma_wf_set(domains: Seq<DomainEntry>, i: int, e: DomainEntry)
    requires
        store_wf(domains),
        0 <= i < domains.len(),
        e.name.key() == key_at(domains, i),
        distinct_ids(e.records@),
        forall|p: int|
            0 <= p < e.records@.len() ==> (#[trigger] id_at(e.records@, p)).name == e.name.key(),
    ensures
        store_wf(domains.update(i, e)),
{
    let changed = domains.update(i, e);
    lemma_store_set(domains, i, e);
    assert forall|j: int| 0 <= j < changed.len() implies entry_wf(
        #[trigger] key_at(changed, j),
        changed[j].records@,
    ) by {
        if j != i {
            assert(entry_wf(key_at(domains, j), domains[j].records@));
        }
    }
}

/// The owner name keys of the entries, in order.
pub open spec fn keys_of(domains: Seq<DomainEntry>) -> Seq<NameKey> {
    Seq::new(domains.len(), |i: int| key_at(domains, i))
}

/// A store holds as many owner names as it has entries.
pub proof fn lemma_store_names(domains: Seq<DomainEntry>)
    requires
        distinct_names(domains),
    ensures
        store_view(domains).dom() == keys_of(domains).to_set(),
        keys_of(domains).no_duplicates(),
        store_view(domains).dom().finite(),
        store_view(domains).dom().len() == domains.len(),
{
    let keys = keys_of(domains);
    assert forall|i: int, j: int| 0 <= i < keys.len() && 0 <= j < keys.len() && i != j implies keys[i]
        != keys[j] by {
        if i < j {
            assert(key_at(domains, i) != key_at(domains, j));
        } else {
            assert(key_at(domains, j) != key_at(domains, i));
        }
    }
    assert forall|name: NameKey| store_view(domains).dom().contains(name) <==> keys.to_set().contains(
        name,
    ) by {
        if has_name(domains, name) {
            let i = index_of_name(domains, name);
            assert(keys[i] == name);
        }
        if keys.to_set().contains(name) {
            let i = choose|i: int| 0 <= i < keys.len() && keys[i] == name;
            assert(key_at(domains, i) == name);
        }
    }
    assert(store_view(domains).dom() =~= keys.to_set());
    keys.unique_seq_to_set();
    vstd::seq_lib::seq_to_set_is_finite(keys);
}

/// The store after the records were observed one after the other.
pub open spec fn observe_all(store: StoreView, records: Seq<Record>) -> StoreView
    decreases records.len(),
{
    if records.len() == 0 {
        store
    } else {
        observe(observe_all(store, records.drop_last()), records.last())
    }
}

/// An observation takes nothing away: every count stays or grows, and
/// every TTL that was seen stays seen.
pub proof fn lemma_observe_grows(store: StoreView, r: Record, name: NameKey, id: RecordIdentity)
    ensures
        stat_in(records_in(store, name), id).counts <= stat_in(
            records_in(observe(store, r), name),
            id,
        ).counts,
        stat_in(records_in(store, name), id).ttls.subset_of(
            stat_in(records_in(observe(store, r), name), id).ttls,
        ),
{
}

/// A merge takes nothing away from either store.
pub proof fn lemma_merge_grows(a: StoreView, b: StoreView, name: NameKey, id: RecordIdentity)
    ensures
        stat_in(records_in(a, name), id).counts <= stat_in(
            records_in(merge_views(a, b), name),
            id,
        ).counts,
        stat_in(records_in(a, name), id).ttls.subset_of(
            stat_in(records_in(merge_views(a, b), name), id).ttls,
        ),
        stat_in(records_in(b, name), id).counts <= stat_in(
            records_in(merge_views(a, b), name),
            id,
        ).counts,
        stat_in(records_in(b, name), id).ttls.subset_of(
            stat_in(records_in(merge_views(a, b), name), id).ttls,
        ),
{
    lemma_records_in_merge(a, b, name);
    lemma_stat_in_merge(records_in(a, name), records_in(b, name), id);
}

/// The records of a run, observed in two parts into two stores that are
/// merged, give what observing all of them into one store gives.
pub proof fn lemma_parts_merge(first: Seq<Record>, second: Seq<Record>)
    ensures
        observe_all(Map::empty(), first + second) == merge_views(
            observe_all(Map::empty(), first),
            observe_all(Map::empty(), second),
        ),
    decreases second.len(),
{
    let start = Map::<NameKey, RecordsView>::empty();
    if second.len() == 0 {
        assert(first + second == first);
        lemma_merge_empty(observe_all(start, first));
    } else {
        let rest = second.drop_last();
        lemma_parts_merge(first, rest);
        assert((first + second).drop_last() == first + rest);
        assert((first + second).last() == second.last());
        lemma_observe_merge(observe_all(start, first), observe_all(start, rest), second.last());
    }
}

/// One observation raises no count by more than one.
pub proof fn lemma_observe_counts(store: StoreView, r: Record, name: NameKey, id: RecordIdentity)
    ensures
        stat_in(records_in(observe(store, r), name), id).counts <= stat_in(
            records_in(store, name),
            id,
        ).counts + 1,
{
}

} // verus!
