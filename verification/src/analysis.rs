//! Comparing the stores of several name servers: how many of the ranked
//! domain names each holds, and how far their owner names and their
//! records overlap.

use crate::batch::{names, part, part_count, part_end, lemma_part_bounds, lemma_part_index};
use crate::collect::asked_key;
use crate::store::{
    answers_of, distinct_names, has_id, has_name, id_at, index_of_name, key_at, listing_answers,
    records_view, store_view, AllDomains, Answers, DomainEntry, RecordEntry, StoreView,
};
use crate::name::{DomainName, NameKey};
use crate::record_wrapper::RecordIdentity;
use crate::sets::{lemma_union_step, union_of};
use vstd::prelude::*;

verus! {

/// The number of ranked domain names in one bin of the distribution.
pub const BIN_SIZE: usize = 100;

/// The number of ranked domain names that the distribution looks at.
pub const TOP_K: usize = 100000;

/// The key of the same labels without the fully-qualified mark.
pub open spec fn relative(k: NameKey) -> NameKey {
    NameKey { labels: k.labels, fqdn: false }
}

/// Whether the store holds an owner name of the labels of `k`, fully
/// qualified or not: both sides are compared in fully-qualified form.
pub open spec fn holds_labels(store: StoreView, k: NameKey) -> bool {
    store.contains_key(k) || store.contains_key(relative(k))
}

/// How many of the domain names `texts` the store holds as owner names,
/// both sides taken in fully-qualified form. A text that is no domain
/// name is held by no store.
pub open spec fn present(texts: Seq<Seq<char>>, store: StoreView) -> nat
    decreases texts.len(),
{
    if texts.len() == 0 {
        0
    } else {
        present(texts.drop_last(), store) + if asked_key(texts.last()) matches Some(k)
            && holds_labels(store, k) {
            1nat
        } else {
            0nat
        }
    }
}

/// No more names are held than there are names.
proof fn lemma_present_bound(texts: Seq<Seq<char>>, store: StoreView)
    ensures
        present(texts, store) <= texts.len(),
    decreases texts.len(),
{
    if texts.len() > 0 {
        lemma_present_bound(texts.drop_last(), store);
    }
}

/// Whether `forms` holds what the domain name `text` is looked up under:
/// its fully-qualified form and the same labels without the mark, or
/// nothing where the text is no domain name.
pub open spec fn forms_of(text: Seq<char>, forms: Option<(DomainName, DomainName)>) -> bool {
    match forms {
        Some(pair) => asked_key(text) == Some(pair.0.key()) && pair.1.key() == relative(
            pair.0.key(),
        ),
        None => asked_key(text) is None,
    }
}

/// What each domain name of `domain_names` is looked up under.
fn normalize(domain_names: &Vec<String>) -> (out: Vec<Option<(DomainName, DomainName)>>)
    ensures
        out@.len() == domain_names@.len(),
        forall|i: int| 0 <= i < out@.len() ==> forms_of(domain_names@[i]@, #[trigger] out@[i]),
{
    let mut out: Vec<Option<(DomainName, DomainName)>> = Vec::new();
    let mut i: usize = 0;
    while i < domain_names.len()
        invariant
            0 <= i <= domain_names.len(),
            out@.len() == i,
            forall|k: int| 0 <= k < i ==> forms_of(domain_names@[k]@, #[trigger] out@[k]),
        decreases domain_names.len() - i,
    {
        let forms = match DomainName::parse(domain_names[i].as_str()) {
            Some(name) => {
                let bare = name.duplicate().with_fqdn(false);
                Some((name.with_fqdn(true), bare))
            },
            None => None,
        };
        out.push(forms);
        i += 1;
    }
    out
}

/// The distribution of the ranked domain names over the stores: one row
/// for each bin of `bin_size` names, in rank order, and in each row one
/// count for each store, in the order of the stores: how many names of
/// the bin the store holds as owner names, both sides taken in
/// fully-qualified form.
pub fn distribution(top_domains: &Vec<String>, stores: &Vec<AllDomains>, bin_size: usize) -> (out:
    Vec<Vec<usize>>)
    requires
        bin_size > 0,
        forall|s: int| 0 <= s < stores@.len() ==> (#[trigger] stores@[s]).wf(),
    ensures
        out@.len() == part_count(top_domains@.len(), bin_size as nat),
        forall|b: int|
            0 <= b < out@.len() ==> (#[trigger] out@[b])@.len() == stores@.len(),
        forall|b: int, s: int|
            0 <= b < out@.len() && 0 <= s < stores@.len() ==> (#[trigger] out@[b]@[s]) == present(
                part(names(top_domains@), bin_size as nat, b as nat),
                stores@[s]@,
            ),
{
    let full = normalize(top_domains);
    let ghost texts = names(top_domains@);
    let total = top_domains.len();
    let mut out: Vec<Vec<usize>> = Vec::new();
    let mut from: usize = 0;
    proof {
        lemma_part_index(total as nat, bin_size as nat, 0);
        assert(0 * bin_size == 0) by (nonlinear_arith);
    }
    while from < total
        invariant
            bin_size > 0,
            total == top_domains@.len(),
            texts == names(top_domains@),
            full@.len() == total,
            forall|i: int| 0 <= i < full@.len() ==> forms_of(top_domains@[i]@, #[trigger] full@[i]),
            forall|s: int| 0 <= s < stores@.len() ==> (#[trigger] stores@[s]).wf(),
            from <= total,
            out@.len() <= part_count(total as nat, bin_size as nat),
            from == if out@.len() == 0 {
                0
            } else {
                part_end(total as nat, bin_size as nat, (out@.len() - 1) as nat)
            },
            from < total ==> out@.len() < part_count(total as nat, bin_size as nat),
            from == total ==> out@.len() == part_count(total as nat, bin_size as nat),
            forall|b: int| 0 <= b < out@.len() ==> (#[trigger] out@[b])@.len() == stores@.len(),
            forall|b: int, s: int|
                0 <= b < out@.len() && 0 <= s < stores@.len() ==> (#[trigger] out@[b]@[s])
                    == present(part(texts, bin_size as nat, b as nat), stores@[s]@),
        decreases total - from,
    {
        let ghost b = out@.len();
        proof {
            lemma_part_bounds(total as nat, bin_size as nat, b);
            if b > 0 {
                lemma_part_bounds(total as nat, bin_size as nat, (b - 1) as nat);
                assert((b - 1 + 1) * bin_size == b * bin_size);
            } else {
                assert(0 * bin_size == 0) by (nonlinear_arith);
            }
            assert(from == b * bin_size);
            assert((b + 1) * bin_size == b * bin_size + bin_size) by (nonlinear_arith);
        }
        let end = if total - from < bin_size {
            total
        } else {
            from + bin_size
        };
        let ghost bin = part(texts, bin_size as nat, b);
        proof {
            assert(bin == texts.subrange(from as int, end as int));
        }
        let mut row: Vec<usize> = Vec::new();
        let mut s: usize = 0;
        while s < stores.len()
            invariant
                0 <= s <= stores.len(),
                from <= end <= total,
                total == top_domains@.len(),
                texts == names(top_domains@),
                bin == texts.subrange(from as int, end as int),
                full@.len() == total,
                forall|i: int|
                    0 <= i < full@.len() ==> forms_of(top_domains@[i]@, #[trigger] full@[i]),
                forall|t: int| 0 <= t < stores@.len() ==> (#[trigger] stores@[t]).wf(),
                row@.len() == s,
                forall|t: int| 0 <= t < s ==> (#[trigger] row@[t]) == present(bin, stores@[t]@),
            decreases stores.len() - s,
        {
            let mut count: usize = 0;
            let mut i: usize = from;
            proof {
                assert(texts.subrange(from as int, from as int).len() == 0);
            }
            while i < end
                invariant
                    from <= i <= end <= total,
                    s < stores.len(),
                    stores@[s as int].wf(),
                    total == top_domains@.len(),
                    texts == names(top_domains@),
                    full@.len() == total,
                    forall|i: int|
                        0 <= i < full@.len() ==> forms_of(top_domains@[i]@, #[trigger] full@[i]),
                    count == present(texts.subrange(from as int, i as int), stores@[s as int]@),
                    count <= i - from,
                decreases end - i,
            {
                proof {
                    let next = texts.subrange(from as int, i + 1);
                    assert(next.drop_last() == texts.subrange(from as int, i as int));
                    assert(next.last() == top_domains@[i as int]@);
                }
                proof {
                    assert(forms_of(top_domains@[i as int]@, full@[i as int]));
                }
                let held = match &full[i] {
                    Some(pair) => stores[s].contains_name(&pair.0) || stores[s].contains_name(
                        &pair.1,
                    ),
                    None => false,
                };
                if held {
                    count += 1;
                }
                i += 1;
            }
            row.push(count);
            s += 1;
        }
        out.push(row);
        from = end;
        proof {
            lemma_part_index(total as nat, bin_size as nat, b + 1);
        }
    }
    out
}

/// When two entries of different stores count as the same.
#[derive(Clone, Copy, Debug, PartialEq, Eq, Structural)]
pub enum Likeness {
    /// The owner names have the same key.
    Name,
    /// The owner names have the same key, and the entries share at least
    /// one record identity.
    Loose,
    /// The owner names have the same key, and the entries hold the same
    /// record identities.
    Strict,
}

/// Whether `a` and `b` count as the same.
pub open spec fn alike(how: Likeness, a: Answers, b: Answers) -> bool {
    a.name == b.name && match how {
        Likeness::Name => true,
        Likeness::Loose => exists|id: RecordIdentity| a.ids.contains(id) && b.ids.contains(id),
        Likeness::Strict => a.ids == b.ids,
    }
}

/// Whether `list` holds an entry that counts as the same as `x`.
pub open spec fn found(how: Likeness, list: Seq<Answers>, x: Answers) -> bool {
    exists|i: int| 0 <= i < list.len() && alike(how, x, #[trigger] list[i])
}

/// The entries of `a`, in order, that `b` holds a like of.
pub open spec fn common(how: Likeness, a: Seq<Answers>, b: Seq<Answers>) -> Seq<Answers>
    decreases a.len(),
{
    if a.len() == 0 {
        Seq::empty()
    } else {
        let rest = common(how, a.drop_last(), b);
        if found(how, b, a.last()) {
            rest.push(a.last())
        } else {
            rest
        }
    }
}

/// `held`, and behind it each entry of `more`, in order, that the list
/// does not hold a like of by then.
pub open spec fn gather(how: Likeness, held: Seq<Answers>, more: Seq<Answers>) -> Seq<Answers>
    decreases more.len(),
{
    if more.len() == 0 {
        held
    } else {
        let rest = gather(how, held, more.drop_last());
        if found(how, rest, more.last()) {
            rest
        } else {
            rest.push(more.last())
        }
    }
}

/// The lists gathered one after the other, from the empty list on.
pub open spec fn gather_all(how: Likeness, lists: Seq<Seq<Answers>>) -> Seq<Answers>
    decreases lists.len(),
{
    if lists.len() == 0 {
        Seq::empty()
    } else {
        gather(how, gather_all(how, lists.drop_last()), lists.last())
    }
}

/// The lists of several stores, in the order of the stores.
pub open spec fn store_lists(stores: Seq<AllDomains>) -> Seq<Seq<Answers>> {
    Seq::new(stores.len(), |s: int| stores[s].answers())
}

/// The pairs `(i, j)` with `j` from `i + 1` up to `n`, in rising order.
pub open spec fn pair_row(n: int, i: int) -> Seq<(int, int)> {
    Seq::new(
        if i + 1 < n {
            (n - i - 1) as nat
        } else {
            0nat
        },
        |t: int| (i, i + 1 + t),
    )
}

/// The pairs `(a, b)` with `a < b < n` and `a < i`, in rising order.
pub open spec fn pairs_before(n: int, i: int) -> Seq<(int, int)>
    decreases i,
{
    if i <= 0 {
        Seq::empty()
    } else {
        pairs_before(n, i - 1) + pair_row(n, i - 1)
    }
}

/// All pairs `(a, b)` with `a < b < n`, in rising order.
pub open spec fn all_pairs(n: int) -> Seq<(int, int)> {
    pairs_before(n, n)
}

/// The triples `(i, j, k)` with `k` from `j + 1` up to `n`, in rising
/// order.
pub open spec fn triple_row(n: int, i: int, j: int) -> Seq<(int, int, int)> {
    Seq::new(
        if j + 1 < n {
            (n - j - 1) as nat
        } else {
            0nat
        },
        |t: int| (i, j, j + 1 + t),
    )
}

/// The triples `(i, b, c)` with `i < b < c < n` and `b < j`, in rising
/// order.
pub open spec fn triples_with(n: int, i: int, j: int) -> Seq<(int, int, int)>
    decreases j - i,
{
    if j <= i + 1 {
        Seq::empty()
    } else {
        triples_with(n, i, j - 1) + triple_row(n, i, j - 1)
    }
}

/// The triples `(a, b, c)` with `a < b < c < n` and `a < i`, in rising
/// order.
pub open spec fn triples_before(n: int, i: int) -> Seq<(int, int, int)>
    decreases i,
{
    if i <= 0 {
        Seq::empty()
    } else {
        triples_before(n, i - 1) + triples_with(n, i - 1, n)
    }
}

/// All triples `(a, b, c)` with `a < b < c < n`, in rising order.
pub open spec fn all_triples(n: int) -> Seq<(int, int, int)> {
    triples_before(n, n)
}

/// What two stores have in common: the entries of the first that the
/// second holds a like of.
pub open spec fn pair_list(how: Likeness, lists: Seq<Seq<Answers>>, p: (int, int)) -> Seq<Answers> {
    common(how, lists[p.0], lists[p.1])
}

/// What three stores have in common: of what the first two have in
/// common, the entries that the third holds a like of.
pub open spec fn triple_list(how: Likeness, lists: Seq<Seq<Answers>>, t: (int, int, int)) -> Seq<
    Answers,
> {
    common(how, common(how, lists[t.0], lists[t.1]), lists[t.2])
}

/// What the stores of each of the given pairs have in common.
pub open spec fn pair_lists(how: Likeness, lists: Seq<Seq<Answers>>, pairs: Seq<(int, int)>) -> Seq<
    Seq<Answers>,
> {
    Seq::new(pairs.len(), |x: int| pair_list(how, lists, pairs[x]))
}

/// What the stores of each of the given triples have in common.
pub open spec fn triple_lists(
    how: Likeness,
    lists: Seq<Seq<Answers>>,
    triples: Seq<(int, int, int)>,
) -> Seq<Seq<Answers>> {
    Seq::new(triples.len(), |x: int| triple_list(how, lists, triples[x]))
}

/// Two stores and the number of entries that they have in common.
#[derive(Clone, Copy, Debug, PartialEq, Eq, Structural)]
pub struct PairCount {
    pub first: usize,
    pub second: usize,
    pub count: usize,
}

/// Three stores and the number of entries that they have in common.
#[derive(Clone, Copy, Debug, PartialEq, Eq, Structural)]
pub struct TripleCount {
    pub first: usize,
    pub second: usize,
    pub third: usize,
    pub count: usize,
}

/// How far the stores of several name servers overlap.
#[derive(Clone, Debug, PartialEq, Eq)]
pub struct OverlapReport {
    /// The number of entries of each store.
    pub sizes: Vec<usize>,
    /// The number of entries of all stores gathered.
    pub union: usize,
    /// For every two stores, in rising order, what they have in common.
    pub pairs: Vec<PairCount>,
    /// The number of entries that are gathered from what the pairs have
    /// in common.
    pub pair_union: usize,
    /// For every three stores, in rising order, what they have in common.
    pub triples: Vec<TripleCount>,
    /// The number of entries that are gathered from what the triples have
    /// in common.
    pub triple_union: usize,
}

/// Whether `r` reports the overlap of the given lists.
pub open spec fn reports(how: Likeness, lists: Seq<Seq<Answers>>, r: OverlapReport) -> bool {
    let n = lists.len() as int;
    &&& r.sizes@.len() == n
    &&& forall|s: int| 0 <= s < n ==> (#[trigger] r.sizes@[s]) == lists[s].len()
    &&& r.union == gather_all(how, lists).len()
    &&& r.pairs@.len() == all_pairs(n).len()
    &&& forall|x: int|
        0 <= x < r.pairs@.len() ==> {
            &&& (#[trigger] r.pairs@[x]).first == all_pairs(n)[x].0
            &&& r.pairs@[x].second == all_pairs(n)[x].1
            &&& r.pairs@[x].count == pair_list(how, lists, all_pairs(n)[x]).len()
        }
    &&& r.pair_union == gather_all(how, pair_lists(how, lists, all_pairs(n))).len()
    &&& r.triples@.len() == all_triples(n).len()
    &&& forall|x: int|
        0 <= x < r.triples@.len() ==> {
            &&& (#[trigger] r.triples@[x]).first == all_triples(n)[x].0
            &&& r.triples@[x].second == all_triples(n)[x].1
            &&& r.triples@[x].third == all_triples(n)[x].2
            &&& r.triples@[x].count == triple_list(how, lists, all_triples(n)[x]).len()
        }
    &&& r.triple_union == gather_all(how, triple_lists(how, lists, all_triples(n))).len()
}

/// Whether some record of `entries` has the identity of the record at
/// index `p` of `others`.
fn holds_id(entries: &Vec<RecordEntry>, others: &Vec<RecordEntry>, p: usize) -> (r: bool)
    requires
        p < others.len(),
    ensures
        r == has_id(entries@, id_at(others@, p as int)),
{
    let mut q: usize = 0;
    while q < entries.len()
        invariant
            0 <= q <= entries.len(),
            p < others.len(),
            forall|k: int| 0 <= k < q ==> #[trigger] id_at(entries@, k) != id_at(others@, p as int),
        decreases entries.len() - q,
    {
        if entries[q].record.same_identity(&others[p].record) {
            assert(id_at(entries@, q as int) == id_at(others@, p as int));
            return true;
        }
        q += 1;
    }
    false
}

/// Whether every record identity of `a` is one of `b`.
fn ids_within(a: &Vec<RecordEntry>, b: &Vec<RecordEntry>) -> (r: bool)
    ensures
        r == records_view(a@).dom().subset_of(records_view(b@).dom()),
{
    let mut p: usize = 0;
    while p < a.len()
        invariant
            0 <= p <= a.len(),
            forall|k: int| 0 <= k < p ==> has_id(b@, #[trigger] id_at(a@, k)),
        decreases a.len() - p,
    {
        if !holds_id(b, a, p) {
            proof {
                let id = id_at(a@, p as int);
                assert(has_id(a@, id));
                assert(records_view(a@).dom().contains(id));
                assert(!records_view(b@).dom().contains(id));
            }
            return false;
        }
        p += 1;
    }
    proof {
        assert forall|id: RecordIdentity| records_view(a@).dom().contains(id) implies records_view(
            b@,
        ).dom().contains(id) by {
            let k = choose|k: int| 0 <= k < a@.len() && #[trigger] id_at(a@, k) == id;
            assert(has_id(b@, id_at(a@, k)));
        }
    }
    true
}

/// Whether two entries count as the same.
pub fn alike_entries(how: Likeness, a: &DomainEntry, b: &DomainEntry) -> (r: bool)
    ensures
        r == alike(how, answers_of(*a), answers_of(*b)),
{
    if !a.name.same_name(&b.name) {
        return false;
    }
    match how {
        Likeness::Name => true,
        Likeness::Loose => {
            let mut p: usize = 0;
            while p < a.records.len()
                invariant
                    0 <= p <= a.records.len(),
                    a.name.key() == b.name.key(),
                    how == Likeness::Loose,
                    forall|k: int|
                        0 <= k < p ==> !has_id(b.records@, #[trigger] id_at(a.records@, k)),
                decreases a.records.len() - p,
            {
                if holds_id(&b.records, &a.records, p) {
                    proof {
                        let id = id_at(a.records@, p as int);
                        assert(has_id(a.records@, id));
                        let x = answers_of(*a);
                        let y = answers_of(*b);
                        assert(x.ids.contains(id) && y.ids.contains(id));
                        assert(alike(Likeness::Loose, x, y));
                    }
                    return true;
                }
                p += 1;
            }
            proof {
                assert forall|id: RecordIdentity|
                    !(answers_of(*a).ids.contains(id) && answers_of(*b).ids.contains(id)) by {
                    if answers_of(*a).ids.contains(id) {
                        let k = choose|k: int|
                            0 <= k < a.records@.len() && #[trigger] id_at(a.records@, k) == id;
                        assert(!has_id(b.records@, id_at(a.records@, k)));
                    }
                }
            }
            false
        },
        Likeness::Strict => {
            let forth = ids_within(&a.records, &b.records);
            let back = ids_within(&b.records, &a.records);
            proof {
                if forth && back {
                    assert(answers_of(*a).ids =~= answers_of(*b).ids);
                }
            }
            forth && back
        },
    }
}

/// Whether `x` points at an entry of one of the tables: the index of a
/// table, and of an entry of it.
pub open spec fn in_range(tables: Seq<&Vec<DomainEntry>>, x: (usize, usize)) -> bool {
    x.0 < tables.len() && x.1 < tables[x.0 as int]@.len()
}

/// Whether every element of `list` points at an entry.
pub open spec fn all_in_range(tables: Seq<&Vec<DomainEntry>>, list: Seq<(usize, usize)>) -> bool {
    forall|i: int| 0 <= i < list.len() ==> in_range(tables, #[trigger] list[i])
}

/// The entry that `x` points at.
pub open spec fn answers_at(tables: Seq<&Vec<DomainEntry>>, x: (usize, usize)) -> Answers {
    answers_of(tables[x.0 as int]@[x.1 as int])
}

/// The entries that the elements of `list` point at.
pub open spec fn resolve(tables: Seq<&Vec<DomainEntry>>, list: Seq<(usize, usize)>) -> Seq<
    Answers,
> {
    Seq::new(list.len(), |i: int| answers_at(tables, list[i]))
}

/// The lists of the tables, in order.
pub open spec fn table_lists(tables: Seq<&Vec<DomainEntry>>) -> Seq<Seq<Answers>> {
    Seq::new(tables.len(), |s: int| listing_answers(tables[s]@))
}

/// The entries that a list points at, one place put behind it.
proof fn lemma_resolve_push(
    tables: Seq<&Vec<DomainEntry>>,
    list: Seq<(usize, usize)>,
    x: (usize, usize),
)
    ensures
        resolve(tables, list.push(x)) == resolve(tables, list).push(answers_at(tables, x)),
        all_in_range(tables, list) && in_range(tables, x) ==> all_in_range(tables, list.push(x)),
{
    assert(resolve(tables, list.push(x)) =~= resolve(tables, list).push(answers_at(tables, x)));
}

/// Whether `list` points at an entry that counts as the same as the one
/// that `x` points at.
fn is_found(
    how: Likeness,
    tables: &Vec<&Vec<DomainEntry>>,
    list: &Vec<(usize, usize)>,
    x: (usize, usize),
) -> (r: bool)
    requires
        all_in_range(tables@, list@),
        in_range(tables@, x),
    ensures
        r == found(how, resolve(tables@, list@), answers_at(tables@, x)),
{
    let ghost all = resolve(tables@, list@);
    let mut i: usize = 0;
    while i < list.len()
        invariant
            0 <= i <= list.len(),
            all_in_range(tables@, list@),
            in_range(tables@, x),
            all == resolve(tables@, list@),
            forall|k: int| 0 <= k < i ==> !alike(how, answers_at(tables@, x), #[trigger] all[k]),
        decreases list.len() - i,
    {
        let y = list[i];
        proof {
            assert(in_range(tables@, list@[i as int]));
            assert(all[i as int] == answers_at(tables@, y));
        }
        if alike_entries(how, &tables[x.0][x.1], &tables[y.0][y.1]) {
            return true;
        }
        i += 1;
    }
    false
}

/// The elements of `a`, in order, that `b` points at a like of.
fn common_of(
    how: Likeness,
    tables: &Vec<&Vec<DomainEntry>>,
    a: &Vec<(usize, usize)>,
    b: &Vec<(usize, usize)>,
) -> (out: Vec<(usize, usize)>)
    requires
        all_in_range(tables@, a@),
        all_in_range(tables@, b@),
    ensures
        all_in_range(tables@, out@),
        resolve(tables@, out@) == common(how, resolve(tables@, a@), resolve(tables@, b@)),
{
    let ghost left = resolve(tables@, a@);
    let ghost right = resolve(tables@, b@);
    let mut out: Vec<(usize, usize)> = Vec::new();
    let mut i: usize = 0;
    proof {
        assert(left.take(0).len() == 0);
        assert(resolve(tables@, out@) =~= Seq::<Answers>::empty());
    }
    while i < a.len()
        invariant
            0 <= i <= a.len(),
            all_in_range(tables@, a@),
            all_in_range(tables@, b@),
            all_in_range(tables@, out@),
            left == resolve(tables@, a@),
            right == resolve(tables@, b@),
            resolve(tables@, out@) == common(how, left.take(i as int), right),
        decreases a.len() - i,
    {
        let x = a[i];
        proof {
            assert(in_range(tables@, a@[i as int]));
            assert(left.take(i + 1).drop_last() == left.take(i as int));
            assert(left.take(i + 1).last() == answers_at(tables@, x));
            lemma_resolve_push(tables@, out@, x);
        }
        if is_found(how, tables, b, x) {
            out.push(x);
        }
        i += 1;
    }
    proof {
        assert(left.take(a.len() as int) == left);
    }
    out
}

/// Puts behind `held` each element of `more`, in order, that the list
/// does not point at a like of by then.
fn gather_into(
    how: Likeness,
    tables: &Vec<&Vec<DomainEntry>>,
    held: &mut Vec<(usize, usize)>,
    more: &Vec<(usize, usize)>,
)
    requires
        all_in_range(tables@, old(held)@),
        all_in_range(tables@, more@),
    ensures
        all_in_range(tables@, final(held)@),
        resolve(tables@, final(held)@) == gather(
            how,
            resolve(tables@, old(held)@),
            resolve(tables@, more@),
        ),
{
    let ghost start = resolve(tables@, held@);
    let ghost extra = resolve(tables@, more@);
    let mut i: usize = 0;
    proof {
        assert(extra.take(0).len() == 0);
    }
    while i < more.len()
        invariant
            0 <= i <= more.len(),
            all_in_range(tables@, held@),
            all_in_range(tables@, more@),
            extra == resolve(tables@, more@),
            resolve(tables@, held@) == gather(how, start, extra.take(i as int)),
        decreases more.len() - i,
    {
        let x = more[i];
        proof {
            assert(in_range(tables@, more@[i as int]));
            assert(extra.take(i + 1).drop_last() == extra.take(i as int));
            assert(extra.take(i + 1).last() == answers_at(tables@, x));
            lemma_resolve_push(tables@, held@, x);
        }
        if !is_found(how, tables, held, x) {
            held.push(x);
        }
        i += 1;
    }
    proof {
        assert(extra.take(more.len() as int) == extra);
    }
}

/// The places of all entries of table `s`, in order.
fn places_of(tables: &Vec<&Vec<DomainEntry>>, s: usize) -> (out: Vec<(usize, usize)>)
    requires
        s < tables.len(),
    ensures
        all_in_range(tables@, out@),
        resolve(tables@, out@) == listing_answers(tables@[s as int]@),
{
    let mut out: Vec<(usize, usize)> = Vec::new();
    let mut e: usize = 0;
    while e < tables[s].len()
        invariant
            s < tables.len(),
            0 <= e <= tables@[s as int]@.len(),
            out@.len() == e,
            forall|k: int| 0 <= k < e ==> #[trigger] out@[k] == (s, k as usize),
        decreases tables@[s as int]@.len() - e,
    {
        out.push((s, e));
        e += 1;
    }
    proof {
        assert(resolve(tables@, out@) =~= listing_answers(tables@[s as int]@));
    }
    out
}

/// Whether `lists` holds, for each table, the places of its entries.
pub open spec fn lists_match(tables: Seq<&Vec<DomainEntry>>, lists: Seq<Vec<(usize, usize)>>) -> bool {
    &&& lists.len() == tables.len()
    &&& forall|s: int|
        0 <= s < lists.len() ==> all_in_range(tables, (#[trigger] lists[s])@) && resolve(
            tables,
            lists[s]@,
        ) == table_lists(tables)[s]
}

/// Whether `pairs` and `held` are what the pairs `seq` of the lists give:
/// for each pair what the two have in common, and all of that gathered.
pub open spec fn pairs_done(
    how: Likeness,
    lists: Seq<Seq<Answers>>,
    seq: Seq<(int, int)>,
    pairs: Seq<PairCount>,
    held: Seq<Answers>,
) -> bool {
    &&& pairs.len() == seq.len()
    &&& forall|x: int|
        0 <= x < pairs.len() ==> {
            &&& (#[trigger] pairs[x]).first == seq[x].0
            &&& pairs[x].second == seq[x].1
            &&& pairs[x].count == pair_list(how, lists, seq[x]).len()
        }
    &&& held == gather_all(how, pair_lists(how, lists, seq))
}

/// Whether `triples` and `held` are what the triples `seq` of the lists
/// give.
pub open spec fn triples_done(
    how: Likeness,
    lists: Seq<Seq<Answers>>,
    seq: Seq<(int, int, int)>,
    triples: Seq<TripleCount>,
    held: Seq<Answers>,
) -> bool {
    &&& triples.len() == seq.len()
    &&& forall|x: int|
        0 <= x < triples.len() ==> {
            &&& (#[trigger] triples[x]).first == seq[x].0
            &&& triples[x].second == seq[x].1
            &&& triples[x].third == seq[x].2
            &&& triples[x].count == triple_list(how, lists, seq[x]).len()
        }
    &&& held == gather_all(how, triple_lists(how, lists, seq))
}

/// What a further pair adds to what the pairs before it gave.
proof fn lemma_pairs_step(
    how: Likeness,
    lists: Seq<Seq<Answers>>,
    seq: Seq<(int, int)>,
    pairs: Seq<PairCount>,
    held: Seq<Answers>,
    p: (int, int),
    pc: PairCount,
)
    requires
        pairs_done(how, lists, seq, pairs, held),
        pc.first == p.0,
        pc.second == p.1,
        pc.count == pair_list(how, lists, p).len(),
    ensures
        pairs_done(
            how,
            lists,
            seq.push(p),
            pairs.push(pc),
            gather(how, held, pair_list(how, lists, p)),
        ),
{
    let more = pair_lists(how, lists, seq.push(p));
    assert(more.drop_last() =~= pair_lists(how, lists, seq));
    assert(more.last() == pair_list(how, lists, p));
}

/// What a further triple adds to what the triples before it gave.
proof fn lemma_triples_step(
    how: Likeness,
    lists: Seq<Seq<Answers>>,
    seq: Seq<(int, int, int)>,
    triples: Seq<TripleCount>,
    held: Seq<Answers>,
    t: (int, int, int),
    tc: TripleCount,
)
    requires
        triples_done(how, lists, seq, triples, held),
        tc.first == t.0,
        tc.second == t.1,
        tc.third == t.2,
        tc.count == triple_list(how, lists, t).len(),
    ensures
        triples_done(
            how,
            lists,
            seq.push(t),
            triples.push(tc),
            gather(how, held, triple_list(how, lists, t)),
        ),
{
    let more = triple_lists(how, lists, seq.push(t));
    assert(more.drop_last() =~= triple_lists(how, lists, seq));
    assert(more.last() == triple_list(how, lists, t));
}

/// The entries of each store as a table.
fn tables_of<'a>(stores: &'a Vec<AllDomains>) -> (out: Vec<&'a Vec<DomainEntry>>)
    requires
        forall|s: int| 0 <= s < stores@.len() ==> (#[trigger] stores@[s]).wf(),
    ensures
        out@.len() == stores@.len(),
        forall|s: int| 0 <= s < out@.len() ==> (#[trigger] out@[s])@ == stores@[s].listing(),
{
    let mut out: Vec<&'a Vec<DomainEntry>> = Vec::new();
    let mut s: usize = 0;
    while s < stores.len()
        invariant
            0 <= s <= stores.len(),
            forall|t: int| 0 <= t < stores@.len() ==> (#[trigger] stores@[t]).wf(),
            out@.len() == s,
            forall|t: int| 0 <= t < s ==> (#[trigger] out@[t])@ == stores@[t].listing(),
        decreases stores.len() - s,
    {
        out.push(stores[s].entries());
        s += 1;
    }
    out
}

/// For each table the places of its entries.
fn lists_of(tables: &Vec<&Vec<DomainEntry>>) -> (out: Vec<Vec<(usize, usize)>>)
    ensures
        lists_match(tables@, out@),
{
    let mut out: Vec<Vec<(usize, usize)>> = Vec::new();
    let mut s: usize = 0;
    while s < tables.len()
        invariant
            0 <= s <= tables.len(),
            out@.len() == s,
            forall|t: int|
                0 <= t < s ==> all_in_range(tables@, (#[trigger] out@[t])@) && resolve(
                    tables@,
                    out@[t]@,
                ) == table_lists(tables@)[t],
        decreases tables.len() - s,
    {
        let list = places_of(tables, s);
        out.push(list);
        s += 1;
    }
    out
}

/// The number of entries of all tables gathered.
fn count_union(how: Likeness, tables: &Vec<&Vec<DomainEntry>>, lists: &Vec<Vec<(usize, usize)>>) -> (out:
    usize)
    requires
        lists_match(tables@, lists@),
    ensures
        out == gather_all(how, table_lists(tables@)).len(),
{
    let ghost all = table_lists(tables@);
    let mut held: Vec<(usize, usize)> = Vec::new();
    let mut s: usize = 0;
    proof {
        assert(all.take(0).len() == 0);
        assert(resolve(tables@, held@) =~= Seq::<Answers>::empty());
    }
    while s < lists.len()
        invariant
            0 <= s <= lists.len(),
            lists_match(tables@, lists@),
            all == table_lists(tables@),
            all_in_range(tables@, held@),
            resolve(tables@, held@) == gather_all(how, all.take(s as int)),
        decreases lists.len() - s,
    {
        proof {
            assert(all.take(s + 1).drop_last() == all.take(s as int));
            assert(all.take(s + 1).last() == all[s as int]);
        }
        gather_into(how, tables, &mut held, &lists[s]);
        s += 1;
    }
    proof {
        assert(all.take(lists.len() as int) == all);
    }
    held.len()
}

/// For every two tables what they have in common, and the number of
/// entries gathered from that.
fn count_pairs(how: Likeness, tables: &Vec<&Vec<DomainEntry>>, lists: &Vec<Vec<(usize, usize)>>) -> (out:
    (Vec<PairCount>, usize))
    requires
        lists_match(tables@, lists@),
    ensures
        pairs_done(
            how,
            table_lists(tables@),
            all_pairs(lists@.len() as int),
            out.0@,
            gather_all(
                how,
                pair_lists(how, table_lists(tables@), all_pairs(lists@.len() as int)),
            ),
        ),
        out.1 == gather_all(
            how,
            pair_lists(how, table_lists(tables@), all_pairs(lists@.len() as int)),
        ).len(),
{
    let ghost all = table_lists(tables@);
    let n = lists.len();
    let mut pairs: Vec<PairCount> = Vec::new();
    let mut held: Vec<(usize, usize)> = Vec::new();
    let mut i: usize = 0;
    proof {
        assert(resolve(tables@, held@) =~= Seq::<Answers>::empty());
        assert(pair_lists(how, all, pairs_before(n as int, 0)) =~= Seq::<Seq<Answers>>::empty());
    }
    while i < n
        invariant
            0 <= i <= n,
            n == lists@.len(),
            lists_match(tables@, lists@),
            all == table_lists(tables@),
            all_in_range(tables@, held@),
            pairs_done(
                how,
                all,
                pairs_before(n as int, i as int),
                pairs@,
                resolve(tables@, held@),
            ),
        decreases n - i,
    {
        let ghost before = pairs_before(n as int, i as int);
        let ghost row = pair_row(n as int, i as int);
        let mut j: usize = i + 1;
        proof {
            assert(before + row.take(0) == before);
        }
        while j < n
            invariant
                0 <= i < j <= n,
                n == lists@.len(),
                lists_match(tables@, lists@),
                all == table_lists(tables@),
                all_in_range(tables@, held@),
                before == pairs_before(n as int, i as int),
                row == pair_row(n as int, i as int),
                pairs_done(
                    how,
                    all,
                    before + row.take(j - i - 1),
                    pairs@,
                    resolve(tables@, held@),
                ),
            decreases n - j,
        {
            let ghost seq = before + row.take(j - i - 1);
            let both = common_of(how, tables, &lists[i], &lists[j]);
            let pc = PairCount { first: i, second: j, count: both.len() };
            proof {
                let p = (i as int, j as int);
                assert(pair_list(how, all, p) == resolve(tables@, both@));
                lemma_pairs_step(how, all, seq, pairs@, resolve(tables@, held@), p, pc);
                assert(row[j - i - 1] == p);
                assert(seq.push(p) == before + row.take(j - i));
            }
            pairs.push(pc);
            gather_into(how, tables, &mut held, &both);
            j += 1;
        }
        proof {
            if i + 1 < n {
                assert(row.take(n - i - 1) == row);
            } else {
                assert(row.take(j - i - 1) == row);
            }
        }
        i += 1;
    }
    proof {
        let gathered = resolve(tables@, held@);
        assert(gathered.len() == held@.len());
        assert(pairs_done(how, all, all_pairs(n as int), pairs@, gathered));
    }
    (pairs, held.len())
}

/// For every three tables what they have in common, and the number of
/// entries gathered from that.
fn count_triples(
    how: Likeness,
    tables: &Vec<&Vec<DomainEntry>>,
    lists: &Vec<Vec<(usize, usize)>>,
) -> (out: (Vec<TripleCount>, usize))
    requires
        lists_match(tables@, lists@),
    ensures
        triples_done(
            how,
            table_lists(tables@),
            all_triples(lists@.len() as int),
            out.0@,
            gather_all(
                how,
                triple_lists(how, table_lists(tables@), all_triples(lists@.len() as int)),
            ),
        ),
        out.1 == gather_all(
            how,
            triple_lists(how, table_lists(tables@), all_triples(lists@.len() as int)),
        ).len(),
{
    let ghost all = table_lists(tables@);
    let n = lists.len();
    let mut triples: Vec<TripleCount> = Vec::new();
    let mut held: Vec<(usize, usize)> = Vec::new();
    let mut i: usize = 0;
    proof {
        assert(resolve(tables@, held@) =~= Seq::<Answers>::empty());
        assert(triple_lists(how, all, triples_before(n as int, 0)) =~= Seq::<
            Seq<Answers>,
        >::empty());
    }
    while i < n
        invariant
            0 <= i <= n,
            n == lists@.len(),
            lists_match(tables@, lists@),
            all == table_lists(tables@),
            all_in_range(tables@, held@),
            triples_done(
                how,
                all,
                triples_before(n as int, i as int),
                triples@,
                resolve(tables@, held@),
            ),
        decreases n - i,
    {
        let ghost before = triples_before(n as int, i as int);
        let mut j: usize = i + 1;
        proof {
            assert(before + triples_with(n as int, i as int, i + 1) == before);
        }
        while j < n
            invariant
                0 <= i < j <= n,
                n == lists@.len(),
                lists_match(tables@, lists@),
                all == table_lists(tables@),
                all_in_range(tables@, held@),
                before == triples_before(n as int, i as int),
                triples_done(
                    how,
                    all,
                    before + triples_with(n as int, i as int, j as int),
                    triples@,
                    resolve(tables@, held@),
                ),
            decreases n - j,
        {
            let ghost mid = before + triples_with(n as int, i as int, j as int);
            let ghost row = triple_row(n as int, i as int, j as int);
            let both = common_of(how, tables, &lists[i], &lists[j]);
            let mut k: usize = j + 1;
            proof {
                assert(mid + row.take(0) == mid);
            }
            while k < n
                invariant
                    0 <= i < j < k <= n,
                    n == lists@.len(),
                    lists_match(tables@, lists@),
                    all == table_lists(tables@),
                    all_in_range(tables@, held@),
                    all_in_range(tables@, both@),
                    resolve(tables@, both@) == common(how, all[i as int], all[j as int]),
                    row == triple_row(n as int, i as int, j as int),
                    triples_done(
                        how,
                        all,
                        mid + row.take(k - j - 1),
                        triples@,
                        resolve(tables@, held@),
                    ),
                decreases n - k,
            {
                let ghost seq = mid + row.take(k - j - 1);
                let three = common_of(how, tables, &both, &lists[k]);
                let tc = TripleCount { first: i, second: j, third: k, count: three.len() };
                proof {
                    let t = (i as int, j as int, k as int);
                    assert(triple_list(how, all, t) == resolve(tables@, three@));
                    lemma_triples_step(how, all, seq, triples@, resolve(tables@, held@), t, tc);
                    assert(row[k - j - 1] == t);
                    assert(seq.push(t) == mid + row.take(k - j));
                }
                triples.push(tc);
                gather_into(how, tables, &mut held, &three);
                k += 1;
            }
            proof {
                if j + 1 < n {
                    assert(row.take(n - j - 1) == row);
                } else {
                    assert(row.take(k - j - 1) == row);
                }
                assert(mid + row == before + triples_with(n as int, i as int, j + 1));
            }
            j += 1;
        }
        i += 1;
    }
    proof {
        let gathered = resolve(tables@, held@);
        assert(gathered.len() == held@.len());
        assert(triples_done(how, all, all_triples(n as int), triples@, gathered));
    }
    (triples, held.len())
}

/// How far the stores overlap, with entries of different stores counted
/// as the same as `how` says: see [`reports`].
pub fn overlaps(stores: &Vec<AllDomains>, how: Likeness) -> (out: OverlapReport)
    requires
        forall|s: int| 0 <= s < stores@.len() ==> (#[trigger] stores@[s]).wf(),
    ensures
        reports(how, store_lists(stores@), out),
{
    let tables = tables_of(stores);
    let lists = lists_of(&tables);
    proof {
        assert(table_lists(tables@) =~= store_lists(stores@));
    }
    let mut sizes: Vec<usize> = Vec::new();
    let mut s: usize = 0;
    while s < lists.len()
        invariant
            0 <= s <= lists.len(),
            lists_match(tables@, lists@),
            sizes@.len() == s,
            forall|t: int| 0 <= t < s ==> (#[trigger] sizes@[t]) == table_lists(tables@)[t].len(),
        decreases lists.len() - s,
    {
        proof {
            assert(resolve(tables@, lists@[s as int]@).len() == lists@[s as int]@.len());
        }
        sizes.push(lists[s].len());
        s += 1;
    }
    let union = count_union(how, &tables, &lists);
    let (pairs, pair_union) = count_pairs(how, &tables, &lists);
    let (triples, triple_union) = count_triples(how, &tables, &lists);
    OverlapReport { sizes, union, pairs, pair_union, triples, triple_union }
}

/// The owner name keys of the entries of a list.
pub open spec fn name_set(list: Seq<Answers>) -> Set<NameKey> {
    Set::new(|k: NameKey| exists|i: int| 0 <= i < list.len() && (#[trigger] list[i]).name == k)
}

/// Whether no two entries of a list have the same owner name key.
pub open spec fn distinct(list: Seq<Answers>) -> bool {
    forall|i: int, j: int|
        0 <= i < j < list.len() ==> (#[trigger] list[i]).name != (#[trigger] list[j]).name
}

/// The owner name keys of each list.
pub open spec fn name_sets(lists: Seq<Seq<Answers>>) -> Seq<Set<NameKey>> {
    Seq::new(lists.len(), |t: int| name_set(lists[t]))
}

/// The owner names of a list with one entry put behind it.
proof fn lemma_push_names(list: Seq<Answers>, x: Answers)
    ensures
        name_set(list.push(x)) == name_set(list).insert(x.name),
        distinct(list) && !name_set(list).contains(x.name) ==> distinct(list.push(x)),
{
    let more = list.push(x);
    assert forall|k: NameKey| name_set(more).contains(k) <==> name_set(list).insert(
        x.name,
    ).contains(k) by {
        if name_set(more).contains(k) {
            let i = choose|i: int| 0 <= i < more.len() && (#[trigger] more[i]).name == k;
            if i < list.len() {
                assert(list[i].name == k);
            }
        }
        if name_set(list).contains(k) {
            let i = choose|i: int| 0 <= i < list.len() && (#[trigger] list[i]).name == k;
            assert(more[i].name == k);
        }
        assert(more[list.len() as int].name == x.name);
    }
    assert(name_set(more) =~= name_set(list).insert(x.name));
    if distinct(list) && !name_set(list).contains(x.name) {
        assert forall|i: int, j: int| 0 <= i < j < more.len() implies (#[trigger] more[i]).name
            != (#[trigger] more[j]).name by {
            if j < list.len() {
                assert(list[i].name != list[j].name);
            } else {
                assert(list[i].name == more[i].name);
            }
        }
    }
}

/// Counted by owner name, a list holds a like of an entry where it holds
/// its owner name.
proof fn lemma_found_name(list: Seq<Answers>, x: Answers)
    ensures
        found(Likeness::Name, list, x) <==> name_set(list).contains(x.name),
{
    if found(Likeness::Name, list, x) {
        let i = choose|i: int| 0 <= i < list.len() && alike(Likeness::Name, x, #[trigger] list[i]);
        assert(list[i].name == x.name);
    }
    if name_set(list).contains(x.name) {
        let i = choose|i: int| 0 <= i < list.len() && (#[trigger] list[i]).name == x.name;
        assert(alike(Likeness::Name, x, list[i]));
    }
}

/// Counted by owner name, what two lists have in common is the
/// intersection of their owner names.
proof fn lemma_common_names(a: Seq<Answers>, b: Seq<Answers>)
    requires
        distinct(a),
    ensures
        distinct(common(Likeness::Name, a, b)),
        name_set(common(Likeness::Name, a, b)) == name_set(a).intersect(name_set(b)),
    decreases a.len(),
{
    if a.len() == 0 {
        assert(name_set(common(Likeness::Name, a, b)) =~= name_set(a).intersect(name_set(b)));
    } else {
        let rest = a.drop_last();
        let x = a.last();
        assert(distinct(rest)) by {
            assert forall|i: int, j: int| 0 <= i < j < rest.len() implies (#[trigger] rest[i]).name
                != (#[trigger] rest[j]).name by {
                assert(a[i].name != a[j].name);
            }
        }
        lemma_common_names(rest, b);
        lemma_found_name(b, x);
        assert(a == rest.push(x));
        lemma_push_names(rest, x);
        assert(!name_set(rest).contains(x.name)) by {
            if name_set(rest).contains(x.name) {
                let i = choose|i: int| 0 <= i < rest.len() && (#[trigger] rest[i]).name == x.name;
                assert(a[i].name != a[a.len() - 1].name);
            }
        }
        lemma_push_names(common(Likeness::Name, rest, b), x);
        assert(name_set(common(Likeness::Name, a, b)) =~= name_set(a).intersect(name_set(b)));
    }
}

/// Counted by owner name, gathering unites the owner names.
proof fn lemma_gather_names(held: Seq<Answers>, more: Seq<Answers>)
    requires
        distinct(held),
    ensures
        distinct(gather(Likeness::Name, held, more)),
        name_set(gather(Likeness::Name, held, more)) == name_set(held).union(name_set(more)),
    decreases more.len(),
{
    if more.len() == 0 {
        assert(name_set(more) =~= Set::<NameKey>::empty());
        assert(name_set(held).union(name_set(more)) =~= name_set(held));
    } else {
        let rest = more.drop_last();
        let x = more.last();
        lemma_gather_names(held, rest);
        let before = gather(Likeness::Name, held, rest);
        lemma_found_name(before, x);
        assert(more == rest.push(x));
        lemma_push_names(rest, x);
        lemma_push_names(before, x);
        assert(name_set(gather(Likeness::Name, held, more)) =~= name_set(held).union(
            name_set(more),
        ));
    }
}

/// Counted by owner name, gathering lists unites their owner names.
proof fn lemma_gather_all_names(lists: Seq<Seq<Answers>>)
    ensures
        distinct(gather_all(Likeness::Name, lists)),
        name_set(gather_all(Likeness::Name, lists)) == union_of(name_sets(lists)),
    decreases lists.len(),
{
    if lists.len() == 0 {
        assert(name_set(gather_all(Likeness::Name, lists)) =~= union_of(name_sets(lists)));
    } else {
        let rest = lists.drop_last();
        lemma_gather_all_names(rest);
        lemma_gather_names(gather_all(Likeness::Name, rest), lists.last());
        lemma_union_step(name_sets(lists));
        assert(name_sets(lists).drop_last() =~= name_sets(rest));
    }
}

/// A list without a repeated owner name has as many entries as owner
/// names.
proof fn lemma_distinct_len(list: Seq<Answers>)
    requires
        distinct(list),
    ensures
        name_set(list).finite(),
        name_set(list).len() == list.len(),
{
    let keys = Seq::new(list.len(), |i: int| list[i].name);
    assert forall|i: int, j: int| 0 <= i < keys.len() && 0 <= j < keys.len() && i != j implies keys[i]
        != keys[j] by {
        if i < j {
            assert(list[i].name != list[j].name);
        } else {
            assert(list[j].name != list[i].name);
        }
    }
    assert forall|k: NameKey| name_set(list).contains(k) <==> keys.to_set().contains(k) by {
        if name_set(list).contains(k) {
            let i = choose|i: int| 0 <= i < list.len() && (#[trigger] list[i]).name == k;
            assert(keys[i] == k);
        }
        if keys.to_set().contains(k) {
            let i = choose|i: int| 0 <= i < keys.len() && keys[i] == k;
            assert(list[i].name == k);
        }
    }
    assert(name_set(list) =~= keys.to_set());
    keys.unique_seq_to_set();
    vstd::seq_lib::seq_to_set_is_finite(keys);
}

/// The list of a store holds each owner name of the store once.
proof fn lemma_listing_names(entries: Seq<DomainEntry>)
    requires
        distinct_names(entries),
    ensures
        distinct(listing_answers(entries)),
        name_set(listing_answers(entries)) == store_view(entries).dom(),
{
    let list = listing_answers(entries);
    assert forall|i: int, j: int| 0 <= i < j < list.len() implies (#[trigger] list[i]).name
        != (#[trigger] list[j]).name by {
        assert(key_at(entries, i) != key_at(entries, j));
    }
    assert forall|k: NameKey| name_set(list).contains(k) <==> store_view(entries).dom().contains(
        k,
    ) by {
        if name_set(list).contains(k) {
            let i = choose|i: int| 0 <= i < list.len() && (#[trigger] list[i]).name == k;
            assert(key_at(entries, i) == k);
        }
        if has_name(entries, k) {
            let i = index_of_name(entries, k);
            assert(list[i].name == k);
        }
    }
    assert(name_set(list) =~= store_view(entries).dom());
}

/// Every pair of the rising order lies below `n`, its first index below
/// its second.
pub proof fn lemma_pairs_in_range(n: int, i: int)
    requires
        0 <= i <= n,
    ensures
        forall|x: int|
            0 <= x < pairs_before(n, i).len() ==> 0 <= (#[trigger] pairs_before(n, i)[x]).0
                < pairs_before(n, i)[x].1 < n,
    decreases i,
{
    if i > 0 {
        lemma_pairs_in_range(n, i - 1);
        let before = pairs_before(n, i - 1);
        let row = pair_row(n, i - 1);
        assert forall|x: int| 0 <= x < pairs_before(n, i).len() implies 0 <= (#[trigger] pairs_before(
            n,
            i,
        )[x]).0 < pairs_before(n, i)[x].1 < n by {
            if x < before.len() {
                assert(pairs_before(n, i)[x] == before[x]);
            } else {
                assert(pairs_before(n, i)[x] == row[x - before.len()]);
            }
        }
    }
}

/// Every triple of the rising order lies below `n`, its indices rising.
pub proof fn lemma_triples_in_range(n: int, i: int)
    requires
        0 <= i <= n,
    ensures
        forall|x: int|
            0 <= x < triples_before(n, i).len() ==> {
                let t = #[trigger] triples_before(n, i)[x];
                0 <= t.0 < t.1 < t.2 < n
            },
    decreases i,
{
    if i > 0 {
        lemma_triples_in_range(n, i - 1);
        lemma_triples_with_in_range(n, i - 1, n);
        let before = triples_before(n, i - 1);
        let more = triples_with(n, i - 1, n);
        assert forall|x: int| 0 <= x < triples_before(n, i).len() implies {
            let t = #[trigger] triples_before(n, i)[x];
            0 <= t.0 < t.1 < t.2 < n
        } by {
            if x < before.len() {
                assert(triples_before(n, i)[x] == before[x]);
            } else {
                assert(triples_before(n, i)[x] == more[x - before.len()]);
            }
        }
    }
}

/// Every triple that starts with `i` lies below `n`, its indices rising.
proof fn lemma_triples_with_in_range(n: int, i: int, j: int)
    requires
        0 <= i < n,
        i < j <= n,
    ensures
        forall|x: int|
            0 <= x < triples_with(n, i, j).len() ==> {
                let t = #[trigger] triples_with(n, i, j)[x];
                t.0 == i && i < t.1 < t.2 < n
            },
    decreases j - i,
{
    if j > i + 1 {
        lemma_triples_with_in_range(n, i, j - 1);
        let before = triples_with(n, i, j - 1);
        let row = triple_row(n, i, j - 1);
        assert forall|x: int| 0 <= x < triples_with(n, i, j).len() implies {
            let t = #[trigger] triples_with(n, i, j)[x];
            t.0 == i && i < t.1 < t.2 < n
        } by {
            if x < before.len() {
                assert(triples_with(n, i, j)[x] == before[x]);
            } else {
                assert(triples_with(n, i, j)[x] == row[x - before.len()]);
            }
        }
    }
}

/// The owner names that each store holds.
pub open spec fn owner_names(stores: Seq<AllDomains>) -> Seq<Set<NameKey>> {
    Seq::new(stores.len(), |s: int| stores[s]@.dom())
}

/// For each of the given pairs, the intersection of the two sets.
pub open spec fn pair_sets(sets: Seq<Set<NameKey>>, pairs: Seq<(int, int)>) -> Seq<Set<NameKey>> {
    Seq::new(pairs.len(), |x: int| sets[pairs[x].0].intersect(sets[pairs[x].1]))
}

/// For each of the given triples, the intersection of the three sets.
pub open spec fn triple_sets(sets: Seq<Set<NameKey>>, triples: Seq<(int, int, int)>) -> Seq<
    Set<NameKey>,
> {
    Seq::new(
        triples.len(),
        |x: int| sets[triples[x].0].intersect(sets[triples[x].1]).intersect(sets[triples[x].2]),
    )
}

/// Whether `r` reports the overlap of the given sets of owner names: the
/// size of each set, of their union, of the intersection of every two and
/// of every three of them, and of the unions of those intersections.
pub open spec fn reports_sets(sets: Seq<Set<NameKey>>, r: OverlapReport) -> bool {
    let n = sets.len() as int;
    &&& r.sizes@.len() == n
    &&& forall|s: int| 0 <= s < n ==> (#[trigger] r.sizes@[s]) == sets[s].len()
    &&& r.union == union_of(sets).len()
    &&& r.pairs@.len() == all_pairs(n).len()
    &&& forall|x: int|
        0 <= x < r.pairs@.len() ==> {
            &&& (#[trigger] r.pairs@[x]).first == all_pairs(n)[x].0
            &&& r.pairs@[x].second == all_pairs(n)[x].1
            &&& r.pairs@[x].count == pair_sets(sets, all_pairs(n))[x].len()
        }
    &&& r.pair_union == union_of(pair_sets(sets, all_pairs(n))).len()
    &&& r.triples@.len() == all_triples(n).len()
    &&& forall|x: int|
        0 <= x < r.triples@.len() ==> {
            &&& (#[trigger] r.triples@[x]).first == all_triples(n)[x].0
            &&& r.triples@[x].second == all_triples(n)[x].1
            &&& r.triples@[x].third == all_triples(n)[x].2
            &&& r.triples@[x].count == triple_sets(sets, all_triples(n))[x].len()
        }
    &&& r.triple_union == union_of(triple_sets(sets, all_triples(n))).len()
}

/// A report by owner name over lists without repeated owner names is the
/// report of their sets of owner names.
proof fn lemma_report_sets(lists: Seq<Seq<Answers>>, r: OverlapReport)
    requires
        reports(Likeness::Name, lists, r),
        forall|s: int| 0 <= s < lists.len() ==> distinct(#[trigger] lists[s]),
    ensures
        reports_sets(name_sets(lists), r),
{
    let how = Likeness::Name;
    let sets = name_sets(lists);
    let n = lists.len() as int;
    assert forall|s: int| 0 <= s < n implies (#[trigger] r.sizes@[s]) == sets[s].len() by {
        lemma_distinct_len(lists[s]);
    }
    lemma_gather_all_names(lists);
    lemma_distinct_len(gather_all(how, lists));
    let ps = all_pairs(n);
    lemma_pairs_in_range(n, n);
    assert forall|x: int| 0 <= x < ps.len() implies name_set(
        #[trigger] pair_lists(how, lists, ps)[x],
    ) == pair_sets(sets, ps)[x] && distinct(pair_lists(how, lists, ps)[x]) by {
        let p = ps[x];
        assert(0 <= p.0 < p.1 < n);
        assert(distinct(lists[p.0]));
        lemma_common_names(lists[p.0], lists[p.1]);
    }
    assert forall|x: int| 0 <= x < r.pairs@.len() implies (#[trigger] r.pairs@[x]).count
        == pair_sets(sets, ps)[x].len() by {
        assert(name_set(pair_lists(how, lists, ps)[x]) == pair_sets(sets, ps)[x]);
        lemma_distinct_len(pair_lists(how, lists, ps)[x]);
    }
    assert(name_sets(pair_lists(how, lists, ps)) =~= pair_sets(sets, ps));
    lemma_gather_all_names(pair_lists(how, lists, ps));
    lemma_distinct_len(gather_all(how, pair_lists(how, lists, ps)));
    let ts = all_triples(n);
    lemma_triples_in_range(n, n);
    assert forall|x: int| 0 <= x < ts.len() implies name_set(
        #[trigger] triple_lists(how, lists, ts)[x],
    ) == triple_sets(sets, ts)[x] && distinct(triple_lists(how, lists, ts)[x]) by {
        let t = ts[x];
        assert(0 <= t.0 < t.1 < t.2 < n);
        assert(distinct(lists[t.0]));
        lemma_common_names(lists[t.0], lists[t.1]);
        lemma_common_names(common(how, lists[t.0], lists[t.1]), lists[t.2]);
    }
    assert forall|x: int| 0 <= x < r.triples@.len() implies (#[trigger] r.triples@[x]).count
        == triple_sets(sets, ts)[x].len() by {
        assert(name_set(triple_lists(how, lists, ts)[x]) == triple_sets(sets, ts)[x]);
        lemma_distinct_len(triple_lists(how, lists, ts)[x]);
    }
    assert(name_sets(triple_lists(how, lists, ts)) =~= triple_sets(sets, ts));
    lemma_gather_all_names(triple_lists(how, lists, ts));
    lemma_distinct_len(gather_all(how, triple_lists(how, lists, ts)));
}

/// How far the owner names of the stores overlap: the number of owner
/// names of each store, of their union, of the intersection of every two
/// and of every three stores, and of the unions of those intersections.
pub fn name_overlaps(stores: &Vec<AllDomains>) -> (out: OverlapReport)
    requires
        forall|s: int| 0 <= s < stores@.len() ==> (#[trigger] stores@[s]).wf(),
    ensures
        reports_sets(owner_names(stores@), out),
{
    let out = overlaps(stores, Likeness::Name);
    proof {
        let lists = store_lists(stores@);
        assert forall|s: int| 0 <= s < lists.len() implies distinct(#[trigger] lists[s])
            && name_set(lists[s]) == stores@[s]@.dom() by {
            stores@[s].lemma_listing();
            lemma_listing_names(stores@[s].listing());
        }
        assert(name_sets(lists) =~= owner_names(stores@));
        lemma_report_sets(lists, out);
    }
    out
}

/// How far the records of the stores overlap. Two entries of different
/// stores count as the same if they have the same owner name and, where
/// `strict` holds, the same record identities, else at least one record
/// identity in common.
pub fn record_overlaps(stores: &Vec<AllDomains>, strict: bool) -> (out: OverlapReport)
    requires
        forall|s: int| 0 <= s < stores@.len() ==> (#[trigger] stores@[s]).wf(),
    ensures
        reports(
            if strict {
                Likeness::Strict
            } else {
                Likeness::Loose
            },
            store_lists(stores@),
            out,
        ),
{
    if strict {
        overlaps(stores, Likeness::Strict)
    } else {
        overlaps(stores, Likeness::Loose)
    }
}

} // verus!
