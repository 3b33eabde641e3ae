//! Cutting the sequence of domain names into checkpoint chunks and query
//! batches, and the index ranges that the chunks cover.

use crate::text::text_of;
use vstd::prelude::*;

verus! {

/// How often each batch is asked for.
pub const REPEAT: usize = 10;

/// The most domain names in one query batch.
pub const BATCH: usize = 100;

/// The most domain names in one checkpoint chunk.
pub const SAVE_EVERY: usize = 1000;

/// The number of parts of at most `size` items that `total` items make:
/// `total / size`, rounded up.
pub open spec fn part_count(total: nat, size: nat) -> nat {
    if total % size == 0 {
        total / size
    } else {
        total / size + 1
    }
}

/// The index behind the last item of part `i`.
pub open spec fn part_end(total: nat, size: nat, i: nat) -> nat {
    if (i + 1) * size <= total {
        (i + 1) * size
    } else {
        total
    }
}

/// Part `i` of `items` cut into parts of `size` items.
pub open spec fn part<T>(items: Seq<T>, size: nat, i: nat) -> Seq<T> {
    items.subrange((i * size) as int, part_end(items.len(), size, i) as int)
}

/// `items` cut into parts of `size` items; the last part holds what is
/// left.
pub open spec fn parts<T>(items: Seq<T>, size: nat) -> Seq<Seq<T>> {
    Seq::new(part_count(items.len(), size), |i: int| part(items, size, i as nat))
}

/// The parts one after the other.
pub open spec fn concat<T>(pieces: Seq<Seq<T>>) -> Seq<T>
    decreases pieces.len(),
{
    if pieces.len() == 0 {
        Seq::empty()
    } else {
        concat(pieces.drop_last()) + pieces.last()
    }
}

/// The 1-indexed range, both ends included, of the items of part `i`.
pub open spec fn part_range(total: nat, size: nat, i: nat) -> (nat, nat) {
    (i * size + 1, part_end(total, size, i))
}

/// The ranges of all parts, in order.
pub open spec fn part_ranges(total: nat, size: nat) -> Seq<(nat, nat)> {
    Seq::new(part_count(total, size), |i: int| part_range(total, size, i as nat))
}

/// The number of items in the ranges taken together.
pub open spec fn covered(ranges: Seq<(nat, nat)>) -> int
    decreases ranges.len(),
{
    if ranges.len() == 0 {
        0
    } else {
        covered(ranges.drop_last()) + (ranges.last().1 - ranges.last().0 + 1)
    }
}

/// Where the parts lie: every part but the last is full, and the last one
/// is not empty.
pub proof fn lemma_part_bounds(total: nat, size: nat, i: nat)
    requires
        size > 0,
        i < part_count(total, size),
    ensures
        i * size < total,
        i + 1 < part_count(total, size) ==> (i + 1) * size <= total,
        i + 1 == part_count(total, size) ==> total <= (i + 1) * size,
        i * size < part_end(total, size, i) <= total,
        part_end(total, size, i) - i * size <= size,
        i + 1 < part_count(total, size) ==> part_end(total, size, i) - i * size == size,
        i + 1 == part_count(total, size) ==> part_end(total, size, i) == total,
{
    let q = total / size;
    let r = total % size;
    vstd::arithmetic::div_mod::lemma_fundamental_div_mod(total as int, size as int);
    assert(total == size * q + r);
    assert(0 <= r < size);
    assert(i * size <= q * size && (i < q ==> (i + 1) * size <= q * size)) by (nonlinear_arith)
        requires
            i <= q,
            size > 0,
    ;
    assert(size * q == q * size) by (nonlinear_arith);
    assert((i + 1) * size == i * size + size) by (nonlinear_arith);
}

/// Part `k` exists where items are left behind the parts before it.
pub proof fn lemma_part_index(total: nat, size: nat, k: nat)
    requires
        size > 0,
    ensures
        k < part_count(total, size) <==> k * size < total,
{
    let q = total / size;
    let r = total % size;
    vstd::arithmetic::div_mod::lemma_fundamental_div_mod(total as int, size as int);
    assert(size * q == q * size) by (nonlinear_arith);
    if k < part_count(total, size) {
        lemma_part_bounds(total, size, k);
    } else {
        assert(k * size >= q * size && (k > q ==> k * size >= q * size + size))
            by (nonlinear_arith)
            requires
                k >= q,
                size > 0,
        ;
    }
}

/// The parts of a sequence, one after the other, are the sequence; every
/// part but the last holds `size` items, and the last holds at least one
/// and at most `size`.
pub proof fn lemma_parts_cover<T>(items: Seq<T>, size: nat)
    requires
        size > 0,
    ensures
        concat(parts(items, size)) == items,
        forall|i: int|
            0 <= i < parts(items, size).len() - 1 ==> (#[trigger] parts(items, size)[i]).len()
                == size,
        parts(items, size).len() > 0 ==> 0 < parts(items, size).last().len() <= size,
{
    let all = parts(items, size);
    let n = all.len();
    assert forall|i: int| 0 <= i < n implies (#[trigger] all[i]).len() == part_end(
        items.len(),
        size,
        i as nat,
    ) - i * size by {
        lemma_part_bounds(items.len(), size, i as nat);
    }
    assert forall|i: int| 0 <= i < n - 1 implies (#[trigger] all[i]).len() == size by {
        lemma_part_bounds(items.len(), size, i as nat);
    }
    if n > 0 {
        lemma_part_bounds(items.len(), size, (n - 1) as nat);
    }
    lemma_concat_prefix(items, size, n);
    assert(all.take(n as int) == all);
    if n == 0 {
        assert(items.len() == 0) by {
            vstd::arithmetic::div_mod::lemma_fundamental_div_mod(
                items.len() as int,
                size as int,
            );
            assert(size * 0 == 0) by (nonlinear_arith);
        }
        assert(items.take(0) == items);
    } else {
        assert(items.take(items.len() as int) == items);
    }
}

/// The first `j` parts, one after the other, are the items up to the end
/// of part `j - 1`.
proof fn lemma_concat_prefix<T>(items: Seq<T>, size: nat, j: nat)
    requires
        size > 0,
        j <= part_count(items.len(), size),
    ensures
        concat(parts(items, size).take(j as int)) == items.take(
            if j == 0 {
                0
            } else {
                part_end(items.len(), size, (j - 1) as nat) as int
            },
        ),
    decreases j,
{
    let all = parts(items, size);
    if j == 0 {
        assert(all.take(0).len() == 0);
    } else {
        lemma_concat_prefix(items, size, (j - 1) as nat);
        lemma_part_bounds(items.len(), size, (j - 1) as nat);
        let prefix = all.take(j as int);
        assert(prefix.drop_last() == all.take(j - 1));
        assert(prefix.last() == part(items, size, (j - 1) as nat));
        let from = ((j - 1) * size) as int;
        let to = part_end(items.len(), size, (j - 1) as nat) as int;
        if j - 1 > 0 {
            lemma_part_bounds(items.len(), size, (j - 2) as nat);
            assert(part_end(items.len(), size, (j - 2) as nat) == from) by {
                assert((j - 2 + 1) * size == (j - 1) * size);
            }
        }
        assert(items.take(from) + items.subrange(from, to) == items.take(to));
    }
}

/// The ranges of the parts start at 1, follow one another without a gap
/// or an overlap, end at `total`, and cover `total` items.
pub proof fn lemma_ranges_cover(total: nat, size: nat)
    requires
        size > 0,
    ensures
        part_ranges(total, size).len() == part_count(total, size),
        part_ranges(total, size).len() > 0 ==> part_ranges(total, size)[0].0 == 1
            && part_ranges(total, size).last().1 == total,
        forall|i: int|
            0 <= i < part_ranges(total, size).len() ==> (#[trigger] part_ranges(
                total,
                size,
            )[i]).0 <= part_ranges(total, size)[i].1,
        forall|i: int|
            0 <= i < part_ranges(total, size).len() - 1 ==> (#[trigger] part_ranges(
                total,
                size,
            )[i + 1]).0 == part_ranges(total, size)[i].1 + 1,
        covered(part_ranges(total, size)) == total,
{
    let ranges = part_ranges(total, size);
    let n = ranges.len();
    assert forall|i: int| 0 <= i < n implies (#[trigger] ranges[i]).0 <= ranges[i].1 by {
        lemma_part_bounds(total, size, i as nat);
    }
    assert forall|i: int| 0 <= i < n - 1 implies (#[trigger] ranges[i + 1]).0 == ranges[i].1
        + 1 by {
        lemma_part_bounds(total, size, i as nat);
    }
    if n > 0 {
        lemma_part_bounds(total, size, (n - 1) as nat);
        assert(0 * size == 0) by (nonlinear_arith);
    }
    lemma_covered_prefix(total, size, n);
    assert(ranges.take(n as int) == ranges);
    if n == 0 {
        vstd::arithmetic::div_mod::lemma_fundamental_div_mod(total as int, size as int);
        assert(size * 0 == 0) by (nonlinear_arith);
    }
}

/// The ranges of the first `j` parts cover the items up to the end of
/// part `j - 1`.
proof fn lemma_covered_prefix(total: nat, size: nat, j: nat)
    requires
        size > 0,
        j <= part_count(total, size),
    ensures
        covered(part_ranges(total, size).take(j as int)) == if j == 0 {
            0
        } else {
            part_end(total, size, (j - 1) as nat) as int
        },
    decreases j,
{
    let ranges = part_ranges(total, size);
    if j == 0 {
        assert(ranges.take(0).len() == 0);
    } else {
        lemma_covered_prefix(total, size, (j - 1) as nat);
        lemma_part_bounds(total, size, (j - 1) as nat);
        let prefix = ranges.take(j as int);
        assert(prefix.drop_last() == ranges.take(j - 1));
        assert(prefix.last() == part_range(total, size, (j - 1) as nat));
        if j - 1 > 0 {
            lemma_part_bounds(total, size, (j - 2) as nat);
            assert((j - 2 + 1) * size == (j - 1) * size);
        } else {
            assert(0 * size == 0) by (nonlinear_arith);
        }
    }
}

/// The number of parts of at most `size` items that `total` items make.
pub fn batch_count(total: usize, size: usize) -> (out: usize)
    requires
        size > 0,
    ensures
        out == part_count(total as nat, size as nat),
{
    if total % size == 0 {
        total / size
    } else {
        proof {
            let q = total as int / size as int;
            vstd::arithmetic::div_mod::lemma_fundamental_div_mod(total as int, size as int);
            assert(q <= size * q) by (nonlinear_arith)
                requires
                    size >= 1,
                    q >= 0,
            ;
        }
        total / size + 1
    }
}

/// The whole minutes that `seconds` take up, the last one counted when
/// it has begun.
pub fn minutes_spent(seconds: u64) -> (out: u64)
    ensures
        out == part_count(seconds as nat, 60),
{
    if seconds % 60 == 0 {
        seconds / 60
    } else {
        seconds / 60 + 1
    }
}

/// The texts that a vector of strings holds.
pub open spec fn names(v: Seq<String>) -> Seq<Seq<char>> {
    Seq::new(v.len(), |i: int| v[i]@)
}

/// The texts that the parts hold.
pub open spec fn part_names(v: Seq<Vec<String>>) -> Seq<Seq<Seq<char>>> {
    Seq::new(v.len(), |i: int| names(v[i]@))
}

/// The next items of `items` from index `from` on: `n` of them, or those
/// that are left.
pub fn take_n(n: usize, items: &Vec<String>, from: usize) -> (out: Vec<String>)
    requires
        from <= items.len(),
    ensures
        names(out@) == names(items@).subrange(
            from as int,
            if items.len() - from < n {
                items.len() as int
            } else {
                from + n
            },
        ),
{
    let rest = items.len() - from;
    let count = if rest < n {
        rest
    } else {
        n
    };
    let mut out: Vec<String> = Vec::new();
    let mut i: usize = 0;
    while i < count
        invariant
            0 <= i <= count,
            from + count <= items.len(),
            out@.len() == i,
            forall|k: int| 0 <= k < i ==> (#[trigger] out@[k])@ == items@[from + k]@,
        decreases count - i,
    {
        out.push(items[from + i].clone());
        i += 1;
    }
    proof {
        assert(names(out@) =~= names(items@).subrange(from as int, from + count));
    }
    out
}

/// Cuts `items` into parts of `size` items, in order; the last part holds
/// what is left.
pub fn partition(items: &Vec<String>, size: usize) -> (out: Vec<Vec<String>>)
    requires
        size > 0,
    ensures
        part_names(out@) == parts(names(items@), size as nat),
{
    let ghost all = names(items@);
    let ghost goal = parts(all, size as nat);
    let mut out: Vec<Vec<String>> = Vec::new();
    let mut from: usize = 0;
    proof {
        lemma_part_index(all.len(), size as nat, 0);
        assert(0 * size == 0) by (nonlinear_arith);
    }
    while from < items.len()
        invariant
            size > 0,
            all == names(items@),
            goal == parts(all, size as nat),
            from <= items.len(),
            out@.len() <= goal.len(),
            from == if out@.len() == 0 {
                0
            } else {
                part_end(all.len(), size as nat, (out@.len() - 1) as nat)
            },
            from < items.len() ==> out@.len() < goal.len(),
            from == items.len() ==> out@.len() == goal.len(),
            forall|k: int| 0 <= k < out@.len() ==> names(#[trigger] out@[k]@) == goal[k],
        decreases items.len() - from,
    {
        let ghost k = out@.len();
        proof {
            lemma_part_bounds(all.len(), size as nat, k);
            if k > 0 {
                lemma_part_bounds(all.len(), size as nat, (k - 1) as nat);
                assert((k - 1 + 1) * size == k * size);
            } else {
                assert(0 * size == 0) by (nonlinear_arith);
            }
            assert(from == k * size);
            assert((k + 1) * size == k * size + size) by (nonlinear_arith);
        }
        let piece = take_n(size, items, from);
        let n = piece.len();
        proof {
            assert(names(piece@).len() == n);
            assert(names(piece@) == part(all, size as nat, k));
            assert(goal[k as int] == part(all, size as nat, k));
        }
        out.push(piece);
        from = from + n;
        proof {
            lemma_part_index(all.len(), size as nat, k + 1);
        }
    }
    proof {
        assert(part_names(out@) =~= goal);
    }
    out
}

/// The 1-indexed ranges of the checkpoint chunks of `total` domain names,
/// in order: see [`part_ranges`].
pub fn chunk_ranges(total: usize, size: usize) -> (out: Vec<(usize, usize)>)
    requires
        size > 0,
    ensures
        out@.len() == part_ranges(total as nat, size as nat).len(),
        forall|i: int|
            0 <= i < out@.len() ==> (#[trigger] out@[i]).0 == part_ranges(
                total as nat,
                size as nat,
            )[i].0 && out@[i].1 == part_ranges(total as nat, size as nat)[i].1,
{
    let ghost goal = part_ranges(total as nat, size as nat);
    let mut out: Vec<(usize, usize)> = Vec::new();
    let mut from: usize = 0;
    proof {
        lemma_part_index(total as nat, size as nat, 0);
        assert(0 * size == 0) by (nonlinear_arith);
    }
    while from < total
        invariant
            size > 0,
            goal == part_ranges(total as nat, size as nat),
            from <= total,
            out@.len() <= goal.len(),
            from == if out@.len() == 0 {
                0
            } else {
                part_end(total as nat, size as nat, (out@.len() - 1) as nat)
            },
            from < total ==> out@.len() < goal.len(),
            from == total ==> out@.len() == goal.len(),
            forall|k: int|
                0 <= k < out@.len() ==> (#[trigger] out@[k]).0 == goal[k].0 && out@[k].1
                    == goal[k].1,
        decreases total - from,
    {
        let ghost k = out@.len();
        proof {
            lemma_part_bounds(total as nat, size as nat, k);
            if k > 0 {
                lemma_part_bounds(total as nat, size as nat, (k - 1) as nat);
                assert((k - 1 + 1) * size == k * size);
            } else {
                assert(0 * size == 0) by (nonlinear_arith);
            }
            assert(from == k * size);
            assert((k + 1) * size == k * size + size) by (nonlinear_arith);
        }
        let end = if total - from < size {
            total
        } else {
            from + size
        };
        out.push((from + 1, end));
        from = end;
        proof {
            lemma_part_index(total as nat, size as nat, k + 1);
        }
    }
    out
}

/// The character of a decimal digit.
pub open spec fn digit_char(d: nat) -> char {
    if d == 0 {
        '0'
    } else if d == 1 {
        '1'
    } else if d == 2 {
        '2'
    } else if d == 3 {
        '3'
    } else if d == 4 {
        '4'
    } else if d == 5 {
        '5'
    } else if d == 6 {
        '6'
    } else if d == 7 {
        '7'
    } else if d == 8 {
        '8'
    } else {
        '9'
    }
}

/// The decimal digits of `n`, without leading zeros.
pub open spec fn decimal(n: nat) -> Seq<char>
    decreases n,
{
    if n < 10 {
        seq![digit_char(n)]
    } else {
        decimal(n / 10).push(digit_char(n % 10))
    }
}

/// The name of the snapshot file of a checkpoint chunk: the two ends of
/// its range in decimal, a hyphen between them, and the ending `.txt`.
pub open spec fn snapshot_text(start: nat, end: nat) -> Seq<char> {
    decimal(start) + seq!['-'] + decimal(end) + seq!['.', 't', 'x', 't']
}

/// The character of a decimal digit.
fn digit_of(d: usize) -> (out: char)
    requires
        d < 10,
    ensures
        out == digit_char(d as nat),
{
    if d == 0 {
        '0'
    } else if d == 1 {
        '1'
    } else if d == 2 {
        '2'
    } else if d == 3 {
        '3'
    } else if d == 4 {
        '4'
    } else if d == 5 {
        '5'
    } else if d == 6 {
        '6'
    } else if d == 7 {
        '7'
    } else if d == 8 {
        '8'
    } else {
        '9'
    }
}

/// Puts the decimal digits of `n` behind `out`.
fn push_decimal(out: &mut Vec<char>, n: usize)
    ensures
        final(out)@ == old(out)@ + decimal(n as nat),
    decreases n,
{
    if n >= 10 {
        push_decimal(out, n / 10);
    }
    out.push(digit_of(n % 10));
}

/// The name of the snapshot file of the chunk that holds the domain names
/// from index `start` up to index `end`, counted from 1.
pub fn snapshot_name(start: usize, end: usize) -> (out: String)
    ensures
        out@ == snapshot_text(start as nat, end as nat),
{
    let mut chars: Vec<char> = Vec::new();
    push_decimal(&mut chars, start);
    chars.push('-');
    push_decimal(&mut chars, end);
    chars.push('.');
    chars.push('t');
    chars.push('x');
    chars.push('t');
    proof {
        assert(chars@ =~= snapshot_text(start as nat, end as nat));
    }
    text_of(&chars)
}

/// The range of the chunk that follows `accumulated` domain names and
/// holds `len` of them, counted from 1.
pub fn chunk_range(accumulated: usize, len: usize) -> (out: (usize, usize))
    requires
        len > 0,
        accumulated + len <= usize::MAX,
    ensures
        out.0 == accumulated + 1,
        out.1 == accumulated + len,
{
    (accumulated + 1, accumulated + len)
}

} // verus!
