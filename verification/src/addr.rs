//! IPv4 and IPv6 address literals.

use crate::text::{lemma_split_nonempty, split, split_text, texts, Separator};
use vstd::prelude::*;

verus! {

/// An IP address as its octets in network order.
#[derive(Clone, Copy, Debug, PartialEq, Eq, Hash)]
pub enum IpAddress {
    /// The four octets of an IPv4 address.
    V4([u8; 4]),
    /// The sixteen octets of an IPv6 address.
    V6([u8; 16]),
}

/// The value of `c` as a digit in base `radix` (10 or 16).
pub open spec fn digit(c: char, radix: nat) -> Option<nat> {
    let x = c as u32;
    if 48 <= x <= 57 {
        Some((x - 48) as nat)
    } else if radix == 16 && 97 <= x <= 102 {
        Some((x - 87) as nat)
    } else if radix == 16 && 65 <= x <= 70 {
        Some((x - 55) as nat)
    } else {
        None
    }
}

/// The number that the digits of `s` write in base `radix`, if all of `s`
/// is digits. The empty text writes 0.
pub open spec fn number(s: Seq<char>, radix: nat) -> Option<nat>
    decreases s.len(),
{
    if s.len() == 0 {
        Some(0)
    } else {
        match (number(s.drop_last(), radix), digit(s.last(), radix)) {
            (Some(high), Some(low)) => Some(high * radix + low),
            _ => None,
        }
    }
}

/// One part of a dotted IPv4 literal: one to three decimal digits, no
/// leading zero before another digit, at most 255.
pub open spec fn octet(s: Seq<char>) -> Option<u8> {
    if 1 <= s.len() <= 3 && (s.len() > 1 ==> s[0] != '0') {
        match number(s, 10) {
            Some(v) => if v <= 255 {
                Some(v as u8)
            } else {
                None
            },
            None => None,
        }
    } else {
        None
    }
}

/// One group of an IPv6 literal: one to four hexadecimal digits.
pub open spec fn hex_group(s: Seq<char>) -> Option<u16> {
    if 1 <= s.len() <= 4 {
        match number(s, 16) {
            Some(v) => Some(v as u16),
            None => None,
        }
    } else {
        None
    }
}

/// The octets of the IPv4 literal `s`: four octets separated by dots.
pub open spec fn ipv4(s: Seq<char>) -> Option<Seq<u8>> {
    let parts = split(s, Separator::Char('.'));
    if parts.len() == 4 && octet(parts[0]) is Some && octet(parts[1]) is Some && octet(
        parts[2],
    ) is Some && octet(parts[3]) is Some {
        Some(seq![octet(parts[0])->0, octet(parts[1])->0, octet(parts[2])->0, octet(parts[3])->0])
    } else {
        None
    }
}

/// The values of `parts`, if each of them is a group of hexadecimal digits.
pub open spec fn hex_groups(parts: Seq<Seq<char>>) -> Option<Seq<u16>> {
    if forall|i: int| 0 <= i < parts.len() ==> (#[trigger] hex_group(parts[i])) is Some {
        Some(Seq::new(parts.len(), |i: int| hex_group(parts[i])->0))
    } else {
        None
    }
}

/// The 16-bit groups written by `s`, a run of hexadecimal groups separated
/// by colons. The empty text writes no group. Where `allow_v4` holds, the
/// last part may be an IPv4 literal, which stands for two groups.
#[verifier::opaque]
pub open spec fn groups(s: Seq<char>, allow_v4: bool) -> Option<Seq<u16>> {
    if s.len() == 0 {
        Some(Seq::<u16>::empty())
    } else {
        let parts = split(s, Separator::Char(':'));
        if allow_v4 && ipv4(parts.last()) is Some {
            let a = ipv4(parts.last())->0;
            match hex_groups(parts.drop_last()) {
                Some(g) => Some(
                    g.push((a[0] * 256 + a[1]) as u16).push((a[2] * 256 + a[3]) as u16),
                ),
                None => None,
            }
        } else {
            hex_groups(parts)
        }
    }
}

/// Whether a double colon starts at index `i` of `s`.
pub open spec fn gap_at(s: Seq<char>, i: int) -> bool {
    0 <= i && i + 1 < s.len() && s[i] == ':' && s[i + 1] == ':'
}

/// The index of the first double colon of `s`, if it has one.
#[verifier::opaque]
pub open spec fn first_gap(s: Seq<char>) -> Option<int> {
    if exists|i: int| gap_at(s, i) {
        Some(choose|i: int| gap_at(s, i) && forall|j: int| 0 <= j < i ==> !gap_at(s, j))
    } else {
        None
    }
}

/// The octets of eight 16-bit groups, high octet first.
pub open spec fn group_octets(g: Seq<u16>) -> Seq<u8> {
    Seq::new(
        2 * g.len(),
        |i: int|
            if i % 2 == 0 {
                (g[i / 2] / 256) as u8
            } else {
                (g[i / 2] % 256) as u8
            },
    )
}

/// Eight groups: `head` first, `tail` last, zero groups between them.
pub open spec fn bridge(head: Seq<u16>, tail: Seq<u16>) -> Seq<u16> {
    Seq::new(
        8,
        |k: int|
            if k < head.len() {
                head[k]
            } else if k < 8 - tail.len() {
                0u16
            } else {
                tail[k - (8 - tail.len())]
            },
    )
}

/// The octets of the IPv6 literal `s`. Without a double colon it writes
/// eight groups. With one, the groups before it stand first, those after
/// it last, and zero groups fill the gap: at least one.
pub open spec fn ipv6(s: Seq<char>) -> Option<Seq<u8>> {
    match first_gap(s) {
        None => match groups(s, true) {
            Some(g) => if g.len() == 8 {
                Some(group_octets(g))
            } else {
                None
            },
            None => None,
        },
        Some(i) => match (groups(s.take(i), false), groups(s.skip(i + 2), true)) {
            (Some(head), Some(tail)) => if head.len() + tail.len() <= 7 {
                Some(group_octets(bridge(head, tail)))
            } else {
                None
            },
            _ => None,
        },
    }
}

/// The octets of the IP literal `s`: four for an IPv4 literal, else
/// sixteen for an IPv6 literal.
pub open spec fn ip_literal(s: Seq<char>) -> Option<Seq<u8>> {
    if ipv4(s) is Some {
        ipv4(s)
    } else {
        ipv6(s)
    }
}

impl IpAddress {
    /// The octets of the address.
    pub open spec fn octets(self) -> Seq<u8> {
        match self {
            IpAddress::V4(a) => a@,
            IpAddress::V6(a) => a@,
        }
    }
}

/// Reads the digits of `s` in base `radix`, for a text of at most four
/// characters.
fn parse_number(s: &Vec<char>, radix: u32) -> (out: Option<u32>)
    requires
        s.len() <= 4,
        radix == 10 || radix == 16,
    ensures
        out matches Some(v) ==> number(s@, radix as nat) == Some(v as nat) && v < 65536,
        out is None ==> number(s@, radix as nat) is None,
{
    let mut acc: u32 = 0;
    let mut i: usize = 0;
    while i < s.len()
        invariant
            0 <= i <= s.len() <= 4,
            radix == 10 || radix == 16,
            number(s@.take(i as int), radix as nat) == Some(acc as nat),
            i == 0 ==> acc == 0,
            i == 1 ==> acc < 16,
            i == 2 ==> acc < 256,
            i == 3 ==> acc < 4096,
            i == 4 ==> acc < 65536,
        decreases s.len() - i,
    {
        let x: u32 = s[i] as u32;
        proof {
            let prefix = s@.take(i + 1);
            assert(prefix.drop_last() == s@.take(i as int));
            assert(prefix.last() == s@[i as int]);
        }
        let d: u32 = if 48 <= x && x <= 57 {
            x - 48
        } else if radix == 16 && 97 <= x && x <= 102 {
            x - 87
        } else if radix == 16 && 65 <= x && x <= 70 {
            x - 55
        } else {
            proof {
                lemma_number_prefix(s@, i + 1, radix as nat);
            }
            return None;
        };
        acc = acc * radix + d;
        i += 1;
    }
    proof {
        assert(s@.take(s.len() as int) == s@);
    }
    Some(acc)
}

/// A text whose prefix is no number is no number.
pub proof fn lemma_number_prefix(s: Seq<char>, n: int, radix: nat)
    requires
        0 <= n <= s.len(),
        number(s.take(n), radix) is None,
    ensures
        number(s, radix) is None,
    decreases s.len() - n,
{
    if n < s.len() {
        assert(s.take(n + 1).drop_last() == s.take(n));
        lemma_number_prefix(s, n + 1, radix);
    } else {
        assert(s.take(n) == s);
    }
}

/// The number that a text writes is at least the number that any prefix
/// of it writes.
pub proof fn lemma_number_grows(s: Seq<char>, n: int, radix: nat)
    requires
        0 <= n <= s.len(),
        radix >= 1,
        number(s, radix) is Some,
    ensures
        number(s.take(n), radix) is Some,
        number(s.take(n), radix)->0 <= number(s, radix)->0,
    decreases s.len() - n,
{
    if n < s.len() {
        lemma_number_grows(s, n + 1, radix);
        assert(s.take(n + 1).drop_last() == s.take(n));
        let high = number(s.take(n), radix)->0;
        assert(high * radix >= high) by (nonlinear_arith)
            requires
                radix >= 1,
                high >= 0,
        ;
    } else {
        assert(s.take(n) == s);
    }
}

/// Reads one part of a dotted IPv4 literal.
fn parse_octet(s: &Vec<char>) -> (out: Option<u8>)
    ensures
        out == octet(s@),
{
    if s.len() < 1 || s.len() > 3 {
        return None;
    }
    if s.len() > 1 && s[0] == '0' {
        return None;
    }
    match parse_number(s, 10) {
        Some(v) => if v <= 255 {
            Some(v as u8)
        } else {
            None
        },
        None => None,
    }
}

/// Reads one group of an IPv6 literal.
fn parse_hex_group(s: &Vec<char>) -> (out: Option<u16>)
    ensures
        out == hex_group(s@),
{
    if s.len() < 1 || s.len() > 4 {
        return None;
    }
    match parse_number(s, 16) {
        Some(v) => Some(v as u16),
        None => None,
    }
}

/// Reads an IPv4 literal.
pub fn parse_ipv4(s: &Vec<char>) -> (out: Option<[u8; 4]>)
    ensures
        out matches Some(a) ==> ipv4(s@) == Some(a@),
        out is None ==> ipv4(s@) is None,
{
    let parts = split_text(s, Separator::Char('.'));
    if parts.len() != 4 {
        return None;
    }
    proof {
        assert(forall|i: int| 0 <= i < 4 ==> texts(parts@)[i] == parts@[i]@);
    }
    let a = parse_octet(&parts[0]);
    let b = parse_octet(&parts[1]);
    let c = parse_octet(&parts[2]);
    let d = parse_octet(&parts[3]);
    match (a, b, c, d) {
        (Some(a), Some(b), Some(c), Some(d)) => {
            let out: [u8; 4] = [a, b, c, d];
            proof {
                assert(out@ =~= seq![a, b, c, d]);
            }
            Some(out)
        },
        _ => None,
    }
}

/// Reads a run of colon-separated groups.
fn parse_groups(s: &Vec<char>, allow_v4: bool) -> (out: Option<Vec<u16>>)
    ensures
        out matches Some(g) ==> groups(s@, allow_v4) == Some(g@),
        out is None ==> groups(s@, allow_v4) is None,
{
    reveal(groups);
    if s.len() == 0 {
        return Some(Vec::new());
    }
    let parts = split_text(s, Separator::Char(':'));
    proof {
        lemma_split_nonempty(s@, Separator::Char(':'));
        assert(forall|i: int| 0 <= i < parts@.len() ==> texts(parts@)[i] == parts@[i]@);
    }
    let n = parts.len();
    let mut last: Option<[u8; 4]> = None;
    let mut count = n;
    if allow_v4 {
        match parse_ipv4(&parts[n - 1]) {
            Some(a) => {
                last = Some(a);
                count = n - 1;
            },
            None => {},
        }
    }
    let ghost all = split(s@, Separator::Char(':'));
    let ghost plain = all.take(count as int);
    proof {
        assert(count == n ==> plain == all);
        assert(count == n - 1 ==> plain == all.drop_last());
    }
    let mut out: Vec<u16> = Vec::new();
    let mut i: usize = 0;
    while i < count
        invariant
            0 <= i <= count <= n,
            n == parts@.len(),
            all == texts(parts@),
            plain == all.take(count as int),
            groups(s@, allow_v4) == if count == n {
                hex_groups(plain)
            } else {
                match hex_groups(plain) {
                    Some(g) => Some(
                        g.push((last->0@[0] * 256 + last->0@[1]) as u16).push(
                            (last->0@[2] * 256 + last->0@[3]) as u16,
                        ),
                    ),
                    None => None,
                }
            },
            count != n ==> last is Some,
            count == n ==> last is None,
            forall|k: int| 0 <= k < i ==> (#[trigger] hex_group(plain[k])) is Some,
            out@ == Seq::new(i as nat, |k: int| hex_group(plain[k])->0),
        decreases count - i,
    {
        proof {
            assert(plain[i as int] == parts@[i as int]@);
        }
        match parse_hex_group(&parts[i]) {
            Some(g) => {
                out.push(g);
            },
            None => {
                proof {
                    assert(hex_group(plain[i as int]) is None);
                }
                return None;
            },
        }
        i += 1;
    }
    match last {
        Some(a) => {
            out.push(a[0] as u16 * 256 + a[1] as u16);
            out.push(a[2] as u16 * 256 + a[3] as u16);
        },
        None => {},
    }
    Some(out)
}

/// Finds the first double colon of `s`.
fn find_gap(s: &Vec<char>) -> (out: Option<usize>)
    ensures
        out matches Some(i) ==> first_gap(s@) == Some(i as int) && gap_at(s@, i as int),
        out is None ==> first_gap(s@) is None,
{
    reveal(first_gap);
    if s.len() < 2 {
        return None;
    }
    let mut i: usize = 0;
    while i < s.len() - 1
        invariant
            2 <= s.len(),
            0 <= i <= s.len() - 1,
            forall|j: int| 0 <= j < i ==> !gap_at(s@, j),
        decreases s.len() - i,
    {
        if s[i] == ':' && s[i + 1] == ':' {
            proof {
                reveal(first_gap);
                assert(gap_at(s@, i as int));
                let found = first_gap(s@)->0;
                assert(gap_at(s@, found) && forall|j: int| 0 <= j < found ==> !gap_at(s@, j));
                assert(found == i);
            }
            return Some(i);
        }
        i += 1;
    }
    None
}

/// A copy of the characters of `s` from index `from` up to `to`.
fn copy_range(s: &Vec<char>, from: usize, to: usize) -> (out: Vec<char>)
    requires
        from <= to <= s.len(),
    ensures
        out@ == s@.subrange(from as int, to as int),
{
    let mut out: Vec<char> = Vec::new();
    let mut i: usize = from;
    while i < to
        invariant
            from <= i <= to <= s.len(),
            out@ == s@.subrange(from as int, i as int),
        decreases to - i,
    {
        out.push(s[i]);
        i += 1;
    }
    out
}

/// The octets of eight groups.
fn octets_of(g: &Vec<u16>) -> (out: [u8; 16])
    requires
        g.len() == 8,
    ensures
        out@ == group_octets(g@),
{
    let out: [u8; 16] = [
        (g[0] / 256) as u8,
        (g[0] % 256) as u8,
        (g[1] / 256) as u8,
        (g[1] % 256) as u8,
        (g[2] / 256) as u8,
        (g[2] % 256) as u8,
        (g[3] / 256) as u8,
        (g[3] % 256) as u8,
        (g[4] / 256) as u8,
        (g[4] % 256) as u8,
        (g[5] / 256) as u8,
        (g[5] % 256) as u8,
        (g[6] / 256) as u8,
        (g[6] % 256) as u8,
        (g[7] / 256) as u8,
        (g[7] % 256) as u8,
    ];
    proof {
        assert(out@ =~= group_octets(g@));
    }
    out
}

/// Eight groups: `head`, then zero groups, then `tail`.
fn fill_gap(head: Vec<u16>, tail: &Vec<u16>) -> (all: Vec<u16>)
    requires
        head.len() + tail.len() <= 7,
    ensures
        all@ == bridge(head@, tail@),
        all.len() == 8,
{
    let zeros = 8 - head.len() - tail.len();
    let ghost head_groups = head@;
    let mut all: Vec<u16> = head;
    let n = all.len();
    let mut k: usize = 0;
    while k < zeros
        invariant
            0 <= k <= zeros,
            n == head_groups.len(),
            zeros == 8 - n - tail.len(),
            all@.len() == n + k,
            forall|j: int| 0 <= j < n + k ==> all@[j] == bridge(head_groups, tail@)[j],
        decreases zeros - k,
    {
        all.push(0u16);
        k += 1;
    }
    let mut t: usize = 0;
    while t < tail.len()
        invariant
            0 <= t <= tail.len(),
            n == head_groups.len(),
            zeros == 8 - n - tail.len(),
            all@.len() == n + zeros + t,
            forall|j: int| 0 <= j < n + zeros + t ==> all@[j] == bridge(head_groups, tail@)[j],
        decreases tail.len() - t,
    {
        all.push(tail[t]);
        t += 1;
    }
    proof {
        assert(all@ =~= bridge(head_groups, tail@));
    }
    all
}

/// Reads an IPv6 literal.
pub fn parse_ipv6(s: &Vec<char>) -> (out: Option<[u8; 16]>)
    ensures
        out matches Some(a) ==> ipv6(s@) == Some(a@),
        out is None ==> ipv6(s@) is None,
{
    match find_gap(s) {
        None => match parse_groups(s, true) {
            Some(g) => if g.len() == 8 {
                Some(octets_of(&g))
            } else {
                None
            },
            None => None,
        },
        Some(i) => {
            assert(i + 1 < s.len());
            let head_text = copy_range(s, 0, i);
            let tail_text = copy_range(s, i + 2, s.len());
            proof {
                assert(head_text@ == s@.take(i as int));
                assert(tail_text@ == s@.skip(i + 2));
            }
            match (parse_groups(&head_text, false), parse_groups(&tail_text, true)) {
                (Some(head), Some(tail)) => {
                    if head.len() > 7 || tail.len() > 7 - head.len() {
                        return None;
                    }
                    let all = fill_gap(head, &tail);
                    Some(octets_of(&all))
                },
                _ => None,
            }
        },
    }
}

/// Reads an IP literal: an IPv4 literal where `s` is one, else an IPv6
/// literal.
pub fn parse_ip(s: &Vec<char>) -> (out: Option<IpAddress>)
    ensures
        out matches Some(a) ==> ip_literal(s@) == Some(a.octets()),
        out matches Some(IpAddress::V4(_)) ==> ipv4(s@) is Some,
        out matches Some(IpAddress::V6(_)) ==> ipv4(s@) is None,
        out is None ==> ip_literal(s@) is None,
{
    match parse_ipv4(s) {
        Some(a) => Some(IpAddress::V4(a)),
        None => match parse_ipv6(s) {
            Some(a) => Some(IpAddress::V6(a)),
            None => None,
        },
    }
}

} // verus!
