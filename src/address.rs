//! The requestor field: an IPv4 address in dotted-decimal form, or an IPv6
//! address in colon-separated hexadecimal groups.
use vstd::prelude::*;
use vstd::slice::slice_subrange;

use crate::text::{all_digits, digits_value, find, is_digit, parse_decimal, position_of};

verus! {

pub const DOT: u8 = 0x2E;
pub const COLON: u8 = 0x3A;

/// An IP address of a requestor.
#[derive(Clone, Copy, Debug, PartialEq, Eq, Structural)]
pub enum IpAddress {
    /// The four octets of an IPv4 address, most significant first.
    V4(u8, u8, u8, u8),
    /// An IPv6 address as one 128-bit number, its first group most
    /// significant.
    V6(u128),
}

/// One decimal octet: one to three digits, no leading zero unless the octet
/// is `0` itself, a value of at most 255.
pub open spec fn octet_value(p: Seq<u8>) -> Option<u8> {
    if 1 <= p.len() <= 3 && all_digits(p) && (p.len() == 1 || p[0] != 0x30) && digits_value(p) <= 255 {
        Some(digits_value(p) as u8)
    } else {
        None
    }
}

/// The `n` dot-separated octets that make up all of `s`.
pub open spec fn dotted_octets(s: Seq<u8>, n: nat) -> Option<Seq<u8>>
    decreases n,
{
    let k = match find(s, seq![DOT], 0) {
        Some(i) => i,
        None => s.len() as int,
    };
    let v = octet_value(s.take(k));
    if n == 0 || v is None {
        None
    } else if n == 1 {
        if k == s.len() { Some(seq![v->0]) } else { None }
    } else if k == s.len() {
        None
    } else {
        match dotted_octets(s.skip(k + 1), (n - 1) as nat) {
            Some(rest) => Some(seq![v->0] + rest),
            None => None,
        }
    }
}

/// Value of an ASCII hexadecimal digit (either case), or `None`.
pub open spec fn hex_digit(b: u8) -> Option<nat> {
    if 0x30 <= b <= 0x39 {
        Some((b - 0x30) as nat)
    } else if 0x41 <= b <= 0x46 {
        Some((b - 0x41 + 10) as nat)
    } else if 0x61 <= b <= 0x66 {
        Some((b - 0x61 + 10) as nat)
    } else {
        None
    }
}

/// Value of a run of hexadecimal digits, or `None` if one is not a digit.
pub open spec fn hex_value(p: Seq<u8>) -> Option<nat>
    decreases p.len(),
{
    if p.len() == 0 {
        Some(0)
    } else {
        match (hex_value(p.drop_last()), hex_digit(p.last())) {
            (Some(hi), Some(lo)) => Some(hi * 16 + lo),
            _ => None,
        }
    }
}

/// One group of an IPv6 address: one to four hexadecimal digits.
pub open spec fn hex_group(p: Seq<u8>) -> Option<u16> {
    if 1 <= p.len() <= 4 && hex_value(p) is Some {
        Some(hex_value(p)->0 as u16)
    } else {
        None
    }
}

/// The groups of `s`: at most `n` parts separated by `:`, each a group,
/// except that when `v4_last` the last part may be an IPv4 address, which
/// stands for two groups.
pub open spec fn groups_in(s: Seq<u8>, v4_last: bool, n: nat) -> Option<Seq<u16>>
    decreases n,
{
    let i = find(s, seq![COLON], 0);
    if n == 0 {
        None
    } else if i is None {
        match dotted_octets(s, 4) {
            Some(o) if v4_last => Some(seq![(o[0] * 256 + o[1]) as u16, (o[2] * 256 + o[3]) as u16]),
            _ => match hex_group(s) {
                Some(g) => Some(seq![g]),
                None => None,
            },
        }
    } else {
        match (hex_group(s.take(i->0)), groups_in(s.skip(i->0 + 1), v4_last, (n - 1) as nat)) {
            (Some(g), Some(rest)) => Some(seq![g] + rest),
            _ => None,
        }
    }
}

/// The eight groups of the IPv6 text `s`: eight groups (or six and an IPv4
/// address) without `::`, or at most seven around one `::`, which stands
/// for the zero groups that are missing. Only the part after `::` may end
/// in an IPv4 address.
pub open spec fn ipv6_groups(s: Seq<u8>) -> Option<Seq<u16>> {
    let p = find(s, seq![COLON, COLON], 0);
    let head = s.take(p->0);
    let tail = s.skip(p->0 + 2);
    let hg = if head.len() == 0 { Some(Seq::<u16>::empty()) } else { groups_in(head, false, 7) };
    let tg = if tail.len() == 0 { Some(Seq::<u16>::empty()) } else { groups_in(tail, true, 7) };
    if p is None {
        match groups_in(s, true, 8) {
            Some(g) if g.len() == 8 => Some(g),
            _ => None,
        }
    } else if hg is None || tg is None || hg->0.len() + tg->0.len() > 7 {
        None
    } else {
        Some(hg->0 + Seq::new((8 - hg->0.len() - tg->0.len()) as nat, |k: int| 0u16) + tg->0)
    }
}

/// The number whose base-65536 digits are `g`, most significant first.
pub open spec fn groups_value(g: Seq<u16>) -> nat
    decreases g.len(),
{
    if g.len() == 0 {
        0
    } else {
        groups_value(g.drop_last()) * 65536 + g.last() as nat
    }
}

/// The address that the text `s` denotes, if it denotes one.
pub open spec fn address_of(s: Seq<u8>) -> Option<IpAddress> {
    match dotted_octets(s, 4) {
        Some(o) => Some(IpAddress::V4(o[0], o[1], o[2], o[3])),
        None => match ipv6_groups(s) {
            Some(g) => Some(IpAddress::V6(groups_value(g) as u128)),
            None => None,
        },
    }
}

fn octet_at(p: &[u8]) -> (r: Option<u8>)
    ensures
        r == octet_value(p@),
{
    if p.len() < 1 || p.len() > 3 || p[0] < 0x30 || p[0] > 0x39 || (p.len() > 1 && p[0] == 0x30) {
        proof {
            if p@.len() >= 1 && !is_digit(p@[0]) {
                assert(!all_digits(p@));
            }
        }
        return None;
    }
    assert(crate::text::unsigned_digits(p@) == p@);
    match parse_decimal(p, 255) {
        Some(v) => Some(v as u8),
        None => None,
    }
}

fn dotted_octets_exec(s: &[u8], n: usize) -> (r: Option<Vec<u8>>)
    requires
        n <= 4,
    ensures
        r matches Some(v) ==> dotted_octets(s@, n as nat) == Some(v@),
        r is None ==> dotted_octets(s@, n as nat) is None,
    decreases n,
{
    let k = match position_of(s, DOT, 0) {
        Some(i) => i,
        None => s.len(),
    };
    let head = slice_subrange(s, 0, k);
    assert(head@ =~= s@.take(k as int));
    let v = match octet_at(head) {
        Some(v) => v,
        None => return None,
    };
    if n == 0 {
        return None;
    }
    if n == 1 {
        if k == s.len() {
            let mut out: Vec<u8> = Vec::new();
            out.push(v);
            assert(out@ =~= seq![v]);
            return Some(out);
        }
        return None;
    }
    if k == s.len() {
        return None;
    }
    let tail = slice_subrange(s, k + 1, s.len());
    assert(tail@ =~= s@.skip(k + 1));
    match dotted_octets_exec(tail, n - 1) {
        Some(rest) => {
            let mut out: Vec<u8> = Vec::new();
            out.push(v);
            let mut j: usize = 0;
            while j < rest.len()
                invariant
                    j <= rest@.len(),
                    out@ =~= seq![v] + rest@.take(j as int),
                decreases rest@.len() - j,
            {
                out.push(rest[j]);
                assert(rest@.take(j + 1) =~= rest@.take(j as int).push(rest@[j as int]));
                j = j + 1;
            }
            assert(rest@.take(j as int) =~= rest@);
            Some(out)
        },
        None => None,
    }
}

fn hex_digit_of(b: u8) -> (r: Option<u8>)
    ensures
        r matches Some(v) ==> hex_digit(b) == Some(v as nat) && v < 16,
        r is None ==> hex_digit(b) is None,
{
    if 0x30 <= b && b <= 0x39 {
        Some(b - 0x30)
    } else if 0x41 <= b && b <= 0x46 {
        Some(b - 0x41 + 10)
    } else if 0x61 <= b && b <= 0x66 {
        Some(b - 0x61 + 10)
    } else {
        None
    }
}

fn hex_group_at(p: &[u8]) -> (r: Option<u16>)
    ensures
        r == hex_group(p@),
{
    if p.len() < 1 || p.len() > 4 {
        return None;
    }
    let mut v: u32 = 0;
    let mut i: usize = 0;
    while i < p.len()
        invariant
            1 <= p@.len() <= 4,
            i <= p@.len(),
            hex_value(p@.take(i as int)) == Some(v as nat),
            v < (if i == 0 { 1u32 } else if i == 1 { 16u32 } else if i == 2 { 256u32 } else if i == 3 { 4096u32 } else { 65536u32 }),
        decreases p@.len() - i,
    {
        assert(p@.take(i + 1).drop_last() =~= p@.take(i as int));
        match hex_digit_of(p[i]) {
            Some(d) => {
                v = v * 16 + d as u32;
            },
            None => {
                proof {
                    lemma_hex_value_none(p@, i + 1);
                }
                return None;
            },
        }
        i = i + 1;
    }
    assert(p@.take(i as int) =~= p@);
    Some(v as u16)
}

proof fn lemma_hex_value_none(p: Seq<u8>, k: int)
    requires
        1 <= k <= p.len(),
        hex_value(p.take(k)) is None,
    ensures
        hex_value(p) is None,
    decreases p.len() - k,
{
    if k < p.len() {
        assert(p.take(k + 1).drop_last() =~= p.take(k));
        lemma_hex_value_none(p, k + 1);
    } else {
        assert(p.take(k) =~= p);
    }
}

fn prepend(g: u16, rest: Vec<u16>) -> (r: Vec<u16>)
    ensures
        r@ == seq![g] + rest@,
{
    let mut out: Vec<u16> = Vec::new();
    out.push(g);
    let mut j: usize = 0;
    while j < rest.len()
        invariant
            j <= rest@.len(),
            out@ =~= seq![g] + rest@.take(j as int),
        decreases rest@.len() - j,
    {
        out.push(rest[j]);
        assert(rest@.take(j + 1) =~= rest@.take(j as int).push(rest@[j as int]));
        j = j + 1;
    }
    assert(rest@.take(j as int) =~= rest@);
    out
}

fn groups_exec(s: &[u8], v4_last: bool, n: usize) -> (r: Option<Vec<u16>>)
    ensures
        r matches Some(g) ==> groups_in(s@, v4_last, n as nat) == Some(g@),
        r is None ==> groups_in(s@, v4_last, n as nat) is None,
    decreases n,
{
    if n == 0 {
        return None;
    }
    match position_of(s, COLON, 0) {
        None => {
            if v4_last {
                if let Some(o) = dotted_octets_exec(s, 4) {
                    proof {
                        lemma_dotted_len(s@, 4);
                    }
                    let mut out: Vec<u16> = Vec::new();
                    out.push(o[0] as u16 * 256 + o[1] as u16);
                    out.push(o[2] as u16 * 256 + o[3] as u16);
                    assert(out@ =~= seq![(o@[0] * 256 + o@[1]) as u16, (o@[2] * 256 + o@[3]) as u16]);
                    return Some(out);
                }
            }
            match hex_group_at(s) {
                Some(g) => {
                    let mut out: Vec<u16> = Vec::new();
                    out.push(g);
                    assert(out@ =~= seq![g]);
                    Some(out)
                },
                None => None,
            }
        },
        Some(i) => {
            let head = slice_subrange(s, 0, i);
            assert(head@ =~= s@.take(i as int));
            let g = match hex_group_at(head) {
                Some(g) => g,
                None => return None,
            };
            let tail = slice_subrange(s, i + 1, s.len());
            assert(tail@ =~= s@.skip(i + 1));
            match groups_exec(tail, v4_last, n - 1) {
                Some(rest) => Some(prepend(g, rest)),
                None => None,
            }
        },
    }
}

/// Position of the first `::` in `s`.
fn double_colon_at(s: &[u8]) -> (r: Option<usize>)
    ensures
        r matches Some(i) ==> find(s@, seq![COLON, COLON], 0) == Some(i as int) && i + 2 <= s@.len(),
        r is None ==> find(s@, seq![COLON, COLON], 0) is None,
{
    let ghost d = seq![COLON, COLON];
    let mut i: usize = 0;
    assert(s@.len() < 2 ==> find(s@, d, 0) is None);
    while i < s.len() && s.len() - i >= 2
        invariant
            i <= s@.len(),
            d == seq![COLON, COLON],
            find(s@, d, 0) == find(s@, d, i as int),
        decreases s@.len() - i,
    {
        if s[i] == COLON && s[i + 1] == COLON {
            assert(s@.subrange(i as int, i + 2) =~= d);
            return Some(i);
        }
        assert(s@.subrange(i as int, i + 2)[0] != d[0] || s@.subrange(i as int, i + 2)[1] != d[1]);
        i = i + 1;
    }
    None
}

fn ipv6_exec(s: &[u8]) -> (r: Option<Vec<u16>>)
    ensures
        r matches Some(g) ==> ipv6_groups(s@) == Some(g@) && g@.len() == 8,
        r is None ==> ipv6_groups(s@) is None,
{
    match double_colon_at(s) {
        None => match groups_exec(s, true, 8) {
            Some(g) if g.len() == 8 => Some(g),
            _ => None,
        },
        Some(p) => {
            let len = s.len();
            assert(p + 2 <= len);
            let head = slice_subrange(s, 0, p);
            assert(head@ =~= s@.take(p as int));
            let tail = slice_subrange(s, p + 2, len);
            assert(tail@ =~= s@.skip(p + 2));
            let hg = if head.len() == 0 { Some(Vec::new()) } else { groups_exec(head, false, 7) };
            let tg = if tail.len() == 0 { Some(Vec::new()) } else { groups_exec(tail, true, 7) };
            match (hg, tg) {
                (Some(hg), Some(tg)) => {
                    if hg.len() > 7 || tg.len() > 7 - hg.len() {
                        return None;
                    }
                    let zeros = 8 - hg.len() - tg.len();
                    let mut out: Vec<u16> = hg;
                    let ghost hv = out@;
                    let mut k: usize = 0;
                    while k < zeros
                        invariant
                            k <= zeros,
                            out@ =~= hv + Seq::new(k as nat, |j: int| 0u16),
                        decreases zeros - k,
                    {
                        out.push(0);
                        k = k + 1;
                    }
                    let ghost mid = out@;
                    let mut j: usize = 0;
                    while j < tg.len()
                        invariant
                            j <= tg@.len(),
                            out@ =~= mid + tg@.take(j as int),
                        decreases tg@.len() - j,
                    {
                        out.push(tg[j]);
                        assert(tg@.take(j + 1) =~= tg@.take(j as int).push(tg@[j as int]));
                        j = j + 1;
                    }
                    assert(tg@.take(j as int) =~= tg@);
                    Some(out)
                },
                _ => None,
            }
        },
    }
}

/// Reads a requestor address; `None` when `s` is not the text of one.
pub fn parse_address(s: &[u8]) -> (r: Option<IpAddress>)
    ensures
        r == address_of(s@),
{
    match dotted_octets_exec(s, 4) {
        Some(o) => {
            proof {
                lemma_dotted_len(s@, 4);
            }
            Some(IpAddress::V4(o[0], o[1], o[2], o[3]))
        },
        None => match ipv6_exec(s) {
            Some(g) => {
                let v = ((((((g[0] as u128 * 65536 + g[1] as u128) * 65536 + g[2] as u128) * 65536
                    + g[3] as u128) * 65536 + g[4] as u128) * 65536 + g[5] as u128) * 65536
                    + g[6] as u128) * 65536 + g[7] as u128;
                proof {
                    reveal_with_fuel(groups_value, 9);
                    assert(g@.drop_last().drop_last().drop_last().drop_last().drop_last().drop_last().drop_last().drop_last() =~= Seq::<u16>::empty());
                }
                Some(IpAddress::V6(v))
            },
            None => None,
        },
    }
}

proof fn lemma_dotted_len(s: Seq<u8>, n: nat)
    ensures
        dotted_octets(s, n) matches Some(o) ==> o.len() == n,
    decreases n,
{
    if n > 1 {
        let k = match find(s, seq![DOT], 0) {
            Some(i) => i,
            None => s.len() as int,
        };
        lemma_dotted_len(s.skip(k + 1), (n - 1) as nat);
    }
}

} // verus!
