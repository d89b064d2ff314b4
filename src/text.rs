//! Byte-level text rules shared by the record and timestamp grammars:
//! well-formed UTF-8 and unsigned ASCII decimal numbers.
use vstd::prelude::*;

verus! {

/// A UTF-8 continuation byte (`10xxxxxx`).
pub open spec fn is_continuation(b: u8) -> bool {
    0x80 <= b <= 0xBF
}

/// Length of the well-formed UTF-8 sequence that starts `s`, or 0 when `s`
/// is empty or does not start with one (the table of well-formed byte
/// sequences of the Unicode standard: no overlong forms, no surrogates,
/// nothing above U+10FFFF).
pub open spec fn utf8_char_len(s: Seq<u8>) -> int {
    if s.len() == 0 {
        0
    } else if s[0] <= 0x7F {
        1
    } else if 0xC2 <= s[0] <= 0xDF && s.len() >= 2 && is_continuation(s[1]) {
        2
    } else if s.len() >= 3 && is_continuation(s[2]) && (
        (s[0] == 0xE0 && 0xA0 <= s[1] <= 0xBF)
        || ((0xE1 <= s[0] <= 0xEC || 0xEE <= s[0] <= 0xEF) && is_continuation(s[1]))
        || (s[0] == 0xED && 0x80 <= s[1] <= 0x9F)) {
        3
    } else if s.len() >= 4 && is_continuation(s[2]) && is_continuation(s[3]) && (
        (s[0] == 0xF0 && 0x90 <= s[1] <= 0xBF)
        || (0xF1 <= s[0] <= 0xF3 && is_continuation(s[1]))
        || (s[0] == 0xF4 && 0x80 <= s[1] <= 0x8F)) {
        4
    } else {
        0
    }
}

/// `s` is a sequence of well-formed UTF-8 characters.
pub open spec fn valid_utf8(s: Seq<u8>) -> bool
    decreases s.len(),
{
    if s.len() == 0 {
        true
    } else {
        let n = utf8_char_len(s);
        n > 0 && valid_utf8(s.skip(n))
    }
}

/// Length of the well-formed UTF-8 sequence at `s[i..]`, 0 if there is none.
fn char_len_at(s: &[u8], i: usize) -> (r: usize)
    requires
        i <= s@.len(),
    ensures
        r as int == utf8_char_len(s@.skip(i as int)),
{
    let t = Ghost(s@.skip(i as int));
    let n = s.len() - i;
    if n == 0 {
        return 0;
    }
    let b0 = s[i];
    if b0 <= 0x7F {
        1
    } else if 0xC2 <= b0 && b0 <= 0xDF && n >= 2 && 0x80 <= s[i + 1] && s[i + 1] <= 0xBF {
        2
    } else if n >= 3 && 0x80 <= s[i + 2] && s[i + 2] <= 0xBF && (
        (b0 == 0xE0 && 0xA0 <= s[i + 1] && s[i + 1] <= 0xBF)
        || (((0xE1 <= b0 && b0 <= 0xEC) || (0xEE <= b0 && b0 <= 0xEF)) && 0x80 <= s[i + 1] && s[i + 1] <= 0xBF)
        || (b0 == 0xED && 0x80 <= s[i + 1] && s[i + 1] <= 0x9F)) {
        3
    } else if n >= 4 && 0x80 <= s[i + 2] && s[i + 2] <= 0xBF && 0x80 <= s[i + 3] && s[i + 3] <= 0xBF && (
        (b0 == 0xF0 && 0x90 <= s[i + 1] && s[i + 1] <= 0xBF)
        || (0xF1 <= b0 && b0 <= 0xF3 && 0x80 <= s[i + 1] && s[i + 1] <= 0xBF)
        || (b0 == 0xF4 && 0x80 <= s[i + 1] && s[i + 1] <= 0x8F)) {
        4
    } else {
        0
    }
}

/// Whether `s` is well-formed UTF-8.
pub fn is_valid_utf8(s: &[u8]) -> (r: bool)
    ensures
        r == valid_utf8(s@),
{
    let mut i: usize = 0;
    assert(s@.skip(0) =~= s@);
    while i < s.len()
        invariant
            i <= s@.len(),
            valid_utf8(s@) == valid_utf8(s@.skip(i as int)),
        decreases s@.len() - i,
    {
        let n = char_len_at(s, i);
        if n == 0 {
            return false;
        }
        assert(s@.skip(i as int).skip(n as int) =~= s@.skip(i + n));
        i = i + n;
    }
    assert(s@.skip(i as int) =~= Seq::<u8>::empty());
    true
}

/// An ASCII decimal digit.
pub open spec fn is_digit(b: u8) -> bool {
    0x30 <= b <= 0x39
}

/// Value of a run of ASCII decimal digits, most significant first.
pub open spec fn digits_value(s: Seq<u8>) -> nat
    decreases s.len(),
{
    if s.len() == 0 {
        0
    } else {
        digits_value(s.drop_last()) * 10 + (s.last() - 0x30) as nat
    }
}

pub open spec fn all_digits(s: Seq<u8>) -> bool {
    forall|i: int| 0 <= i < s.len() ==> is_digit(#[trigger] s[i])
}

/// The digits of an unsigned decimal: `s` without one leading `+`.
pub open spec fn unsigned_digits(s: Seq<u8>) -> Seq<u8> {
    if s.len() > 0 && s[0] == 0x2B {
        s.skip(1)
    } else {
        s
    }
}

/// `s` is an unsigned decimal (an optional `+`, then one or more digits)
/// whose value is at most `max`.
pub open spec fn is_decimal_at_most(s: Seq<u8>, max: nat) -> bool {
    let d = unsigned_digits(s);
    d.len() > 0 && all_digits(d) && digits_value(d) <= max
}

/// The value of the unsigned decimal `s`.
pub open spec fn decimal_value(s: Seq<u8>) -> nat {
    digits_value(unsigned_digits(s))
}

/// Reads `s` as an unsigned decimal of at most `max`; `None` when `s` is not
/// one or its value is larger.
pub fn parse_decimal(s: &[u8], max: u32) -> (r: Option<u32>)
    ensures
        r is Some <==> is_decimal_at_most(s@, max as nat),
        r matches Some(v) ==> v as nat == decimal_value(s@),
{
    let start: usize = if s.len() > 0 && s[0] == 0x2B { 1 } else { 0 };
    let ghost d = unsigned_digits(s@);
    assert(d =~= s@.skip(start as int));
    if start == s.len() {
        return None;
    }
    let mut value: u64 = 0;
    let mut over = false;
    let mut i: usize = start;
    while i < s.len()
        invariant
            start <= i <= s@.len(),
            d =~= s@.skip(start as int),
            d == unsigned_digits(s@),
            all_digits(d.take(i - start)),
            over ==> digits_value(d.take(i - start)) > max,
            !over ==> value as nat == digits_value(d.take(i - start)) && value <= max,
        decreases s@.len() - i,
    {
        let b = s[i];
        if b < 0x30 || b > 0x39 {
            assert(d[i - start] == s@[i as int]);
            assert(!is_digit(d[i - start]));
            assert(!all_digits(d));
            return None;
        }
        let ghost prefix = d.take(i - start);
        let ghost next = d.take(i + 1 - start);
        assert(next.drop_last() =~= prefix);
        assert(next.last() == b);
        assert(all_digits(next)) by {
            assert forall|k: int| 0 <= k < next.len() implies is_digit(#[trigger] next[k]) by {
                if k < prefix.len() {
                    assert(next[k] == prefix[k]);
                }
            }
        }
        if !over {
            let v = value * 10 + (b - 0x30) as u64;
            if v > max as u64 {
                over = true;
            } else {
                value = v;
            }
        } else {
            assert(digits_value(next) >= digits_value(prefix));
        }
        i = i + 1;
    }
    assert(d.take(i - start) =~= d);
    if over {
        None
    } else {
        Some(value as u32)
    }
}

/// `d` occurs in `s` starting at index `i`.
pub open spec fn occurs_at(s: Seq<u8>, d: Seq<u8>, i: int) -> bool {
    0 <= i && i + d.len() <= s.len() && s.subrange(i, i + d.len()) == d
}

/// The first index `i >= from` at which `d` occurs in `s`.
pub open spec fn find(s: Seq<u8>, d: Seq<u8>, from: int) -> Option<int>
    decreases s.len() + 1 - from,
{
    if from < 0 || from + d.len() > s.len() {
        None
    } else if occurs_at(s, d, from) {
        Some(from)
    } else {
        find(s, d, from + 1)
    }
}

/// Skipping indices at which `d` does not occur leaves the search unchanged.
pub proof fn lemma_find_skip(s: Seq<u8>, d: Seq<u8>, from: int, to: int)
    requires
        0 <= from <= to,
        forall|i: int| from <= i < to ==> !#[trigger] occurs_at(s, d, i),
    ensures
        find(s, d, from) == find(s, d, to),
    decreases to - from,
{
    if from < to {
        lemma_find_skip(s, d, from + 1, to);
    }
}

/// What a found index is: an occurrence, the first one from `from` on.
pub proof fn lemma_find_found(s: Seq<u8>, d: Seq<u8>, from: int)
    ensures
        find(s, d, from) matches Some(i) ==> from <= i && occurs_at(s, d, i) && forall|j: int|
            from <= j < i ==> !#[trigger] occurs_at(s, d, j),
    decreases s.len() + 1 - from,
{
    if from >= 0 && from + d.len() <= s.len() && !occurs_at(s, d, from) {
        lemma_find_found(s, d, from + 1);
    }
}

/// The first index at or after `from` that holds the byte `b`.
pub fn position_of(s: &[u8], b: u8, from: usize) -> (r: Option<usize>)
    ensures
        r matches Some(i) ==> find(s@, seq![b], from as int) == Some(i as int) && i < s@.len(),
        r is None ==> find(s@, seq![b], from as int) is None,
{
    let ghost d = seq![b];
    if from >= s.len() {
        return None;
    }
    let mut i: usize = from;
    while i < s.len()
        invariant
            from <= i <= s@.len(),
            d == seq![b],
            find(s@, d, from as int) == find(s@, d, i as int),
        decreases s@.len() - i,
    {
        if s[i] == b {
            assert(s@.subrange(i as int, i + 1) =~= d);
            return Some(i);
        }
        assert(s@.subrange(i as int, i + 1)[0] != d[0]);
        i = i + 1;
    }
    None
}

} // verus!
