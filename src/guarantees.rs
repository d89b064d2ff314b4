//! What reading records guarantees, stated over the grammar that
//! [`LogReader::read_one`](crate::access_logs::LogReader::read_one) follows.
use vstd::prelude::*;

use crate::access_logs::{
    agent_end, blank_prefix, bytes_end, line_of, next_entry, number_part, referrer_end,
    request_end, requestor_end, requestor_part, time_end, time_part, LogEntryView,
    ReadError, BAD_REQUEST, NEWLINE, OPEN_BRACKET, SPACE, is_whitespace, skip_whitespace,
    token_end,
};
use crate::text::{decimal_value, find, is_decimal_at_most, lemma_find_found, occurs_at, valid_utf8};

verus! {

/// `k` line feeds.
pub open spec fn blank_lines(k: nat) -> Seq<u8> {
    Seq::new(k, |i: int| NEWLINE)
}

proof fn lemma_blank_prefix_bound(s: Seq<u8>)
    ensures
        blank_prefix(s) <= s.len(),
    decreases s.len(),
{
    if s.len() > 0 && s[0] == NEWLINE {
        lemma_blank_prefix_bound(s.skip(1));
    }
}

proof fn lemma_blank_prefix_of_blanks(k: nat, s: Seq<u8>)
    ensures
        blank_prefix(blank_lines(k) + s) == k + blank_prefix(s),
    decreases k,
{
    if k > 0 {
        let u = blank_lines(k) + s;
        assert(u[0] == NEWLINE);
        assert(u.skip(1) =~= blank_lines((k - 1) as nat) + s);
        lemma_blank_prefix_of_blanks((k - 1) as nat, s);
    } else {
        assert(blank_lines(0) + s =~= s);
    }
}

/// Input made only of line feeds holds no record: reading it gives the
/// clean end of the stream, not an error.
pub proof fn lemma_only_blank_lines_end(k: nat)
    ensures
        next_entry(blank_lines(k)) == Ok::<Option<(LogEntryView, int)>, ReadError>(None),
{
    lemma_blank_prefix_of_blanks(k, Seq::empty());
    assert(blank_lines(k) + Seq::<u8>::empty() =~= blank_lines(k));
}

/// Empty lines before a record are skipped: the same record (or the same
/// error, or the same end) comes after them, and they are consumed with it.
pub proof fn lemma_blank_lines_skipped(k: nat, s: Seq<u8>)
    ensures
        next_entry(blank_lines(k) + s) == match next_entry(s) {
            Ok(Some((v, n))) => Ok(Some((v, n + k))),
            other => other,
        },
{
    lemma_blank_prefix_of_blanks(k, s);
    lemma_blank_prefix_bound(s);
    let u = blank_lines(k) + s;
    let b = blank_prefix(s) as int;
    assert(u.skip(k + b) =~= s.skip(b));
}

/// The request line of the line `t`: what stands between the timestamp's
/// `] "` and the next `" `.
pub open spec fn request_line(t: Seq<u8>) -> Seq<u8> {
    match requestor_part(t) {
        Ok((_, p)) => match time_part(t, p) {
            Ok((_, q)) => t.subrange(q, find(t, request_end(), q)->0),
            Err(_) => Seq::empty(),
        },
        Err(_) => Seq::empty(),
    }
}

/// A record with status 400 has an empty method and an empty path, whatever
/// its request line holds.
pub proof fn lemma_bad_request_has_no_target(s: Seq<u8>)
    ensures
        next_entry(s) matches Ok(Some((v, _))) ==> (v.response_code == BAD_REQUEST ==> v.method.len()
            == 0 && v.path.len() == 0),
{
}

/// A record whose request line is empty has an empty method and an empty
/// path.
pub proof fn lemma_empty_request_has_no_target(t: Seq<u8>)
    ensures
        line_of(t) matches Ok((v, _)) ==> (request_line(t).len() == 0 ==> v.method.len() == 0
            && v.path.len() == 0),
{
}

/// A search that finds `d` in `t` finds it at the same place in a prefix
/// of `t` that holds all of it, and finds nothing in a shorter one.
proof fn lemma_find_in_prefix(t: Seq<u8>, d: Seq<u8>, from: int, m: int)
    requires
        d.len() >= 1,
        0 <= from,
        0 <= m <= t.len(),
        find(t, d, from) is Some,
    ensures
        find(t, d, from)->0 + d.len() <= m ==> find(t.take(m), d, from) == find(t, d, from),
        m < find(t, d, from)->0 + d.len() ==> find(t.take(m), d, from) is None,
    decreases t.len() + 1 - from,
{
    let tm = t.take(m);
    if from + d.len() <= m {
        assert(tm.subrange(from, from + d.len()) =~= t.subrange(from, from + d.len()));
    }
    if !occurs_at(t, d, from) {
        lemma_find_in_prefix(t, d, from + 1, m);
    }
}

/// A record cut short anywhere after its first byte and before its end
/// reads as a truncated stream, never as the end of the input.
pub proof fn lemma_cut_line_is_truncated(t: Seq<u8>, m: int)
    requires
        line_of(t) matches Ok((_, n)) && 0 < m < n,
    ensures
        line_of(t.take(m)) == Err::<(LogEntryView, int), ReadError>(ReadError::StreamTruncated),
{
    let tm = t.take(m);
    let a = find(t, requestor_end(), 0)->0;
    let b = find(t, seq![OPEN_BRACKET], a + 3)->0;
    let c = find(t, time_end(), b + 1)->0;
    let d = find(t, request_end(), c + 3)->0;
    let e = find(t, seq![SPACE], d + 2)->0;
    let f = find(t, bytes_end(), e + 1)->0;
    let g = find(t, referrer_end(), f + 2)->0;
    let h = find(t, agent_end(), g + 3)->0;
    lemma_find_found(t, requestor_end(), 0);
    lemma_find_found(t, seq![OPEN_BRACKET], a + 3);
    lemma_find_found(t, time_end(), b + 1);
    lemma_find_found(t, request_end(), c + 3);
    lemma_find_found(t, seq![SPACE], d + 2);
    lemma_find_found(t, bytes_end(), e + 1);
    lemma_find_found(t, referrer_end(), f + 2);
    lemma_find_found(t, agent_end(), g + 3);
    lemma_find_in_prefix(t, requestor_end(), 0, m);
    lemma_find_in_prefix(t, seq![OPEN_BRACKET], a + 3, m);
    lemma_find_in_prefix(t, time_end(), b + 1, m);
    lemma_find_in_prefix(t, request_end(), c + 3, m);
    lemma_find_in_prefix(t, seq![SPACE], d + 2, m);
    lemma_find_in_prefix(t, bytes_end(), e + 1, m);
    lemma_find_in_prefix(t, referrer_end(), f + 2, m);
    lemma_find_in_prefix(t, agent_end(), g + 3, m);
    if a + 3 <= m {
        assert(tm.take(a) =~= t.take(a));
    }
    if c + 3 <= m {
        assert(tm.subrange(b + 1, c) =~= t.subrange(b + 1, c));
    }
    if e + 1 <= m {
        assert(tm.subrange(d + 2, e) =~= t.subrange(d + 2, e));
    }
    if f + 2 <= m {
        assert(tm.subrange(e + 1, f) =~= t.subrange(e + 1, f));
    }
}

proof fn lemma_blank_prefix_of_prefix(s: Seq<u8>, m: int)
    requires
        blank_prefix(s) < m <= s.len(),
    ensures
        blank_prefix(s.take(m)) == blank_prefix(s),
    decreases s.len(),
{
    if s.len() > 0 && s[0] == NEWLINE {
        assert(s.take(m).skip(1) =~= s.skip(1).take(m - 1));
        lemma_blank_prefix_of_prefix(s.skip(1), m - 1);
    }
}

proof fn lemma_line_within(t: Seq<u8>)
    ensures
        line_of(t) matches Ok((_, n)) ==> n <= t.len(),
{
    let a = find(t, requestor_end(), 0)->0;
    let b = find(t, seq![OPEN_BRACKET], a + 3)->0;
    let c = find(t, time_end(), b + 1)->0;
    let d = find(t, request_end(), c + 3)->0;
    let e = find(t, seq![SPACE], d + 2)->0;
    let f = find(t, bytes_end(), e + 1)->0;
    let g = find(t, referrer_end(), f + 2)->0;
    lemma_find_found(t, agent_end(), g + 3);
}

/// Input cut inside a record, after the empty lines before it, reads as a
/// truncated stream, never as the end of the input.
pub proof fn lemma_cut_record_is_truncated(s: Seq<u8>, m: int)
    requires
        next_entry(s) matches Ok(Some((_, n))) && blank_prefix(s) < m < n,
    ensures
        next_entry(s.take(m)) == Err::<Option<(LogEntryView, int)>, ReadError>(ReadError::StreamTruncated),
{
    let k = blank_prefix(s) as int;
    lemma_blank_prefix_bound(s);
    let t = s.skip(k);
    assert(line_of(t) is Ok);
    lemma_line_within(t);
    lemma_blank_prefix_of_prefix(s, m);
    assert(s.take(m).skip(k) =~= t.take(m - k));
    lemma_cut_line_is_truncated(t, m - k);
}

/// A status or byte count that is not an unsigned decimal within its
/// range is an invalid integer; one that is keeps its exact value.
pub proof fn lemma_number_is_exact(t: Seq<u8>, from: int, end: Seq<u8>, max: nat)
    requires
        find(t, end, from) is Some,
        valid_utf8(t.subrange(from, find(t, end, from)->0)),
    ensures
        !is_decimal_at_most(t.subrange(from, find(t, end, from)->0), max) ==> number_part(t, from, end, max)
            == Err::<(nat, int), ReadError>(ReadError::InvalidInteger),
        is_decimal_at_most(t.subrange(from, find(t, end, from)->0), max) ==> number_part(t, from, end, max)
            == Ok::<(nat, int), ReadError>((decimal_value(t.subrange(from, find(t, end, from)->0)), find(t, end, from)->0))
            && decimal_value(t.subrange(from, find(t, end, from)->0)) <= max,
{
}

/// A record's user agent runs to the first `"` that a line feed follows:
/// it may hold a `"` (a proper prefix of that delimiter), but never the
/// whole delimiter.
pub proof fn lemma_user_agent_ends_at_first_delimiter(s: Seq<u8>)
    ensures
        next_entry(s) matches Ok(Some((v, _))) ==> forall|j: int| !#[trigger] occurs_at(v.user_agent, agent_end(), j),
{
    if let Ok(Some((v, _))) = next_entry(s) {
        let t = s.skip(blank_prefix(s) as int);
        let a = find(t, requestor_end(), 0)->0;
        let b = find(t, seq![OPEN_BRACKET], a + 3)->0;
        let c = find(t, time_end(), b + 1)->0;
        let d = find(t, request_end(), c + 3)->0;
        let e = find(t, seq![SPACE], d + 2)->0;
        let f = find(t, bytes_end(), e + 1)->0;
        let g = find(t, referrer_end(), f + 2)->0;
        let h = find(t, agent_end(), g + 3)->0;
        lemma_find_found(t, agent_end(), g + 3);
        assert(v.user_agent == t.subrange(g + 3, h));
        assert forall|j: int| !#[trigger] occurs_at(v.user_agent, agent_end(), j) by {
            if occurs_at(v.user_agent, agent_end(), j) {
                assert(v.user_agent.subrange(j, j + 2) =~= t.subrange(g + 3 + j, g + 3 + j + 2));
                assert(occurs_at(t, agent_end(), g + 3 + j));
            }
        }
    }
}

proof fn lemma_skip_whitespace(s: Seq<u8>, i: int)
    requires
        0 <= i <= s.len(),
    ensures
        i <= skip_whitespace(s, i) <= s.len(),
        skip_whitespace(s, i) < s.len() ==> !is_whitespace(s[skip_whitespace(s, i)]),
    decreases s.len() - i,
{
    if i < s.len() && is_whitespace(s[i]) {
        lemma_skip_whitespace(s, i + 1);
    }
}

proof fn lemma_token_end(s: Seq<u8>, i: int)
    requires
        0 <= i <= s.len(),
    ensures
        i <= token_end(s, i) <= s.len(),
    decreases s.len() - i,
{
    if i < s.len() && !is_whitespace(s[i]) {
        lemma_token_end(s, i + 1);
    }
}

/// A record whose request line is not empty and whose status is not 400
/// has a non-empty method and a non-empty path.
pub proof fn lemma_request_has_target(t: Seq<u8>)
    ensures
        line_of(t) matches Ok((v, _)) ==> (request_line(t).len() > 0 && v.response_code != BAD_REQUEST
            ==> v.method.len() > 0 && v.path.len() > 0),
{
    let r = request_line(t);
    let m0 = skip_whitespace(r, 0);
    let m1 = token_end(r, m0);
    let p0 = skip_whitespace(r, m1);
    lemma_skip_whitespace(r, 0);
    lemma_token_end(r, m0);
    lemma_skip_whitespace(r, m1);
    lemma_token_end(r, p0);
    if m0 < r.len() {
        lemma_token_end(r, m0 + 1);
        assert(token_end(r, m0) == token_end(r, m0 + 1));
    }
    if p0 < r.len() {
        lemma_token_end(r, p0 + 1);
        assert(token_end(r, p0) == token_end(r, p0 + 1));
    }
}

/// A search that finds `d` in `t` finds it at the same place once more
/// bytes follow `t`.
proof fn lemma_find_in_extension(t: Seq<u8>, rest: Seq<u8>, d: Seq<u8>, from: int)
    requires
        0 <= from,
        find(t, d, from) is Some,
    ensures
        find(t + rest, d, from) == find(t, d, from),
    decreases t.len() + 1 - from,
{
    let u = t + rest;
    if from + d.len() <= t.len() {
        assert(u.subrange(from, from + d.len()) =~= t.subrange(from, from + d.len()));
    }
    if !occurs_at(t, d, from) {
        lemma_find_in_extension(t, rest, d, from + 1);
    }
}

/// The record that makes up all of `t` reads the same whatever follows
/// it: reading stops at the line feed that ends it.
pub proof fn lemma_record_ignores_rest(t: Seq<u8>, rest: Seq<u8>)
    requires
        line_of(t) matches Ok((_, n)) && n == t.len(),
    ensures
        line_of(t + rest) == line_of(t),
{
    let u = t + rest;
    let a = find(t, requestor_end(), 0)->0;
    let b = find(t, seq![OPEN_BRACKET], a + 3)->0;
    let c = find(t, time_end(), b + 1)->0;
    let d = find(t, request_end(), c + 3)->0;
    let e = find(t, seq![SPACE], d + 2)->0;
    let f = find(t, bytes_end(), e + 1)->0;
    let g = find(t, referrer_end(), f + 2)->0;
    let h = find(t, agent_end(), g + 3)->0;
    lemma_find_found(t, requestor_end(), 0);
    lemma_find_found(t, seq![OPEN_BRACKET], a + 3);
    lemma_find_found(t, time_end(), b + 1);
    lemma_find_found(t, request_end(), c + 3);
    lemma_find_found(t, seq![SPACE], d + 2);
    lemma_find_found(t, bytes_end(), e + 1);
    lemma_find_found(t, referrer_end(), f + 2);
    lemma_find_found(t, agent_end(), g + 3);
    lemma_find_in_extension(t, rest, requestor_end(), 0);
    lemma_find_in_extension(t, rest, seq![OPEN_BRACKET], a + 3);
    lemma_find_in_extension(t, rest, time_end(), b + 1);
    lemma_find_in_extension(t, rest, request_end(), c + 3);
    lemma_find_in_extension(t, rest, seq![SPACE], d + 2);
    lemma_find_in_extension(t, rest, bytes_end(), e + 1);
    lemma_find_in_extension(t, rest, referrer_end(), f + 2);
    lemma_find_in_extension(t, rest, agent_end(), g + 3);
    assert(u.take(a) =~= t.take(a));
    assert(u.subrange(b + 1, c) =~= t.subrange(b + 1, c));
    assert(u.subrange(c + 3, d) =~= t.subrange(c + 3, d));
    assert(u.subrange(d + 2, e) =~= t.subrange(d + 2, e));
    assert(u.subrange(e + 1, f) =~= t.subrange(e + 1, f));
    assert(u.subrange(f + 2, g) =~= t.subrange(f + 2, g));
    assert(u.subrange(g + 3, h) =~= t.subrange(g + 3, h));
}

proof fn lemma_line_after_blanks(a: nat, w: Seq<u8>)
    requires
        w.len() > 0,
        w[0] != NEWLINE,
    ensures
        next_entry(blank_lines(a) + w) == match line_of(w) {
            Ok((v, n)) => Ok(Some((v, a + n))),
            Err(x) => Err(x),
        },
{
    lemma_blank_prefix_of_blanks(a, w);
    assert((blank_lines(a) + w).skip(a as int) =~= w);
}

/// Records separated by empty lines read one after the other: empty lines,
/// the record line `t`, empty lines and then `u` read first as the record
/// of `t` (taking up the empty lines before it and `t` itself), and what is
/// left then reads as `u` alone does, its empty lines skipped.
#[verifier::spinoff_prover]
pub proof fn lemma_records_in_sequence(a: nat, t: Seq<u8>, b: nat, u: Seq<u8>)
    requires
        t.len() > 0,
        t[0] != NEWLINE,
        line_of(t) matches Ok((_, n)) && n == t.len(),
    ensures
        next_entry(blank_lines(a) + t + blank_lines(b) + u) == match line_of(t) {
            Ok((v, n)) => Ok(Some((v, a + n))),
            Err(x) => Err(x),
        },
        (blank_lines(a) + t + blank_lines(b) + u).skip((a + t.len()) as int) == blank_lines(b) + u,
        next_entry(blank_lines(b) + u) == match next_entry(u) {
            Ok(Some((v, n))) => Ok(Some((v, n + b))),
            other => other,
        },
{
    let rest = blank_lines(b) + u;
    let s = blank_lines(a) + t + blank_lines(b) + u;
    assert(s =~= blank_lines(a) + (t + rest));
    assert((t + rest)[0] == t[0]);
    lemma_line_after_blanks(a, t + rest);
    lemma_record_ignores_rest(t, rest);
    assert(s.skip((a + t.len()) as int) =~= rest);
    lemma_blank_lines_skipped(b, u);
}

} // verus!
