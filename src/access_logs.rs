//! Reading combined-format access-log records one at a time.
//!
//! A line has the shape
//! `ADDR - USER [DD/Mon/YYYY:HH:MM:SS +ZZZZ] "REQUEST" STATUS BYTES "REFERRER" "AGENT"`
//! followed by a line feed. Each field is cut out of the line by the first
//! occurrence of the delimiter that ends it, searched from where the field
//! starts.
//!
//! A [`LogReader`] is handed its whole input as bytes: whoever supplies the
//! stream (decompressing it if need be) reads it in first. The reader still
//! takes those bytes one at a time, front to back, and copies each record's
//! fields out of its scratch buffer, so a record stays valid after the next
//! read.
use vstd::prelude::*;
use vstd::slice::{slice_subrange, slice_to_vec};

use crate::address::{address_of, parse_address, IpAddress};
use crate::text::{
    decimal_value, find, is_decimal_at_most, is_valid_utf8, lemma_find_skip,
    occurs_at, parse_decimal, valid_utf8,
};
use crate::timestamp::{parse_log_date, timestamp_of, Timestamp, TimestampError};

verus! {

pub const NEWLINE: u8 = 0x0A;
pub const SPACE: u8 = 0x20;
pub const QUOTE: u8 = 0x22;
pub const DASH: u8 = 0x2D;
pub const OPEN_BRACKET: u8 = 0x5B;
pub const CLOSE_BRACKET: u8 = 0x5D;

/// The status that marks a request the server could not read.
pub const BAD_REQUEST: u16 = 400;

/// Ends the requestor: ` - `.
pub open spec fn requestor_end() -> Seq<u8> {
    seq![SPACE, DASH, SPACE]
}

/// Ends the timestamp: `] "`.
pub open spec fn time_end() -> Seq<u8> {
    seq![CLOSE_BRACKET, SPACE, QUOTE]
}

/// Ends the request line: `" `.
pub open spec fn request_end() -> Seq<u8> {
    seq![QUOTE, SPACE]
}

/// Ends the byte count: ` "`.
pub open spec fn bytes_end() -> Seq<u8> {
    seq![SPACE, QUOTE]
}

/// Ends the referrer: `" "`.
pub open spec fn referrer_end() -> Seq<u8> {
    seq![QUOTE, SPACE, QUOTE]
}

/// Ends the user agent and the line: `"` and a line feed.
pub open spec fn agent_end() -> Seq<u8> {
    seq![QUOTE, NEWLINE]
}

/// Why a record could not be read.
#[derive(Clone, Copy, Debug, PartialEq, Eq, Structural)]
pub enum ReadError {
    /// The input ended inside a record.
    StreamTruncated,
    /// A text field is not well-formed UTF-8.
    InvalidText,
    /// The requestor is not an IP address.
    InvalidAddress,
    /// The status or the byte count is not an unsigned decimal in range.
    InvalidInteger,
    /// The timestamp does not parse.
    InvalidTimestamp(TimestampError),
    /// A request line that should name a method and a path does not.
    MalformedRequestLine,
}

/// One access-log record. Text fields hold their UTF-8 bytes, checked to be
/// well-formed.
#[derive(Clone, Debug, PartialEq, Eq)]
pub struct LogEntry {
    pub requestor: IpAddress,
    pub time: Timestamp,
    pub method: Vec<u8>,
    pub path: Vec<u8>,
    pub response_code: u16,
    pub bytes_sent: u32,
    pub referrer: Vec<u8>,
    pub user_agent: Vec<u8>,
}

/// What a record holds, with its text fields as byte sequences.
pub struct LogEntryView {
    pub requestor: IpAddress,
    pub time: Timestamp,
    pub method: Seq<u8>,
    pub path: Seq<u8>,
    pub response_code: u16,
    pub bytes_sent: u32,
    pub referrer: Seq<u8>,
    pub user_agent: Seq<u8>,
}

impl View for LogEntry {
    type V = LogEntryView;

    open spec fn view(&self) -> LogEntryView {
        LogEntryView {
            requestor: self.requestor,
            time: self.time,
            method: self.method@,
            path: self.path@,
            response_code: self.response_code,
            bytes_sent: self.bytes_sent,
            referrer: self.referrer@,
            user_agent: self.user_agent@,
        }
    }
}

/// An ASCII whitespace byte: space, tab, line feed, form feed or carriage
/// return.
pub open spec fn is_whitespace(b: u8) -> bool {
    b == 0x20 || b == 0x09 || b == 0x0A || b == 0x0C || b == 0x0D
}

/// The first index at or after `i` whose byte is not whitespace, or the
/// length of `s` if there is none.
pub open spec fn skip_whitespace(s: Seq<u8>, i: int) -> int
    decreases s.len() - i,
{
    if i < 0 || i >= s.len() || !is_whitespace(s[i]) {
        i
    } else {
        skip_whitespace(s, i + 1)
    }
}

/// The first index at or after `i` whose byte is whitespace, or the length
/// of `s` if there is none: where a token that starts at `i` ends.
pub open spec fn token_end(s: Seq<u8>, i: int) -> int
    decreases s.len() - i,
{
    if i < 0 || i >= s.len() || is_whitespace(s[i]) {
        i
    } else {
        token_end(s, i + 1)
    }
}

/// Method and path of a request line. Both are empty when the line is empty
/// or the status is 400. Otherwise they are the line's first two tokens
/// (maximal runs of non-whitespace bytes); what follows them, such as the
/// protocol version, is dropped, and a line of fewer than two tokens has
/// none.
pub open spec fn request_target(request: Seq<u8>, status: nat) -> Option<(Seq<u8>, Seq<u8>)> {
    let m0 = skip_whitespace(request, 0);
    let m1 = token_end(request, m0);
    let p0 = skip_whitespace(request, m1);
    let p1 = token_end(request, p0);
    if request.len() == 0 || status == BAD_REQUEST as nat {
        Some((Seq::empty(), Seq::empty()))
    } else if m0 >= request.len() || p0 >= request.len() {
        None
    } else {
        Some((request.subrange(m0, m1), request.subrange(p0, p1)))
    }
}

/// The requestor, which ends at the first ` - ` of the line `t`, and where
/// the rest of the line starts.
pub open spec fn requestor_part(t: Seq<u8>) -> Result<(IpAddress, int), ReadError> {
    let a = find(t, requestor_end(), 0);
    let requestor = t.take(a->0);
    if a is None {
        Err(ReadError::StreamTruncated)
    } else if !valid_utf8(requestor) {
        Err(ReadError::InvalidText)
    } else if address_of(requestor) is None {
        Err(ReadError::InvalidAddress)
    } else {
        Ok((address_of(requestor)->0, a->0 + 3))
    }
}

/// The timestamp, between the first `[` from `from` on and the `] "` that
/// follows it, and where the request line starts.
pub open spec fn time_part(t: Seq<u8>, from: int) -> Result<(Timestamp, int), ReadError> {
    let b = find(t, seq![OPEN_BRACKET], from);
    let c = find(t, time_end(), b->0 + 1);
    let time = timestamp_of(t.subrange(b->0 + 1, c->0));
    if b is None || c is None {
        Err(ReadError::StreamTruncated)
    } else if time is Err {
        Err(ReadError::InvalidTimestamp(time->Err_0))
    } else {
        Ok((time->Ok_0, c->0 + 3))
    }
}

/// The unsigned decimal of at most `max` that runs from `from` to the next
/// `end`, and where that `end` starts.
pub open spec fn number_part(t: Seq<u8>, from: int, end: Seq<u8>, max: nat) -> Result<(nat, int), ReadError> {
    let e = find(t, end, from);
    let text = t.subrange(from, e->0);
    if e is None {
        Err(ReadError::StreamTruncated)
    } else if !valid_utf8(text) {
        Err(ReadError::InvalidText)
    } else if !is_decimal_at_most(text, max) {
        Err(ReadError::InvalidInteger)
    } else {
        Ok((decimal_value(text), e->0))
    }
}

/// The text fields that close a line: the request line's method and path
/// (given the line and the status), then the referrer, from `from` to the
/// next `" "`, and the user agent, up to the `"` and line feed that end the
/// line; also where the line ends.
pub open spec fn text_part(t: Seq<u8>, request: Seq<u8>, status: nat, from: int) -> Result<
    (Seq<u8>, Seq<u8>, Seq<u8>, Seq<u8>, int),
    ReadError,
> {
    let g = find(t, referrer_end(), from);
    let h = find(t, agent_end(), g->0 + 3);
    let referrer = t.subrange(from, g->0);
    let agent = t.subrange(g->0 + 3, h->0);
    let target = request_target(request, status);
    if g is None || h is None {
        Err(ReadError::StreamTruncated)
    } else if !valid_utf8(request) {
        Err(ReadError::InvalidText)
    } else if target is None {
        Err(ReadError::MalformedRequestLine)
    } else if !valid_utf8(referrer) || !valid_utf8(agent) {
        Err(ReadError::InvalidText)
    } else {
        let (method, path) = target->0;
        Ok((method, path, referrer, agent, h->0 + 2))
    }
}

/// The record at the start of `t`, which starts a line, and the number of
/// bytes up to and including its line feed; or the first error met in
/// reading order.
pub open spec fn line_of(t: Seq<u8>) -> Result<(LogEntryView, int), ReadError> {
    match requestor_part(t) {
        Err(x) => Err(x),
        Ok((requestor, p)) => match time_part(t, p) {
            Err(x) => Err(x),
            Ok((time, q)) => {
                let d = find(t, request_end(), q);
                if d is None {
                    Err(ReadError::StreamTruncated)
                } else {
                    match number_part(t, d->0 + 2, seq![SPACE], 0xFFFF) {
                        Err(x) => Err(x),
                        Ok((status, e)) => match number_part(t, e + 1, bytes_end(), 0xFFFF_FFFF) {
                            Err(x) => Err(x),
                            Ok((sent, f)) => match text_part(t, t.subrange(q, d->0), status, f + 2) {
                                Err(x) => Err(x),
                                Ok((method, path, referrer, user_agent, n)) => Ok((LogEntryView {
                                    requestor,
                                    time,
                                    method,
                                    path,
                                    response_code: status as u16,
                                    bytes_sent: sent as u32,
                                    referrer,
                                    user_agent,
                                }, n)),
                            },
                        },
                    }
                }
            },
        },
    }
}

/// Number of line feeds at the start of `s`.
pub open spec fn blank_prefix(s: Seq<u8>) -> nat
    decreases s.len(),
{
    if s.len() > 0 && s[0] == NEWLINE {
        1 + blank_prefix(s.skip(1))
    } else {
        0
    }
}

/// The next record of `s` after any empty lines, with the number of bytes
/// that it takes up together with them; `None` when only empty lines are
/// left.
pub open spec fn next_entry(s: Seq<u8>) -> Result<Option<(LogEntryView, int)>, ReadError> {
    let k = blank_prefix(s) as int;
    if k == s.len() {
        Ok(None)
    } else {
        match line_of(s.skip(k)) {
            Ok((v, n)) => Ok(Some((v, k + n))),
            Err(x) => Err(x),
        }
    }
}

/// `r` is what reading one record from `before` gives, and `after` is what
/// is left to read where a record or the end came.
pub open spec fn reads_as(r: Result<Option<LogEntry>, ReadError>, before: Seq<u8>, after: Seq<u8>) -> bool {
    match next_entry(before) {
        Ok(None) => r matches Ok(None) && after.len() == 0,
        Ok(Some((v, n))) => r matches Ok(Some(e)) && e@ == v && after == before.skip(n),
        Err(x) => r == Err::<Option<LogEntry>, ReadError>(x),
    }
}

fn is_whitespace_byte(b: u8) -> (r: bool)
    ensures
        r == is_whitespace(b),
{
    b == 0x20 || b == 0x09 || b == 0x0A || b == 0x0C || b == 0x0D
}

/// Where the whitespace that starts at `i` ends.
fn skip_whitespace_at(s: &[u8], i: usize) -> (r: usize)
    requires
        i <= s@.len(),
    ensures
        r as int == skip_whitespace(s@, i as int),
        i <= r <= s@.len(),
{
    let mut j: usize = i;
    while j < s.len() && is_whitespace_byte(s[j])
        invariant
            i <= j <= s@.len(),
            skip_whitespace(s@, i as int) == skip_whitespace(s@, j as int),
        decreases s@.len() - j,
    {
        j = j + 1;
    }
    j
}

/// Where the token that starts at `i` ends.
fn token_end_at(s: &[u8], i: usize) -> (r: usize)
    requires
        i <= s@.len(),
    ensures
        r as int == token_end(s@, i as int),
        i <= r <= s@.len(),
{
    let mut j: usize = i;
    while j < s.len() && !is_whitespace_byte(s[j])
        invariant
            i <= j <= s@.len(),
            token_end(s@, i as int) == token_end(s@, j as int),
        decreases s@.len() - j,
    {
        j = j + 1;
    }
    j
}

/// Method and path of `request` as [`request_target`] gives them.
fn split_request(request: &[u8], status: u16) -> (r: Option<(Vec<u8>, Vec<u8>)>)
    ensures
        r matches Some((m, p)) ==> request_target(request@, status as nat) == Some((m@, p@)),
        r is None ==> request_target(request@, status as nat) is None,
{
    if request.len() == 0 || status == BAD_REQUEST {
        return Some((Vec::new(), Vec::new()));
    }
    let m0 = skip_whitespace_at(request, 0);
    let m1 = token_end_at(request, m0);
    let p0 = skip_whitespace_at(request, m1);
    let p1 = token_end_at(request, p0);
    if m0 >= request.len() || p0 >= request.len() {
        return None;
    }
    let method = slice_subrange(request, m0, m1);
    let path = slice_subrange(request, p0, p1);
    Some((slice_to_vec(method), slice_to_vec(path)))
}

/// Reads records from a byte source through one reusable scratch buffer.
/// The source is handed over whole; bytes are taken from it one at a time,
/// front to back, and never revisited.
pub struct LogReader {
    source: Vec<u8>,
    pos: usize,
    scratch: Vec<u8>,
}

impl View for LogReader {
    /// The bytes not read yet.
    type V = Seq<u8>;

    closed spec fn view(&self) -> Seq<u8> {
        self.source@.skip(self.pos as int)
    }
}

impl LogReader {
    pub closed spec fn wf(&self) -> bool {
        self.pos <= self.source@.len()
    }

    /// The bytes read into the scratch buffer, then those not read yet.
    closed spec fn line(&self) -> Seq<u8> {
        self.scratch@ + self@
    }

    /// A reader that reads `source` from its start.
    pub fn new(source: Vec<u8>) -> (r: Self)
        ensures
            r.wf(),
            r@ == source@,
    {
        let r = LogReader { source, pos: 0, scratch: Vec::new() };
        assert(r@ =~= r.source@);
        r
    }

    /// Moves the next byte of the source to the end of the scratch buffer.
    fn read_byte(&mut self) -> (r: Option<u8>)
        requires
            old(self).wf(),
        ensures
            final(self).wf(),
            final(self).line() == old(self).line(),
            old(self)@.len() == 0 ==> r is None && final(self).scratch@ == old(self).scratch@,
            old(self)@.len() > 0 ==> r == Some(old(self)@[0]) && final(self).scratch@ == old(
                self,
            ).scratch@.push(old(self)@[0]),
    {
        if self.pos >= self.source.len() {
            return None;
        }
        let b = self.source[self.pos];
        self.scratch.push(b);
        self.pos = self.pos + 1;
        proof {
            let o = old(self);
            assert(self@ =~= o@.skip(1));
            assert(self.line() =~= o.line());
        }
        Some(b)
    }

    /// Reads up to and including the next `byte`; returns its index in the
    /// scratch buffer.
    fn scan_until(&mut self, byte: u8) -> (r: Option<usize>)
        requires
            old(self).wf(),
        ensures
            final(self).wf(),
            final(self).line() == old(self).line(),
            r matches Some(i) ==> find(old(self).line(), seq![byte], old(self).scratch@.len() as int)
                == Some(i as int) && final(self).scratch@.len() == i + 1
                && old(self).scratch@.len() <= i,
            r is None ==> find(old(self).line(), seq![byte], old(self).scratch@.len() as int) is None
                && final(self)@.len() == 0,
    {
        let d: [u8; 1] = [byte];
        assert(d@ =~= seq![byte]);
        self.scan_until_slice(d.as_slice(), self.scratch.len())
    }

    /// Reads up to and including the first occurrence of `d` that starts at
    /// or after index `from` of the scratch buffer; returns where it starts.
    fn scan_until_slice(&mut self, d: &[u8], from: usize) -> (r: Option<usize>)
        requires
            old(self).wf(),
            d@.len() >= 1,
            from <= old(self).scratch@.len() < from + d@.len(),
        ensures
            final(self).wf(),
            final(self).line() == old(self).line(),
            r matches Some(i) ==> find(old(self).line(), d@, from as int) == Some(i as int)
                && final(self).scratch@.len() == i + d@.len() && from <= i,
            r is None ==> find(old(self).line(), d@, from as int) is None && final(self)@.len() == 0,
    {
        let ghost u = self.line();
        let n = d.len();
        loop
            invariant
                self.wf(),
                self.line() == u,
                u == old(self).line(),
                n == d@.len(),
                from <= self.scratch@.len(),
                forall|i: int|
                    from <= i && i + n <= self.scratch@.len() ==> !#[trigger] occurs_at(u, d@, i),
            decreases self@.len(),
        {
            match self.read_byte() {
                None => {
                    proof {
                        let to = if from + 1 > self.scratch@.len() + 1 - n { from as int } else {
                            self.scratch@.len() + 1 - n
                        };
                        lemma_find_skip(u, d@, from as int, to);
                        assert(self@.len() == 0);
                        assert(u.len() == self.scratch@.len());
                    }
                    return None;
                },
                Some(_) => {},
            }
            let len = self.scratch.len();
            if len - from >= n {
                let start = len - n;
                let mut j: usize = 0;
                let mut same = true;
                while j < n && same
                    invariant
                        j <= n,
                        n == d@.len(),
                        start + n == len,
                        len == self.scratch@.len(),
                        same == (self.scratch@.subrange(start as int, start + j) =~= d@.take(j as int)),
                    decreases n - j,
                {
                    if self.scratch[start + j] != d[j] {
                        same = false;
                        assert(self.scratch@.subrange(start as int, start + j + 1)[j as int] != d@.take(j + 1)[j as int]);
                    } else {
                        assert(self.scratch@.subrange(start as int, start + j + 1) =~= self.scratch@.subrange(start as int, start + j).push(d@[j as int]));
                        assert(d@.take(j + 1) =~= d@.take(j as int).push(d@[j as int]));
                    }
                    j = j + 1;
                }
                proof {
                    assert(u.subrange(start as int, start + n) =~= self.scratch@.subrange(start as int, start + n));
                    assert(d@.take(n as int) =~= d@);
                }
                if same {
                    proof {
                        lemma_find_skip(u, d@, from as int, start as int);
                    }
                    return Some(start);
                }
            }
        }
    }

    /// The scratch buffer holds the line read so far.
    closed spec fn holds_prefix(&self, t: Seq<u8>) -> bool {
        self.wf() && self.line() == t && self.scratch@ == t.take(self.scratch@.len() as int)
    }

    proof fn lemma_holds_prefix(&self)
        requires
            self.wf(),
        ensures
            self.holds_prefix(self.line()),
    {
        assert(self.scratch@ =~= self.line().take(self.scratch@.len() as int));
    }

    /// Reads the requestor; the scratch buffer holds the line's first byte.
    fn read_requestor(&mut self) -> (r: Result<IpAddress, ReadError>)
        requires
            old(self).wf(),
            old(self).scratch@.len() == 1,
        ensures
            final(self).wf(),
            final(self).line() == old(self).line(),
            match requestor_part(old(self).line()) {
                Ok((ip, p)) => r == Ok::<IpAddress, ReadError>(ip) && final(self).scratch@.len() == p,
                Err(x) => r == Err::<IpAddress, ReadError>(x),
            },
    {
        let ghost t = self.line();
        let delim: [u8; 3] = [SPACE, DASH, SPACE];
        assert(delim@ =~= requestor_end());
        let a = match self.scan_until_slice(delim.as_slice(), 0) {
            Some(i) => i,
            None => return Err(ReadError::StreamTruncated),
        };
        proof { self.lemma_holds_prefix(); }
        let requestor = slice_subrange(self.scratch.as_slice(), 0, a);
        assert(requestor@ =~= t.take(a as int));
        if !is_valid_utf8(requestor) {
            return Err(ReadError::InvalidText);
        }
        match parse_address(requestor) {
            Some(ip) => Ok(ip),
            None => Err(ReadError::InvalidAddress),
        }
    }

    /// Reads the timestamp, from the scratch buffer's end on.
    fn read_time(&mut self) -> (r: Result<Timestamp, ReadError>)
        requires
            old(self).wf(),
        ensures
            final(self).wf(),
            final(self).line() == old(self).line(),
            match time_part(old(self).line(), old(self).scratch@.len() as int) {
                Ok((ts, p)) => r == Ok::<Timestamp, ReadError>(ts) && final(self).scratch@.len() == p,
                Err(x) => r == Err::<Timestamp, ReadError>(x),
            },
    {
        let ghost t = self.line();
        let b = match self.scan_until(OPEN_BRACKET) {
            Some(i) => i,
            None => return Err(ReadError::StreamTruncated),
        };
        let delim: [u8; 3] = [CLOSE_BRACKET, SPACE, QUOTE];
        assert(delim@ =~= time_end());
        let c = match self.scan_until_slice(delim.as_slice(), self.scratch.len()) {
            Some(i) => i,
            None => return Err(ReadError::StreamTruncated),
        };
        proof { self.lemma_holds_prefix(); }
        let text = slice_subrange(self.scratch.as_slice(), b + 1, c);
        assert(text@ =~= t.subrange(b + 1, c as int));
        match parse_log_date(text) {
            Ok(ts) => Ok(ts),
            Err(e) => Err(ReadError::InvalidTimestamp(e)),
        }
    }

    /// Reads an unsigned decimal of at most `max` from the scratch buffer's
    /// end to the next `end`.
    fn read_number(&mut self, end: &[u8], max: u32) -> (r: Result<u32, ReadError>)
        requires
            old(self).wf(),
            end@.len() >= 1,
        ensures
            final(self).wf(),
            final(self).line() == old(self).line(),
            match number_part(old(self).line(), old(self).scratch@.len() as int, end@, max as nat) {
                Ok((v, p)) => r == Ok::<u32, ReadError>(v as u32) && v <= max
                    && final(self).scratch@.len() == p + end@.len(),
                Err(x) => r == Err::<u32, ReadError>(x),
            },
    {
        let ghost t = self.line();
        let start = self.scratch.len();
        let e = match self.scan_until_slice(end, start) {
            Some(i) => i,
            None => return Err(ReadError::StreamTruncated),
        };
        proof { self.lemma_holds_prefix(); }
        let text = slice_subrange(self.scratch.as_slice(), start, e);
        assert(text@ =~= t.subrange(start as int, e as int));
        if !is_valid_utf8(text) {
            return Err(ReadError::InvalidText);
        }
        match parse_decimal(text, max) {
            Some(v) => Ok(v),
            None => Err(ReadError::InvalidInteger),
        }
    }

    /// Reads the referrer and the user agent, from the scratch buffer's end
    /// on, and takes method and path out of `request`.
    fn read_text(&mut self, request: &[u8], status: u16) -> (r: Result<(Vec<u8>, Vec<u8>, Vec<u8>, Vec<u8>), ReadError>)
        requires
            old(self).wf(),
        ensures
            final(self).wf(),
            final(self).line() == old(self).line(),
            match text_part(old(self).line(), request@, status as nat, old(self).scratch@.len() as int) {
                Ok((m, p, f, a, n)) => r matches Ok((rm, rp, rf, ra)) && rm@ == m && rp@ == p
                    && rf@ == f && ra@ == a && final(self).scratch@.len() == n,
                Err(x) => r matches Err(y) && x == y,
            },
    {
        let ghost t = self.line();
        let start = self.scratch.len();
        let delim: [u8; 3] = [QUOTE, SPACE, QUOTE];
        assert(delim@ =~= referrer_end());
        let g = match self.scan_until_slice(delim.as_slice(), start) {
            Some(i) => i,
            None => return Err(ReadError::StreamTruncated),
        };
        let delim: [u8; 2] = [QUOTE, NEWLINE];
        assert(delim@ =~= agent_end());
        let h = match self.scan_until_slice(delim.as_slice(), self.scratch.len()) {
            Some(i) => i,
            None => return Err(ReadError::StreamTruncated),
        };
        proof { self.lemma_holds_prefix(); }
        if !is_valid_utf8(request) {
            return Err(ReadError::InvalidText);
        }
        let (method, path) = match split_request(request, status) {
            Some(mp) => mp,
            None => return Err(ReadError::MalformedRequestLine),
        };
        let referrer = slice_subrange(self.scratch.as_slice(), start, g);
        assert(referrer@ =~= t.subrange(start as int, g as int));
        let user_agent = slice_subrange(self.scratch.as_slice(), g + 3, h);
        assert(user_agent@ =~= t.subrange(g + 3, h as int));
        if !is_valid_utf8(referrer) || !is_valid_utf8(user_agent) {
            return Err(ReadError::InvalidText);
        }
        Ok((method, path, slice_to_vec(referrer), slice_to_vec(user_agent)))
    }

    /// Reads the record whose first byte is in the scratch buffer.
    fn read_line(&mut self) -> (r: Result<LogEntry, ReadError>)
        requires
            old(self).wf(),
            old(self).scratch@.len() == 1,
        ensures
            final(self).wf(),
            final(self).line() == old(self).line(),
            match line_of(old(self).line()) {
                Ok((v, n)) => r matches Ok(e) && e@ == v && final(self).scratch@.len() == n,
                Err(x) => r matches Err(y) && x == y,
            },
    {
        let ghost t = self.line();
        let requestor = match self.read_requestor() {
            Ok(ip) => ip,
            Err(x) => return Err(x),
        };
        let time = match self.read_time() {
            Ok(ts) => ts,
            Err(x) => return Err(x),
        };
        let q = self.scratch.len();
        let delim: [u8; 2] = [QUOTE, SPACE];
        assert(delim@ =~= request_end());
        let d = match self.scan_until_slice(delim.as_slice(), q) {
            Some(i) => i,
            None => return Err(ReadError::StreamTruncated),
        };
        proof { self.lemma_holds_prefix(); }
        let request = slice_to_vec(slice_subrange(self.scratch.as_slice(), q, d));
        assert(request@ =~= t.subrange(q as int, d as int));
        let space: [u8; 1] = [SPACE];
        assert(space@ =~= seq![SPACE]);
        let response_code = match self.read_number(space.as_slice(), 0xFFFF) {
            Ok(v) => v as u16,
            Err(x) => return Err(x),
        };
        let delim: [u8; 2] = [SPACE, QUOTE];
        assert(delim@ =~= bytes_end());
        let bytes_sent = match self.read_number(delim.as_slice(), 0xFFFF_FFFF) {
            Ok(v) => v,
            Err(x) => return Err(x),
        };
        let (method, path, referrer, user_agent) = match self.read_text(request.as_slice(), response_code) {
            Ok(fields) => fields,
            Err(x) => return Err(x),
        };
        Ok(LogEntry { requestor, time, method, path, response_code, bytes_sent, referrer, user_agent })
    }

    /// Reads the next record, skipping empty lines before it. `Ok(None)`
    /// when only empty lines were left. After an error the reader has
    /// consumed part of the input and is not meant to be read further.
    pub fn read_one(&mut self) -> (r: Result<Option<LogEntry>, ReadError>)
        requires
            old(self).wf(),
        ensures
            final(self).wf(),
            reads_as(r, old(self)@, final(self)@),
    {
        let ghost s = self@;
        let ghost mut c: int = 0;
        let mut at_line = false;
        assert(s.skip(0) =~= s);
        while !at_line
            invariant
                self.wf(),
                s == old(self)@,
                0 <= c <= s.len(),
                !at_line ==> self@ == s.skip(c) && blank_prefix(s) == c + blank_prefix(s.skip(c)),
                at_line ==> c < s.len() && blank_prefix(s) == c && self@ == s.skip(c + 1)
                    && self.scratch@ == seq![s[c]],
            decreases self@.len() + (if at_line { 0int } else { 1int }),
        {
            self.scratch.clear();
            match self.read_byte() {
                None => {
                    return Ok(None);
                },
                Some(b) => {
                    proof {
                        assert(s.skip(c).skip(1) =~= s.skip(c + 1));
                        assert(s.skip(c)[0] == s[c]);
                        assert(self.scratch@ =~= seq![s[c]]);
                    }
                    if b == NEWLINE {
                        proof {
                            c = c + 1;
                        }
                    } else {
                        at_line = true;
                    }
                },
            }
        }
        let ghost t = s.skip(c);
        assert(self.line() =~= t) by {
            assert(t.skip(1) =~= s.skip(c + 1));
        }
        match self.read_line() {
            Ok(entry) => {
                proof {
                    let n = self.scratch@.len() as int;
                    assert(self@ =~= t.skip(n));
                    assert(t.skip(n) =~= s.skip(c + n));
                }
                Ok(Some(entry))
            },
            Err(x) => Err(x),
        }
    }
}

} // verus!
