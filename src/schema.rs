//! The download statistics kept per episode and day, and the rules that
//! turn access-log records into them.
use vstd::prelude::*;
use vstd::slice::slice_subrange;

use crate::access_logs::LogEntry;
use crate::text::{decimal_value, find, is_decimal_at_most, parse_decimal, position_of};

verus! {

/// The statistics store: one collection, [`PodcastDownloads`], keyed by
/// [`EpisodeDateKey`], with the views [`CompleteDownloads`] and
/// [`DownloadsByDate`].
pub struct Crabtrics;

/// Downloads of one episode on one day.
#[derive(Clone, Copy, Debug, PartialEq, Eq, Structural)]
pub struct PodcastDownloads {
    /// Visitors who were sent at least the whole file.
    pub full_downloads: u16,
    /// Visitors who were sent less.
    pub partial_downloads: u16,
}

/// An episode and a day, the day counted in days since 1970-01-01 (UTC).
#[derive(Clone, Copy, Debug, PartialEq, Eq, Hash, PartialOrd, Ord, Structural)]
pub struct EpisodeDateKey {
    pub episode: u16,
    pub date: i64,
}

/// A day and an episode, ordered by day first.
#[derive(Clone, Copy, Debug, PartialEq, Eq, Hash, PartialOrd, Ord, Structural)]
pub struct DateEpisodeKey {
    pub date: i64,
    pub episode: u16,
}

impl DateEpisodeKey {
    /// The least key of day `start`: the keys from it on are those of
    /// `start` and of the days after it.
    pub fn range_starting_at(start: i64) -> (r: DateEpisodeKey)
        ensures
            r == (DateEpisodeKey { date: start, episode: 0 }),
    {
        DateEpisodeKey { date: start, episode: 0 }
    }
}

/// Sum of `values`.
pub open spec fn sum_of(values: Seq<u32>) -> nat
    decreases values.len(),
{
    if values.len() == 0 {
        0
    } else {
        sum_of(values.drop_last()) + values.last() as nat
    }
}

/// Full downloads per episode, over all days.
pub struct CompleteDownloads;

impl CompleteDownloads {
    /// The entry that one document contributes: its episode and its full
    /// downloads.
    pub fn map(&self, key: &EpisodeDateKey, document: &PodcastDownloads) -> (r: (u16, u32))
        ensures
            r == (key.episode, document.full_downloads as u32),
    {
        (key.episode, document.full_downloads as u32)
    }

    /// The total of the mapped values; `None` when it does not fit in a
    /// `u32`.
    pub fn reduce(&self, values: &[u32]) -> (r: Option<u32>)
        ensures
            r is Some <==> sum_of(values@) <= u32::MAX,
            r matches Some(total) ==> total as nat == sum_of(values@),
    {
        let mut total: u32 = 0;
        let mut i: usize = 0;
        while i < values.len()
            invariant
                i <= values@.len(),
                total as nat == sum_of(values@.take(i as int)),
            decreases values@.len() - i,
        {
            assert(values@.take(i + 1).drop_last() =~= values@.take(i as int));
            if values[i] > u32::MAX - total {
                proof {
                    lemma_sum_grows(values@, i + 1);
                }
                return None;
            }
            total = total + values[i];
            i = i + 1;
        }
        assert(values@.take(i as int) =~= values@);
        Some(total)
    }
}

proof fn lemma_sum_grows(values: Seq<u32>, k: int)
    requires
        0 <= k <= values.len(),
    ensures
        sum_of(values.take(k)) <= sum_of(values),
    decreases values.len() - k,
{
    if k < values.len() {
        lemma_sum_grows(values, k + 1);
        assert(values.take(k + 1).drop_last() =~= values.take(k));
    } else {
        assert(values.take(k) =~= values);
    }
}

/// Full downloads per day and episode.
pub struct DownloadsByDate;

impl DownloadsByDate {
    /// The entry that one document contributes: its day and episode, and
    /// its full downloads.
    pub fn map(&self, key: &EpisodeDateKey, document: &PodcastDownloads) -> (r: (DateEpisodeKey, u32))
        ensures
            r == (DateEpisodeKey { date: key.date, episode: key.episode }, document.full_downloads as u32),
    {
        (DateEpisodeKey { date: key.date, episode: key.episode }, document.full_downloads as u32)
    }
}

/// How many of `transfers` (bytes sent, size of the file) sent the whole
/// file.
pub open spec fn full_count(transfers: Seq<(u32, u32)>) -> nat
    decreases transfers.len(),
{
    if transfers.len() == 0 {
        0
    } else {
        full_count(transfers.drop_last()) + if transfers.last().0 >= transfers.last().1 { 1nat } else { 0nat }
    }
}

impl PodcastDownloads {
    /// Counts each visitor's transfer of an episode, as (bytes sent to the
    /// visitor, size of the file), as a full or a partial download; `None`
    /// when a count does not fit in a `u16`.
    pub fn tally(transfers: &[(u32, u32)]) -> (r: Option<PodcastDownloads>)
        ensures
            r is Some <==> full_count(transfers@) <= u16::MAX && transfers@.len() - full_count(transfers@) <= u16::MAX,
            r matches Some(d) ==> d.full_downloads as nat == full_count(transfers@)
                && d.partial_downloads as nat == transfers@.len() - full_count(transfers@),
    {
        let mut full: usize = 0;
        let mut i: usize = 0;
        while i < transfers.len()
            invariant
                i <= transfers@.len(),
                full as nat == full_count(transfers@.take(i as int)),
                full <= i,
            decreases transfers@.len() - i,
        {
            assert(transfers@.take(i + 1).drop_last() =~= transfers@.take(i as int));
            let (sent, size) = transfers[i];
            if sent >= size {
                full = full + 1;
            }
            i = i + 1;
        }
        assert(transfers@.take(i as int) =~= transfers@);
        let partial = transfers.len() - full;
        if full > 0xFFFF || partial > 0xFFFF {
            return None;
        }
        Some(PodcastDownloads { full_downloads: full as u16, partial_downloads: partial as u16 })
    }
}

/// What a record means for the download statistics.
#[derive(Clone, Copy, Debug, PartialEq, Eq, Structural)]
pub enum DownloadRequest {
    /// Not a successful `GET` of an `/episode-N.EXT` path.
    NotEpisode,
    /// An episode file of a kind other than `m4a`.
    UnsupportedExtension,
    /// A successful request for the `m4a` file of episode `N`.
    Episode(u16),
}

/// `/episode-`
pub open spec fn episode_prefix() -> Seq<u8> {
    seq![0x2F, 0x65, 0x70, 0x69, 0x73, 0x6F, 0x64, 0x65, 0x2D]
}

/// `GET`
pub open spec fn get_method() -> Seq<u8> {
    seq![0x47, 0x45, 0x54]
}

/// `m4a`
pub open spec fn m4a_extension() -> Seq<u8> {
    seq![0x6D, 0x34, 0x61]
}

/// The meaning of a record with this status, method and path: a 2xx `GET`
/// of `/episode-N.EXT`, where the extension is what follows the first `.`
/// and must be `m4a`, and `N` must be an unsigned decimal that fits in a
/// `u16`.
pub open spec fn request_kind(status: u16, method: Seq<u8>, path: Seq<u8>) -> DownloadRequest {
    let rest = path.skip(9);
    let dot = find(rest, seq![0x2E], 0);
    let number = rest.take(dot->0);
    if !(200 <= status <= 299) || method != get_method() {
        DownloadRequest::NotEpisode
    } else if path.len() < 9 || path.take(9) != episode_prefix() || dot is None {
        DownloadRequest::NotEpisode
    } else if rest.skip(dot->0 + 1) != m4a_extension() {
        DownloadRequest::UnsupportedExtension
    } else if !is_decimal_at_most(number, 0xFFFF) {
        DownloadRequest::NotEpisode
    } else {
        DownloadRequest::Episode(decimal_value(number) as u16)
    }
}

fn bytes_equal(a: &[u8], b: &[u8]) -> (r: bool)
    ensures
        r == (a@ == b@),
{
    if a.len() != b.len() {
        return false;
    }
    let mut i: usize = 0;
    while i < a.len()
        invariant
            i <= a@.len(),
            a@.len() == b@.len(),
            a@.take(i as int) == b@.take(i as int),
        decreases a@.len() - i,
    {
        if a[i] != b[i] {
            return false;
        }
        assert(a@.take(i + 1) =~= a@.take(i as int).push(a@[i as int]));
        assert(b@.take(i + 1) =~= b@.take(i as int).push(b@[i as int]));
        i = i + 1;
    }
    assert(a@.take(i as int) =~= a@);
    assert(b@.take(i as int) =~= b@);
    true
}

/// What `entry` means for the download statistics.
pub fn classify_request(entry: &LogEntry) -> (r: DownloadRequest)
    ensures
        r == request_kind(entry.response_code, entry.method@, entry.path@),
{
    let get: [u8; 3] = [0x47, 0x45, 0x54];
    assert(get@ =~= get_method());
    if entry.response_code < 200 || entry.response_code > 299 || !bytes_equal(entry.method.as_slice(), get.as_slice()) {
        return DownloadRequest::NotEpisode;
    }
    let path = entry.path.as_slice();
    let prefix: [u8; 9] = [0x2F, 0x65, 0x70, 0x69, 0x73, 0x6F, 0x64, 0x65, 0x2D];
    assert(prefix@ =~= episode_prefix());
    if path.len() < 9 {
        return DownloadRequest::NotEpisode;
    }
    let head = slice_subrange(path, 0, 9);
    assert(head@ =~= path@.take(9));
    if !bytes_equal(head, prefix.as_slice()) {
        return DownloadRequest::NotEpisode;
    }
    let rest = slice_subrange(path, 9, path.len());
    assert(rest@ =~= path@.skip(9));
    let dot = match position_of(rest, 0x2E, 0) {
        Some(i) => i,
        None => return DownloadRequest::NotEpisode,
    };
    let extension = slice_subrange(rest, dot + 1, rest.len());
    assert(extension@ =~= rest@.skip(dot + 1));
    let m4a: [u8; 3] = [0x6D, 0x34, 0x61];
    assert(m4a@ =~= m4a_extension());
    if !bytes_equal(extension, m4a.as_slice()) {
        return DownloadRequest::UnsupportedExtension;
    }
    let number = slice_subrange(rest, 0, dot);
    assert(number@ =~= rest@.take(dot as int));
    match parse_decimal(number, 0xFFFF) {
        Some(n) => DownloadRequest::Episode(n as u16),
        None => DownloadRequest::NotEpisode,
    }
}

} // verus!
