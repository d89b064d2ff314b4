use crabtrics::access_logs::LogReader;
use crabtrics::schema::{
    classify_request, CompleteDownloads, DateEpisodeKey, DownloadRequest, DownloadsByDate,
    EpisodeDateKey, PodcastDownloads,
};

fn classify(status: u16, request: &str) -> DownloadRequest {
    let line = format!("1.2.3.4 - - [01/Jan/2024:00:00:00 +0000] \"{request}\" {status} 5 \"-\" \"-\"\n");
    let entry = LogReader::new(line.into_bytes()).read_one().unwrap().unwrap();
    classify_request(&entry)
}

#[test]
fn episode_requests() {
    assert_eq!(classify(206, "GET /episode-001.m4a HTTP/1.1"), DownloadRequest::Episode(1));
    assert_eq!(classify(200, "GET /episode-42.m4a HTTP/2"), DownloadRequest::Episode(42));
    assert_eq!(classify(304, "GET /episode-1.m4a HTTP/1.1"), DownloadRequest::NotEpisode);
    assert_eq!(classify(200, "HEAD /episode-1.m4a HTTP/1.1"), DownloadRequest::NotEpisode);
    assert_eq!(classify(200, "GET /index.html HTTP/1.1"), DownloadRequest::NotEpisode);
    assert_eq!(classify(200, "GET /episode-1 HTTP/1.1"), DownloadRequest::NotEpisode);
    assert_eq!(classify(200, "GET /episode-x.m4a HTTP/1.1"), DownloadRequest::NotEpisode);
    assert_eq!(classify(200, "GET /episode-70000.m4a HTTP/1.1"), DownloadRequest::NotEpisode);
    assert_eq!(classify(200, "GET /episode-1.mp3 HTTP/1.1"), DownloadRequest::UnsupportedExtension);
}

#[test]
fn tally_counts_full_and_partial() {
    assert_eq!(
        PodcastDownloads::tally(&[(100, 100), (99, 100), (150, 100), (0, 100)]),
        Some(PodcastDownloads { full_downloads: 2, partial_downloads: 2 })
    );
    assert_eq!(PodcastDownloads::tally(&[]), Some(PodcastDownloads { full_downloads: 0, partial_downloads: 0 }));
    let many = vec![(1u32, 1u32); 65536];
    assert_eq!(PodcastDownloads::tally(&many), None);
}

#[test]
fn views_map_and_reduce() {
    let key = EpisodeDateKey { episode: 3, date: 19_485 };
    let doc = PodcastDownloads { full_downloads: 7, partial_downloads: 2 };
    assert_eq!(CompleteDownloads.map(&key, &doc), (3, 7));
    assert_eq!(DownloadsByDate.map(&key, &doc), (DateEpisodeKey { date: 19_485, episode: 3 }, 7));
    assert_eq!(CompleteDownloads.reduce(&[1, 2, 3]), Some(6));
    assert_eq!(CompleteDownloads.reduce(&[]), Some(0));
    assert_eq!(CompleteDownloads.reduce(&[u32::MAX, 1]), None);
    assert_eq!(DateEpisodeKey::range_starting_at(5), DateEpisodeKey { date: 5, episode: 0 });
    assert!(DateEpisodeKey { date: 5, episode: 9 } < DateEpisodeKey { date: 6, episode: 0 });
}
