use crabtrics::access_logs::{LogEntry, LogReader, ReadError};
use crabtrics::address::IpAddress;
use crabtrics::timestamp::{Timestamp, TimestampError, TimestampField};

const AGENT: &str = "Mozilla/5.0 (iPhone; CPU iPhone OS 16_4_1 like Mac OS X) AppleWebKit/605.1.15 (KHTML, like Gecko) Version/16.4 Mobile/15E148 Safari/604.1";

fn may_8_2023() -> Timestamp {
    Timestamp { year: 2023, month: 5, day: 8, hour: 15, minute: 8, second: 30, offset_minutes: 0 }
}

fn entry(bytes_sent: u32) -> LogEntry {
    LogEntry {
        requestor: IpAddress::V4(172, 56, 208, 121),
        time: may_8_2023(),
        method: b"GET".to_vec(),
        path: b"/episode-001.m4a".to_vec(),
        response_code: 206,
        bytes_sent,
        referrer: b"https://wayofthecrab.com/".to_vec(),
        user_agent: AGENT.as_bytes().to_vec(),
    }
}

fn reader(text: &str) -> LogReader {
    LogReader::new(text.as_bytes().to_vec())
}

fn first_error(text: &str) -> ReadError {
    reader(text).read_one().unwrap_err()
}

#[test]
fn parsing() {
    let sample = format!(
        "172.56.208.121 - - [08/May/2023:15:08:30 +0000] \"GET /episode-001.m4a HTTP/1.1\" 206 212698 \"https://wayofthecrab.com/\" \"{AGENT}\"\n\
         172.56.208.121 - - [08/May/2023:15:08:30 +0000] \"GET /episode-001.m4a HTTP/1.1\" 206 303 \"https://wayofthecrab.com/\" \"{AGENT}\"\n"
    );
    let mut reader = LogReader::new(sample.into_bytes());
    let line_one = reader.read_one().unwrap().unwrap();
    assert_eq!(line_one, entry(212_698));
    let line_two = reader.read_one().unwrap().unwrap();
    assert_eq!(line_two, entry(303));
    assert!(reader.read_one().unwrap().is_none());
}

#[test]
fn round_trip_literal_line() {
    let mut r = reader(
        "172.56.208.121 - - [08/May/2023:15:08:30 +0000] \"GET /episode-001.m4a HTTP/1.1\" 206 212698 \"https://wayofthecrab.com/\" \"Mozilla/5.0 ...\"\n",
    );
    let e = r.read_one().unwrap().unwrap();
    assert_eq!(e.requestor, IpAddress::V4(172, 56, 208, 121));
    assert_eq!(e.time, may_8_2023());
    assert_eq!(e.method, b"GET".to_vec());
    assert_eq!(e.path, b"/episode-001.m4a".to_vec());
    assert_eq!(e.response_code, 206);
    assert_eq!(e.bytes_sent, 212698);
    assert_eq!(e.referrer, b"https://wayofthecrab.com/".to_vec());
    assert_eq!(e.user_agent, b"Mozilla/5.0 ...".to_vec());
    assert!(r.read_one().unwrap().is_none());
}

#[test]
fn only_line_feeds_end_cleanly() {
    assert_eq!(reader("").read_one(), Ok(None));
    assert_eq!(reader("\n").read_one(), Ok(None));
    let mut r = reader("\n\n\n\n");
    assert_eq!(r.read_one(), Ok(None));
    assert_eq!(r.read_one(), Ok(None));
}

#[test]
fn blank_lines_between_records_are_skipped() {
    let mut r = reader(
        "\n\n1.2.3.4 - - [01/Jan/2024:00:00:00 +0000] \"GET /a HTTP/1.1\" 200 1 \"-\" \"x\"\n\n\n5.6.7.8 - - [01/Jan/2024:00:00:01 +0000] \"GET /b HTTP/1.1\" 200 2 \"-\" \"y\"\n\n",
    );
    let a = r.read_one().unwrap().unwrap();
    assert_eq!(a.requestor, IpAddress::V4(1, 2, 3, 4));
    assert_eq!(a.path, b"/a".to_vec());
    let b = r.read_one().unwrap().unwrap();
    assert_eq!(b.requestor, IpAddress::V4(5, 6, 7, 8));
    assert_eq!(b.path, b"/b".to_vec());
    assert_eq!(b.bytes_sent, 2);
    assert_eq!(r.read_one(), Ok(None));
}

#[test]
fn status_400_has_no_method_or_path() {
    let mut r = reader(
        "10.0.0.1 - - [01/Jan/2024:00:00:00 +0000] \"\\x16\\x03\\x01garbage\" 400 157 \"-\" \"-\"\n",
    );
    let e = r.read_one().unwrap().unwrap();
    assert_eq!(e.response_code, 400);
    assert!(e.method.is_empty());
    assert!(e.path.is_empty());
    let mut r = reader("10.0.0.1 - - [01/Jan/2024:00:00:00 +0000] \"GET /x HTTP/1.1\" 400 0 \"-\" \"-\"\n");
    let e = r.read_one().unwrap().unwrap();
    assert!(e.method.is_empty());
    assert!(e.path.is_empty());
}

#[test]
fn empty_request_line_has_no_method_or_path() {
    let mut r = reader("10.0.0.1 - - [01/Jan/2024:00:00:00 +0000] \"\" 408 0 \"-\" \"-\"\n");
    let e = r.read_one().unwrap().unwrap();
    assert_eq!(e.response_code, 408);
    assert!(e.method.is_empty());
    assert!(e.path.is_empty());
}

#[test]
fn quote_inside_user_agent_does_not_end_it() {
    let mut r = reader(
        "10.0.0.1 - - [01/Jan/2024:00:00:00 +0000] \"GET /x HTTP/1.1\" 200 5 \"a\" b\" \"say \"hi\" there\"\n",
    );
    let e = r.read_one().unwrap().unwrap();
    assert_eq!(e.referrer, b"a\" b".to_vec());
    assert_eq!(e.user_agent, b"say \"hi\" there".to_vec());
    assert_eq!(r.read_one(), Ok(None));
}

#[test]
fn two_lines_then_end() {
    let line = "172.56.208.121 - - [08/May/2023:15:08:30 +0000] \"GET /episode-001.m4a HTTP/1.1\" 206 212698 \"https://wayofthecrab.com/\" \"Mozilla/5.0 ...\"\n";
    let mut r = LogReader::new(format!("{line}{line}").into_bytes());
    assert!(r.read_one().unwrap().is_some());
    assert!(r.read_one().unwrap().is_some());
    assert_eq!(r.read_one(), Ok(None));
}

#[test]
fn cut_record_is_truncated() {
    let line = "172.56.208.121 - - [08/May/2023:15:08:30 +0000] \"GET /episode-001.m4a HTTP/1.1\" 206 212698 \"https://wayofthecrab.com/\" \"Mozilla/5.0 ...\"\n";
    let cut = line.find(']').unwrap() + 1;
    assert_eq!(first_error(&line[..cut]), ReadError::StreamTruncated);
    for m in 1..line.len() {
        assert_eq!(first_error(&line[..m]), ReadError::StreamTruncated, "cut at {m}");
    }
}

#[test]
fn bad_status_is_invalid_integer() {
    let line = |status: &str| {
        format!("10.0.0.1 - - [01/Jan/2024:00:00:00 +0000] \"GET /x HTTP/1.1\" {status} 5 \"-\" \"-\"\n")
    };
    assert_eq!(first_error(&line("65536")), ReadError::InvalidInteger);
    assert_eq!(first_error(&line("70000")), ReadError::InvalidInteger);
    assert_eq!(first_error(&line("abc")), ReadError::InvalidInteger);
    assert_eq!(first_error(&line("-1")), ReadError::InvalidInteger);
    assert_eq!(first_error(&line("")), ReadError::InvalidInteger);
    let e = reader(&line("65535")).read_one().unwrap().unwrap();
    assert_eq!(e.response_code, 65535);
    let e = reader(&line("+200")).read_one().unwrap().unwrap();
    assert_eq!(e.response_code, 200);
}

#[test]
fn bad_byte_count_is_invalid_integer() {
    let line = |sent: &str| {
        format!("10.0.0.1 - - [01/Jan/2024:00:00:00 +0000] \"GET /x HTTP/1.1\" 200 {sent} \"-\" \"-\"\n")
    };
    assert_eq!(first_error(&line("4294967296")), ReadError::InvalidInteger);
    assert_eq!(first_error(&line("12x")), ReadError::InvalidInteger);
    let e = reader(&line("4294967295")).read_one().unwrap().unwrap();
    assert_eq!(e.bytes_sent, u32::MAX);
}

#[test]
fn bad_requestor_is_invalid_address() {
    let line = |who: &str| {
        format!("{who} - - [01/Jan/2024:00:00:00 +0000] \"GET /x HTTP/1.1\" 200 5 \"-\" \"-\"\n")
    };
    assert_eq!(first_error(&line("example.com")), ReadError::InvalidAddress);
    assert_eq!(first_error(&line("1.2.3.256")), ReadError::InvalidAddress);
    assert_eq!(first_error(&line("1.2.3")), ReadError::InvalidAddress);
    assert_eq!(first_error(&line("01.2.3.4")), ReadError::InvalidAddress);
    assert_eq!(first_error("1.2.3.4 only\n"), ReadError::StreamTruncated);
}

#[test]
fn malformed_request_line() {
    let mut r = reader("10.0.0.1 - - [01/Jan/2024:00:00:00 +0000] \"GET\" 200 5 \"-\" \"-\"\n");
    assert_eq!(r.read_one(), Err(ReadError::MalformedRequestLine));
    let mut r = reader("10.0.0.1 - - [01/Jan/2024:00:00:00 +0000] \"  \t \" 200 5 \"-\" \"-\"\n");
    assert_eq!(r.read_one(), Err(ReadError::MalformedRequestLine));
}

#[test]
fn request_without_version() {
    let mut r = reader("10.0.0.1 - - [01/Jan/2024:00:00:00 +0000] \"GET /x\" 200 5 \"-\" \"-\"\n");
    let e = r.read_one().unwrap().unwrap();
    assert_eq!(e.method, b"GET".to_vec());
    assert_eq!(e.path, b"/x".to_vec());
}

#[test]
fn request_tokens_split_on_any_whitespace() {
    let request = |rq: &str| {
        let line = format!("10.0.0.1 - - [01/Jan/2024:00:00:00 +0000] \"{rq}\" 200 5 \"-\" \"-\"\n");
        let e = reader(&line).read_one().unwrap().unwrap();
        (String::from_utf8(e.method).unwrap(), String::from_utf8(e.path).unwrap())
    };
    assert_eq!(request("GET  /a HTTP/1.1"), ("GET".to_string(), "/a".to_string()));
    assert_eq!(request(" GET /a HTTP/1.1"), ("GET".to_string(), "/a".to_string()));
    assert_eq!(request("GET\t/a\tHTTP/1.1"), ("GET".to_string(), "/a".to_string()));
    assert_eq!(request("GET /a HTTP/1.1 extra"), ("GET".to_string(), "/a".to_string()));
    assert_eq!(request("GET /a "), ("GET".to_string(), "/a".to_string()));
}

#[test]
fn undecodable_bytes_are_invalid_text() {
    let mut bytes = b"10.0.0.1 - - [01/Jan/2024:00:00:00 +0000] \"GET /x HTTP/1.1\" 200 5 \"-\" \"".to_vec();
    bytes.push(0xFF);
    bytes.extend_from_slice(b"\"\n");
    assert_eq!(LogReader::new(bytes).read_one(), Err(ReadError::InvalidText));
    let mut r = reader("10.0.0.1 - - [01/Jan/2024:00:00:00 +0000] \"GET /x HTTP/1.1\" 200 5 \"-\" \"caf\u{e9}\"\n");
    assert_eq!(r.read_one().unwrap().unwrap().user_agent, "caf\u{e9}".as_bytes().to_vec());
}

#[test]
fn bad_timestamp_is_invalid_timestamp() {
    let line = |ts: &str| format!("10.0.0.1 - - [{ts}] \"GET /x HTTP/1.1\" 200 5 \"-\" \"-\"\n");
    assert_eq!(
        first_error(&line("08/Mai/2023:15:08:30 +0000")),
        ReadError::InvalidTimestamp(TimestampError::Malformed(TimestampField::Month))
    );
    assert_eq!(
        first_error(&line("31/Apr/2023:15:08:30 +0000")),
        ReadError::InvalidTimestamp(TimestampError::NotADate)
    );
}

#[test]
fn ipv6_requestor() {
    let mut r = reader("2001:db8::7 - - [01/Jan/2024:00:00:00 +0000] \"GET /x HTTP/1.1\" 200 5 \"-\" \"-\"\n");
    let e = r.read_one().unwrap().unwrap();
    assert_eq!(e.requestor, IpAddress::V6(0x2001_0db8_0000_0000_0000_0000_0000_0007));
}
