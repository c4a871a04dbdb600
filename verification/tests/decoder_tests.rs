use magpies::jsonl::JsonlReader;

#[test]
fn reads_lines_in_order_exactly_once() {
    let mut r = JsonlReader::new();
    r.feed(b"{\"a\":1}\n{\"b\":2}\n");
    assert_eq!(r.take_line().unwrap(), b"{\"a\":1}".to_vec());
    assert_eq!(r.take_line().unwrap(), b"{\"b\":2}".to_vec());
    assert!(r.take_line().is_none());
}

#[test]
fn round_trip_of_encoded_lines() {
    let lines: Vec<&[u8]> = vec![b"first", b"second", b"third"];
    let mut stream: Vec<u8> = Vec::new();
    for l in &lines {
        stream.extend_from_slice(l);
        stream.push(b'\n');
    }
    let mut r = JsonlReader::new();
    r.feed(&stream);
    for l in &lines {
        assert_eq!(r.take_line().unwrap(), l.to_vec());
    }
    assert!(r.take_line().is_none());
}

#[test]
fn tail_waits_for_the_terminator() {
    let mut r = JsonlReader::new();
    r.feed(b"{\"partial\":");
    // no complete line yet: nothing is consumed
    assert!(r.take_line().is_none());
    assert!(r.take_line().is_none());
    // the rest of the line arrives later
    r.feed(b"true}\n");
    assert_eq!(r.take_line().unwrap(), b"{\"partial\":true}".to_vec());
    assert!(r.take_line().is_none());
}

#[test]
fn split_across_many_feeds() {
    let mut r = JsonlReader::new();
    r.feed(b"ab");
    assert!(r.take_line().is_none());
    r.feed(b"cd");
    assert!(r.take_line().is_none());
    r.feed(b"\nxy");
    assert_eq!(r.take_line().unwrap(), b"abcd".to_vec());
    assert!(r.take_line().is_none());
    r.feed(b"\n");
    assert_eq!(r.take_line().unwrap(), b"xy".to_vec());
}

#[test]
fn empty_lines_are_lines() {
    let mut r = JsonlReader::new();
    r.feed(b"\n\na\n");
    assert_eq!(r.take_line().unwrap(), Vec::<u8>::new());
    assert_eq!(r.take_line().unwrap(), Vec::<u8>::new());
    assert_eq!(r.take_line().unwrap(), b"a".to_vec());
    assert!(r.take_line().is_none());
}

#[test]
fn a_line_longer_than_the_initial_buffer() {
    let mut r = JsonlReader::new();
    let long: Vec<u8> = std::iter::repeat(b'x').take(10_000).collect();
    r.feed(&long);
    assert!(r.take_line().is_none());
    r.feed(b"\n");
    assert_eq!(r.take_line().unwrap(), long);
}

#[test]
fn a_stream_of_record_lines_round_trips() {
    // the log format: one JSON object per line, no other framing
    let lines = vec![
        String::from("{\"target\":\"a\",\"timestamp\":0.2,\"value\":{\"k\":2}}"),
        String::from("{\"target\":\"b\",\"timestamp\":0.9,\"value\":[1,2]}"),
    ];
    let mut stream: Vec<u8> = Vec::new();
    for l in &lines {
        stream.extend_from_slice(l.as_bytes());
        stream.push(b'\n');
    }
    let mut r = JsonlReader::new();
    r.feed(&stream);
    for l in &lines {
        let got = r.take_line().unwrap();
        let decoded: serde_json::Value = serde_json::from_slice(&got).unwrap();
        let expected: serde_json::Value = serde_json::from_str(l).unwrap();
        assert_eq!(decoded, expected);
    }
    assert!(r.take_line().is_none());
}
