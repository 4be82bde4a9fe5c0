//! The wire protocol: canonical encoding, parsing, and round trips.

use ragrep::protocol::{
    encode_message, parse_message, Message, SearchRequest, SearchResponse, SearchResult,
    SearchStats,
};

#[test]
fn test_message_serialization() {
    let request = Message::Request {
        id: 1,
        request: SearchRequest {
            query: b"test".to_vec(),
            top_n: 10,
            files_only: false,
        },
    };
    let serialized = encode_message(&request);
    let deserialized = parse_message(&serialized).unwrap();
    assert_eq!(encode_message(&deserialized), serialized);
    match deserialized {
        Message::Request { id, request } => {
            assert_eq!(id, 1);
            assert_eq!(request.query, b"test".to_vec());
            assert_eq!(request.top_n, 10);
            assert_eq!(request.files_only, false);
        }
        _ => panic!("expected a request"),
    }
}

#[test]
fn request_line_matches_the_wire_format() {
    let request = Message::Request {
        id: 7,
        request: SearchRequest {
            query: b"hash map".to_vec(),
            top_n: 3,
            files_only: true,
        },
    };
    let line = encode_message(&request);
    assert_eq!(
        line,
        b"{\"type\":\"Request\",\"id\":7,\"request\":{\"query\":\"hash map\",\"top_n\":3,\"files_only\":true}}".to_vec()
    );
}

#[test]
fn protocol_round_trip() {
    // the protocol scenario: a request goes out, a response with at most
    // top_n results and blanked text comes back under the same id
    let line = b"{\"type\":\"Request\",\"id\":7,\"request\":{\"query\":\"hash map\",\"top_n\":3,\"files_only\":true}}";
    let msg = parse_message(line).unwrap();
    let (id, top_n, files_only) = match msg {
        Message::Request { id, request } => (id, request.top_n, request.files_only),
        _ => panic!("expected a request"),
    };
    assert_eq!(id, 7);
    assert_eq!(top_n, 3);
    assert!(files_only);

    let results: Vec<SearchResult> = (0..2)
        .map(|i| SearchResult {
            file_path: format!("/r/f{}.rs", i).into_bytes(),
            start_line: 1 + i,
            end_line: 3 + i,
            text: Vec::new(),
            score_bits: 1000 - i as u32,
        })
        .collect();
    let n = results.len();
    let reply = Message::Response {
        id,
        response: SearchResponse {
            results,
            stats: SearchStats { total_time_ms: 12, num_candidates: 3, num_results: n },
        },
    };
    let reply_line = encode_message(&reply);
    match parse_message(&reply_line).unwrap() {
        Message::Response { id, response } => {
            assert_eq!(id, 7);
            assert!(response.results.len() <= 3);
            assert!(response.results.iter().all(|r| r.text.is_empty()));
        }
        _ => panic!("expected a response"),
    }
}

#[test]
fn strings_escape_and_unescape() {
    let msg = Message::Error {
        id: 2,
        message: b"bad \"line\"\n\twith \\ stuff\r".to_vec(),
    };
    let line = encode_message(&msg);
    // the line itself carries no raw control bytes
    assert!(line.iter().all(|&b| b >= 32));
    match parse_message(&line).unwrap() {
        Message::Error { id, message } => {
            assert_eq!(id, 2);
            assert_eq!(message, b"bad \"line\"\n\twith \\ stuff\r".to_vec());
        }
        _ => panic!("expected an error message"),
    }
}

#[test]
fn empty_response_round_trips() {
    let msg = Message::Response {
        id: 0,
        response: SearchResponse {
            results: Vec::new(),
            stats: SearchStats { total_time_ms: 0, num_candidates: 0, num_results: 0 },
        },
    };
    let line = encode_message(&msg);
    match parse_message(&line).unwrap() {
        Message::Response { id, response } => {
            assert_eq!(id, 0);
            assert_eq!(response.results.len(), 0);
            assert_eq!(response.stats.num_candidates, 0);
        }
        _ => panic!("expected a response"),
    }
}

#[test]
fn malformed_lines_are_rejected() {
    assert!(parse_message(b"").is_none());
    assert!(parse_message(b"not json").is_none());
    assert!(parse_message(b"{\"type\":\"Request\",\"id\":}").is_none());
    assert!(parse_message(b"{\"type\":\"Frobnicate\",\"id\":7}").is_none());
    // trailing garbage after a well-formed message
    assert!(parse_message(
        b"{\"type\":\"Error\",\"id\":1,\"message\":\"x\"} trailing"
    )
    .is_none());
}
