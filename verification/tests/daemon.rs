//! Daemon decisions: startup against a pid marker, result shaping, and
//! the debounced watcher.

use ragrep::db::SimilarChunk;
use ragrep::git_watcher::{
    has_component, in_ignored_directory, should_process_event, Debouncer, FsEventKind,
};
use ragrep::server::{
    already_running_message, parse_pid, server_start_decision, shape_response, sort_reranked,
    RagrepServer, StartDecision,
};

#[test]
fn pid_files_parse_with_whitespace() {
    assert_eq!(parse_pid(b"1234"), Some(1234));
    assert_eq!(parse_pid(b"  1234\n"), Some(1234));
    assert_eq!(parse_pid(b"007"), Some(7));
    assert_eq!(parse_pid(b""), None);
    assert_eq!(parse_pid(b"  \n"), None);
    assert_eq!(parse_pid(b"12a4"), None);
    assert_eq!(parse_pid(b"99999999999999999999"), None);
}

#[test]
fn second_instance_is_refused_while_first_lives() {
    // the daemon is running: its marker holds a live pid
    let marker = b"4242\n".to_vec();
    let decision = server_start_decision(Some(&marker), true);
    match decision {
        StartDecision::AlreadyRunning { pid } => {
            assert_eq!(pid, 4242);
            let msg = already_running_message(pid);
            let text = String::from_utf8(msg).unwrap();
            assert!(text.contains("4242"));
            assert_eq!(text, "Server already running (PID: 4242)");
        }
        _ => panic!("expected refusal while the first instance lives"),
    }
    // a stale marker is cleaned up instead
    assert!(matches!(
        server_start_decision(Some(&marker), false),
        StartDecision::CleanStale
    ));
    // no marker at all: just bind
    assert!(matches!(server_start_decision(None, false), StartDecision::Proceed));
    // unreadable marker: refuse
    let bad = b"not a pid".to_vec();
    assert!(matches!(
        server_start_decision(Some(&bad), true),
        StartDecision::MalformedPid
    ));
}

#[test]
fn server_paths_live_under_the_repository() {
    let s = RagrepServer::new(b"/repo");
    assert_eq!(s.socket_path(), &b"/repo/.ragrep/ragrep.sock".to_vec());
    assert_eq!(s.pid_path(), &b"/repo/.ragrep/server.pid".to_vec());
}

fn candidate(path: &[u8], text: &[u8], dist: u64) -> SimilarChunk {
    SimilarChunk {
        text: text.to_vec(),
        file_path: path.to_vec(),
        start_line: 1,
        end_line: 2,
        node_type: b"function".to_vec(),
        distance: dist,
    }
}

#[test]
fn reranked_results_come_back_in_score_order() {
    let pairs: Vec<(usize, u32)> = vec![(0, 10), (1, 99), (2, 50)];
    let sorted = sort_reranked(&pairs);
    assert_eq!(sorted, vec![(1, 99), (2, 50), (0, 10)]);
}

#[test]
fn responses_take_reranker_order_and_blank_text_when_asked() {
    let candidates = vec![
        candidate(b"/r/a.rs", b"fn a() {}", 5),
        candidate(b"/r/b.rs", b"fn b() {}", 9),
    ];
    let reranked: Vec<(usize, u32)> = vec![(1, 80), (0, 20)];
    let resp = shape_response(&candidates, &reranked, false, 17);
    assert_eq!(resp.results.len(), 2);
    assert_eq!(resp.results[0].file_path, b"/r/b.rs".to_vec());
    assert_eq!(resp.results[0].text, b"fn b() {}".to_vec());
    assert_eq!(resp.results[0].score_bits, 80);
    assert_eq!(resp.stats.total_time_ms, 17);
    assert_eq!(resp.stats.num_candidates, 2);
    assert_eq!(resp.stats.num_results, 2);

    let compact = shape_response(&candidates, &reranked, true, 17);
    assert!(compact.results.iter().all(|r| r.text.is_empty()));
    assert_eq!(compact.results[0].start_line, 1);
    assert_eq!(compact.results[0].end_line, 2);
}

#[test]
fn watcher_filter_keeps_source_changes() {
    assert!(should_process_event(FsEventKind::Modify, b"/r/src/lib.rs", false));
    assert!(should_process_event(FsEventKind::Create, b"/r/src/new.py", false));
    assert!(should_process_event(FsEventKind::Remove, b"/r/old.ts", false));
    // wrong kind, ignored path, build directory, wrong extension
    assert!(!should_process_event(FsEventKind::Other, b"/r/src/lib.rs", false));
    assert!(!should_process_event(FsEventKind::Modify, b"/r/src/lib.rs", true));
    assert!(!should_process_event(FsEventKind::Modify, b"/r/target/debug/x.rs", false));
    assert!(!should_process_event(FsEventKind::Modify, b"/r/notes.txt", false));
}

#[test]
fn ignored_directories_match_whole_components() {
    assert!(in_ignored_directory(b"/r/node_modules/x/y.js"));
    assert!(in_ignored_directory(b"/r/target/debug/main.rs"));
    assert!(in_ignored_directory(b"/r/.git/HEAD"));
    assert!(!in_ignored_directory(b"/r/retargeting/main.rs"));
    assert!(!in_ignored_directory(b"/r/src/lib.rs"));
    assert!(has_component(b"a/build/c", b"build"));
    assert!(!has_component(b"a/building/c", b"build"));
}

#[test]
fn debouncer_coalesces_into_one_batch() {
    // five files change a hundred milliseconds apart under a half-second
    // quiet period
    let mut d = Debouncer::new(500);
    let times: [u64; 5] = [1000, 1100, 1200, 1300, 1400];
    for (i, &t) in times.iter().enumerate() {
        let path = format!("/r/f{}.rs", i).into_bytes();
        d.record_event(path.clone(), t);
        // a duplicate event for the same path within the window coalesces
        d.record_event(path, t);
        // during the storm, no batch is released
        assert!(d.poll(t + 50).is_none());
    }
    // still quiet-period extending: 500ms after the FIRST event is too soon
    assert!(d.poll(1500).is_none());
    assert!(d.poll(1899).is_none());
    // one batch, with all five distinct paths, once the last event is 500ms old
    let batch = d.poll(1900).unwrap();
    assert_eq!(batch.len(), 5);
    let mut sorted = batch.clone();
    sorted.sort();
    sorted.dedup();
    assert_eq!(sorted.len(), 5);
    // and nothing more afterwards
    assert!(d.poll(3000).is_none());
}
