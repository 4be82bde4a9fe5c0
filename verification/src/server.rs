//! The daemon's decisions: startup against a pid marker, and the shaping
//! of search responses.
//!
//! The daemon itself lives at the edge of the system — sockets, spawned
//! tasks, the filesystem — but what it decides is here: how the pid marker
//! is read and judged, which message answers a request, and how the
//! reranker's scores order the final results.

use vstd::prelude::*;
use vstd::string::StringSliceAdditionalSpecFns;

use crate::db::SimilarChunk;
use crate::protocol::{
    digits_value, is_digit, spec_digits, SearchResponse, SearchResult, SearchStats,
};

verus! {

/// ASCII whitespace, as trimmed around a pid.
pub open spec fn is_ws(b: u8) -> bool {
    b == 32 || b == 9 || b == 10 || b == 13
}

/// `s` without leading whitespace.
pub open spec fn trim_front(s: Seq<u8>) -> Seq<u8>
    decreases s.len(),
{
    if s.len() > 0 && is_ws(s.first()) {
        trim_front(s.drop_first())
    } else {
        s
    }
}

/// `s` without trailing whitespace.
pub open spec fn trim_back(s: Seq<u8>) -> Seq<u8>
    decreases s.len(),
{
    if s.len() > 0 && is_ws(s.last()) {
        trim_back(s.drop_last())
    } else {
        s
    }
}

/// `s` without surrounding whitespace.
pub open spec fn spec_trim(s: Seq<u8>) -> Seq<u8> {
    trim_back(trim_front(s))
}

/// The pid a marker file holds: its content, trimmed, must be one or more
/// decimal digits whose value fits a 32-bit pid.
pub open spec fn spec_parse_pid(s: Seq<u8>) -> Option<u32> {
    let t = spec_trim(s);
    if t.len() >= 1 && (forall|i: int| 0 <= i < t.len() ==> is_digit(#[trigger] t[i]))
        && digits_value(t) <= u32::MAX {
        Some(digits_value(t) as u32)
    } else {
        None
    }
}

proof fn lemma_trim_front_at(s: Seq<u8>, lo: int)
    requires
        0 <= lo <= s.len(),
        forall|j: int| 0 <= j < lo ==> is_ws(#[trigger] s[j]),
        lo < s.len() ==> !is_ws(s[lo]),
    ensures
        trim_front(s) =~= s.subrange(lo, s.len() as int),
    decreases s.len(),
{
    if s.len() > 0 && is_ws(s.first()) {
        assert(lo >= 1);
        let rest = s.drop_first();
        assert forall|j: int| 0 <= j < lo - 1 implies is_ws(#[trigger] rest[j]) by {
            assert(rest[j] == s[j + 1]);
        }
        if lo - 1 < rest.len() {
            assert(rest[lo - 1] == s[lo]);
        }
        lemma_trim_front_at(rest, lo - 1);
        assert(rest.subrange(lo - 1, rest.len() as int) =~= s.subrange(lo, s.len() as int));
    } else {
        assert(lo == 0);
    }
}

proof fn lemma_trim_back_at(s: Seq<u8>, hi: int)
    requires
        0 <= hi <= s.len(),
        forall|j: int| hi <= j < s.len() ==> is_ws(#[trigger] s[j]),
        hi > 0 ==> !is_ws(s[hi - 1]),
    ensures
        trim_back(s) =~= s.subrange(0, hi),
    decreases s.len(),
{
    if s.len() > 0 && is_ws(s.last()) {
        assert(hi < s.len());
        let rest = s.drop_last();
        lemma_trim_back_at(rest, hi);
        assert(rest.subrange(0, hi) =~= s.subrange(0, hi));
    } else {
        assert(hi == s.len());
    }
}

/// Whitespace-trimming a byte string keeps exactly the span between the
/// first and last non-whitespace bytes.
pub proof fn lemma_trim_at(s: Seq<u8>, lo: int, hi: int)
    requires
        0 <= lo <= hi <= s.len(),
        forall|j: int| 0 <= j < lo ==> is_ws(#[trigger] s[j]),
        forall|j: int| hi <= j < s.len() ==> is_ws(#[trigger] s[j]),
        lo < s.len() ==> !is_ws(s[lo]),
        hi > lo ==> !is_ws(s[hi - 1]),
    ensures
        spec_trim(s) =~= s.subrange(lo, hi),
{
    if lo == hi && lo < s.len() {
        assert(is_ws(s[lo]));
        assert(false);
    }
    lemma_trim_front_at(s, lo);
    let f = s.subrange(lo, s.len() as int);
    if hi == lo {
        assert forall|j: int| 0 <= j < f.len() implies is_ws(#[trigger] f[j]) by {
            assert(f[j] == s[lo + j]);
        }
        lemma_trim_back_at(f, 0);
        assert(spec_trim(s) =~= s.subrange(lo, hi));
    } else {
        assert(!is_ws(s[hi - 1]));
        assert forall|j: int| hi - lo <= j < f.len() implies is_ws(#[trigger] f[j]) by {
            assert(f[j] == s[lo + j]);
        }
        assert(f[hi - lo - 1] == s[hi - 1]);
        lemma_trim_back_at(f, hi - lo);
        assert(f.subrange(0, hi - lo) =~= s.subrange(lo, hi));
        assert(spec_trim(s) =~= s.subrange(lo, hi));
    }
}

/// Parse the content of a pid marker file.
pub fn parse_pid(content: &[u8]) -> (r: Option<u32>)
    ensures
        r == spec_parse_pid(content@),
{
    let n = content.len();
    let mut lo: usize = 0;
    while lo < n && (content[lo] == 32 || content[lo] == 9 || content[lo] == 10 || content[lo]
        == 13)
        invariant
            lo <= n,
            n == content@.len(),
            forall|j: int| 0 <= j < lo ==> is_ws(#[trigger] content@[j]),
        decreases n - lo,
    {
        lo = lo + 1;
    }
    let mut hi: usize = n;
    while hi > lo && (content[hi - 1] == 32 || content[hi - 1] == 9 || content[hi - 1] == 10
        || content[hi - 1] == 13)
        invariant
            lo <= hi <= n,
            n == content@.len(),
            forall|j: int| 0 <= j < lo ==> is_ws(#[trigger] content@[j]),
            forall|j: int| hi <= j < n ==> is_ws(#[trigger] content@[j]),
        decreases hi,
    {
        hi = hi - 1;
    }
    proof {
        lemma_trim_front_at(content@, lo as int);
        let f = content@.subrange(lo as int, n as int);
        if hi == lo {
            assert forall|j: int| 0 <= j < f.len() implies is_ws(#[trigger] f[j]) by {
                assert(f[j] == content@[lo + j]);
            }
            lemma_trim_back_at(f, 0);
            assert(spec_trim(content@) =~= content@.subrange(lo as int, hi as int));
        } else {
            assert(!is_ws(content@[hi - 1]));
            assert forall|j: int| hi - lo <= j < f.len() implies is_ws(#[trigger] f[j]) by {
                assert(f[j] == content@[lo + j]);
            }
            assert(f[hi - lo - 1] == content@[hi - 1]);
            lemma_trim_back_at(f, hi - lo);
            assert(f.subrange(0, hi - lo) =~= content@.subrange(lo as int, hi as int));
            assert(spec_trim(content@) =~= content@.subrange(lo as int, hi as int));
        }
    }
    let ghost t = spec_trim(content@);
    if hi == lo {
        proof {
            assert(t.len() == 0);
        }
        return None;
    }
    let mut val: u64 = 0;
    let mut p: usize = lo;
    while p < hi
        invariant
            lo <= p <= hi <= n,
            n == content@.len(),
            t == spec_trim(content@),
            t =~= content@.subrange(lo as int, hi as int),
            forall|j: int| lo <= j < p ==> is_digit(#[trigger] content@[j]),
            val as nat == digits_value(content@.subrange(lo as int, p as int)),
            val <= u32::MAX,
        decreases hi - p,
    {
        let b = content[p];
        if !(48 <= b && b <= 57) {
            proof {
                assert(t[p - lo] == content@[p as int]);
                assert(!is_digit(t[p - lo]));
            }
            return None;
        }
        let d: u8 = b - 48;
        let next: u64 = val * 10 + d as u64;
        proof {
            assert(content@.subrange(lo as int, p + 1).drop_last() =~= content@.subrange(
                lo as int,
                p as int,
            ));
            assert(content@.subrange(lo as int, p + 1).last() == content@[p as int]);
        }
        if next > u32::MAX as u64 {
            proof {
                let part = content@.subrange(lo as int, p + 1);
                assert(digits_value(part) == next as nat);
                if forall|i: int| 0 <= i < t.len() ==> is_digit(#[trigger] t[i]) {
                    assert forall|j: int| 0 <= j < t.len() implies is_digit(#[trigger] t[j]) by {}
                    assert forall|j: int| 0 <= j < part.len() implies part[j] == t[j] by {
                        assert(part[j] == content@[lo + j]);
                        assert(t[j] == content@[lo + j]);
                    }
                    lemma_digits_prefix_le(t, part);
                    assert(digits_value(t) > u32::MAX);
                }
            }
            return None;
        }
        val = next;
        p = p + 1;
    }
    proof {
        assert(content@.subrange(lo as int, hi as int) =~= t);
        assert forall|i: int| 0 <= i < t.len() implies is_digit(#[trigger] t[i]) by {
            assert(t[i] == content@[lo + i]);
        }
    }
    Some(val as u32)
}

/// A digit string is worth at least any of its prefixes.
proof fn lemma_digits_prefix_le(full: Seq<u8>, part: Seq<u8>)
    requires
        part.len() <= full.len(),
        forall|j: int| 0 <= j < full.len() ==> is_digit(#[trigger] full[j]),
        forall|j: int| 0 <= j < part.len() ==> part[j] == full[j],
    ensures
        digits_value(part) <= digits_value(full),
    decreases full.len(),
{
    if part.len() < full.len() {
        let shorter = full.drop_last();
        lemma_digits_prefix_le(shorter, part);
        assert(digits_value(full) == digits_value(shorter) * 10 + ((full.last() - 48) as nat));
    } else {
        assert(part =~= full);
    }
}

/// What the daemon does about a possibly existing instance.
pub enum StartDecision {
    /// A live instance holds the marker: refuse to start.
    AlreadyRunning { pid: u32 },
    /// The marker is stale: remove it and the endpoint file, then bind.
    CleanStale,
    /// No readable marker: bind.
    Proceed,
    /// The marker exists but holds no pid: refuse to start.
    MalformedPid,
}

/// Decide the daemon's startup from the pid marker's content (if the file
/// exists) and whether the process named in it is alive.
pub fn server_start_decision(pid_file: Option<&Vec<u8>>, alive: bool) -> (r: StartDecision)
    ensures
        match pid_file {
            None => r is Proceed,
            Some(content) => match spec_parse_pid(content@) {
                None => r is MalformedPid,
                Some(pid) => if alive {
                    (r matches StartDecision::AlreadyRunning { pid: p } && p == pid)
                } else {
                    r is CleanStale
                },
            },
        },
{
    match pid_file {
        None => StartDecision::Proceed,
        Some(content) => match parse_pid(content.as_slice()) {
            None => StartDecision::MalformedPid,
            Some(pid) => {
                if alive {
                    StartDecision::AlreadyRunning { pid }
                } else {
                    StartDecision::CleanStale
                }
            },
        },
    }
}

/// The refusal message of a daemon that found a live instance; it names
/// the running pid.
pub fn already_running_message(pid: u32) -> (r: Vec<u8>)
    ensures
        r@ == "Server already running (PID: ".spec_bytes() + spec_digits(pid as nat)
            + ")".spec_bytes(),
{
    let mut out: Vec<u8> = Vec::new();
    out.extend_from_slice("Server already running (PID: ".as_bytes());
    crate::protocol::push_digits(&mut out, pid as u64);
    out.extend_from_slice(")".as_bytes());
    out
}

// ---------------------------------------------------------------------------
// Shaping search results
// ---------------------------------------------------------------------------

/// The reranker's scores, as ascending sort keys: higher scores first,
/// ties broken by position.
pub open spec fn score_keys(v: Seq<(usize, u32)>) -> Seq<u64> {
    Seq::new(v.len(), |i: int| (u32::MAX - v[i].1) as u64)
}

/// Is `e` one of the entries of `v`?
pub open spec fn spec_entry_of(e: (usize, u32), v: Seq<(usize, u32)>) -> bool {
    exists|x: int| 0 <= x < v.len() && e == #[trigger] v[x]
}

/// Sort reranker output by descending score, ties by position.
///
/// The result is exactly the input reordered by the unique ranking of the
/// score keys, so it is a permutation with descending scores.
pub fn sort_reranked(v: &Vec<(usize, u32)>) -> (r: Vec<(usize, u32)>)
    ensures
        r@.len() == v@.len(),
        exists|rank: Seq<usize>|
            crate::db::is_distance_ranking(rank, score_keys(v@), v@.len() as int)
                && #[trigger] rank.len() == r@.len()
                && (forall|i: int| 0 <= i < r@.len() ==> #[trigger] r@[i] == v@[rank[i] as int]),
        forall|i: int, j: int| 0 <= i < j < r@.len()
            ==> (#[trigger] r@[i]).1 >= (#[trigger] r@[j]).1,
        forall|i: int| 0 <= i < r@.len() ==> spec_entry_of(#[trigger] r@[i], v@),
{
    let mut keys: Vec<u64> = Vec::new();
    let mut i: usize = 0;
    while i < v.len()
        invariant
            i <= v@.len(),
            keys@.len() == i,
            forall|j: int| 0 <= j < i ==> #[trigger] keys@[j] == score_keys(v@)[j],
        decreases v@.len() - i,
    {
        keys.push((u32::MAX - v[i].1) as u64);
        i = i + 1;
    }
    proof {
        assert(keys@ =~= score_keys(v@));
    }
    let rank = crate::db::rank_by_distance(&keys, v.len());
    let mut r: Vec<(usize, u32)> = Vec::new();
    let mut j: usize = 0;
    while j < rank.len()
        invariant
            keys@ == score_keys(v@),
            crate::db::is_distance_ranking(rank@, keys@, v@.len() as int),
            rank@.len() == v@.len(),
            j <= rank@.len(),
            r@.len() == j,
            forall|i2: int| 0 <= i2 < j ==> #[trigger] r@[i2] == v@[rank@[i2] as int],
        decreases rank@.len() - j,
    {
        let idx = rank[j];
        r.push(v[idx]);
        j = j + 1;
    }
    proof {
        assert forall|a: int, b: int| 0 <= a < b < r@.len() implies (#[trigger] r@[a]).1 >= (
        #[trigger] r@[b]).1 by {
            assert(crate::db::dist_lt(keys@, rank@[a] as int, rank@[b] as int));
            assert(keys@[rank@[a] as int] <= keys@[rank@[b] as int]);
        }
        assert forall|i2: int| 0 <= i2 < r@.len() implies spec_entry_of(#[trigger] r@[i2], v@) by {
            assert(rank@[i2] < keys@.len());
            let x = rank@[i2] as int;
            assert(0 <= x < v@.len() && r@[i2] == v@[x]);
        }
        assert(crate::db::is_distance_ranking(rank@, score_keys(v@), v@.len() as int)
            && rank@.len() == r@.len()
            && (forall|i2: int| 0 <= i2 < r@.len() ==> #[trigger] r@[i2] == v@[rank@[i2] as int]));
    }
    r
}

/// Is `res` the search result presenting candidate `c` with score bits
/// `score`, its text blanked when only files are wanted?
pub open spec fn result_of_candidate(res: SearchResult, c: SimilarChunk, score: u32, files_only: bool) -> bool {
    &&& res.file_path@ == c.file_path@
    &&& res.start_line == c.start_line
    &&& res.end_line == c.end_line
    &&& res.text@ == (if files_only {
        Seq::<u8>::empty()
    } else {
        c.text@
    })
    &&& res.score_bits == score
}

/// Shape the final response: one result per reranked entry, in reranker
/// order, text blanked in files-only mode, and statistics filled in.
pub fn shape_response(candidates: &Vec<SimilarChunk>, reranked: &Vec<(usize, u32)>, files_only: bool, total_time_ms: u64) -> (resp: SearchResponse)
    requires
        forall|i: int| 0 <= i < reranked@.len() ==> (#[trigger] reranked@[i]).0 < candidates@.len(),
    ensures
        resp.results@.len() == reranked@.len(),
        forall|i: int| 0 <= i < reranked@.len()
            ==> result_of_candidate(
                #[trigger] resp.results@[i],
                candidates@[reranked@[i].0 as int],
                reranked@[i].1,
                files_only,
            ),
        resp.stats.total_time_ms == total_time_ms,
        resp.stats.num_candidates == candidates@.len(),
        resp.stats.num_results == reranked@.len(),
{
    let mut results: Vec<SearchResult> = Vec::new();
    let mut i: usize = 0;
    while i < reranked.len()
        invariant
            forall|x: int| 0 <= x < reranked@.len()
                ==> (#[trigger] reranked@[x]).0 < candidates@.len(),
            i <= reranked@.len(),
            results@.len() == i,
            forall|x: int| 0 <= x < i
                ==> result_of_candidate(
                    #[trigger] results@[x],
                    candidates@[reranked@[x].0 as int],
                    reranked@[x].1,
                    files_only,
                ),
        decreases reranked@.len() - i,
    {
        let (idx, score) = reranked[i];
        let c = &candidates[idx];
        let text: Vec<u8> = if files_only {
            Vec::new()
        } else {
            vstd::slice::slice_to_vec(c.text.as_slice())
        };
        results.push(SearchResult {
            file_path: vstd::slice::slice_to_vec(c.file_path.as_slice()),
            start_line: c.start_line,
            end_line: c.end_line,
            text,
            score_bits: score,
        });
        i = i + 1;
    }
    let num_results = results.len();
    SearchResponse {
        results,
        stats: SearchStats { total_time_ms, num_candidates: candidates.len(), num_results },
    }
}

/// An empty response: what a search with no candidates answers, all
/// statistics zero but the elapsed time.
pub fn empty_response(total_time_ms: u64) -> (resp: SearchResponse)
    ensures
        resp.results@.len() == 0,
        resp.stats.total_time_ms == total_time_ms,
        resp.stats.num_candidates == 0,
        resp.stats.num_results == 0,
{
    SearchResponse {
        results: Vec::new(),
        stats: SearchStats { total_time_ms, num_candidates: 0, num_results: 0 },
    }
}

// ---------------------------------------------------------------------------
// Well-known paths
// ---------------------------------------------------------------------------

/// The daemon's file paths under a repository root.
pub struct RagrepServer {
    pub socket_path: Vec<u8>,
    pub pid_path: Vec<u8>,
}

impl RagrepServer {
    /// The daemon paths for the repository rooted at `base_path`.
    pub fn new(base_path: &[u8]) -> (r: RagrepServer)
        ensures
            r.socket_path@ == base_path@ + "/.ragrep/ragrep.sock".spec_bytes(),
            r.pid_path@ == base_path@ + "/.ragrep/server.pid".spec_bytes(),
    {
        let mut socket_path: Vec<u8> = vstd::slice::slice_to_vec(base_path);
        socket_path.extend_from_slice("/.ragrep/ragrep.sock".as_bytes());
        let mut pid_path: Vec<u8> = vstd::slice::slice_to_vec(base_path);
        pid_path.extend_from_slice("/.ragrep/server.pid".as_bytes());
        RagrepServer { socket_path, pid_path }
    }

    /// The pid marker path.
    pub fn pid_path(&self) -> (r: &Vec<u8>)
        ensures
            r@ == self.pid_path@,
    {
        &self.pid_path
    }

    /// The listening endpoint path.
    pub fn socket_path(&self) -> (r: &Vec<u8>)
        ensures
            r@ == self.socket_path@,
    {
        &self.socket_path
    }
}

} // verus!
