//! The wire protocol: newline-delimited JSON messages.
//!
//! Each line of a connection carries one tagged message.  The encoder
//! below emits the canonical form of a message — fixed key order, no
//! spaces, strings escaped — and its output is pinned down byte for byte
//! by [`spec_enc_message`].  The parser accepts exactly the canonical
//! form: whenever it returns a message, the input line was that message's
//! encoding.  Text travels as UTF-8 bytes.

use vstd::prelude::*;
use vstd::string::StringSliceAdditionalSpecFns;

verus! {

/// A search, as a client sends it.
#[derive(Debug)]
pub struct SearchRequest {
    pub query: Vec<u8>,
    pub top_n: usize,
    pub files_only: bool,
}

/// One search result: where the chunk lives, its text, and the reranker's
/// relevance score, carried as the bit pattern of a 32-bit float.
#[derive(Debug)]
pub struct SearchResult {
    pub file_path: Vec<u8>,
    pub start_line: usize,
    pub end_line: usize,
    pub text: Vec<u8>,
    pub score_bits: u32,
}

/// Bookkeeping a response carries.
#[derive(Debug)]
pub struct SearchStats {
    pub total_time_ms: u64,
    pub num_candidates: usize,
    pub num_results: usize,
}

/// A response: results in rank order, and statistics.
#[derive(Debug)]
pub struct SearchResponse {
    pub results: Vec<SearchResult>,
    pub stats: SearchStats,
}

/// One protocol message.
#[derive(Debug)]
pub enum Message {
    Request { id: u64, request: SearchRequest },
    Response { id: u64, response: SearchResponse },
    Error { id: u64, message: Vec<u8> },
}

// ---------------------------------------------------------------------------
// The canonical encoding, as a specification
// ---------------------------------------------------------------------------

/// The decimal digits of `n`, most significant first.
pub open spec fn spec_digits(n: nat) -> Seq<u8>
    decreases n,
{
    if n < 10 {
        seq![(48 + n) as u8]
    } else {
        spec_digits(n / 10).push((48 + n % 10) as u8)
    }
}

/// How one byte is written inside a JSON string.
pub open spec fn esc_byte(b: u8) -> Seq<u8> {
    if b == 34 {
        seq![92u8, 34u8]
    } else if b == 92 {
        seq![92u8, 92u8]
    } else if b == 10 {
        seq![92u8, 110u8]
    } else if b == 13 {
        seq![92u8, 114u8]
    } else if b == 9 {
        seq![92u8, 116u8]
    } else {
        seq![b]
    }
}

/// A byte string, escaped.
pub open spec fn esc(s: Seq<u8>) -> Seq<u8>
    decreases s.len(),
{
    if s.len() == 0 {
        Seq::empty()
    } else {
        esc(s.drop_last()) + esc_byte(s.last())
    }
}

/// A JSON string: quotes around the escaped bytes.
pub open spec fn spec_enc_string(s: Seq<u8>) -> Seq<u8> {
    seq![34u8] + esc(s) + seq![34u8]
}

/// A JSON boolean.
pub open spec fn spec_enc_bool(b: bool) -> Seq<u8> {
    if b {
        "true".spec_bytes()
    } else {
        "false".spec_bytes()
    }
}

/// Text that can travel in a JSON string: no control bytes except tab,
/// newline and carriage return, which the encoding escapes.
pub open spec fn str_wf(s: Seq<u8>) -> bool {
    forall|i: int| 0 <= i < s.len() ==> (#[trigger] s[i]) >= 32 || s[i] == 9 || s[i] == 10
        || s[i] == 13
}

/// One encoded search result.
pub open spec fn spec_enc_result(r: SearchResult) -> Seq<u8> {
    "{\"file_path\":".spec_bytes() + spec_enc_string(r.file_path@)
        + ",\"start_line\":".spec_bytes() + spec_digits(r.start_line as nat)
        + ",\"end_line\":".spec_bytes() + spec_digits(r.end_line as nat)
        + ",\"text\":".spec_bytes() + spec_enc_string(r.text@) + ",\"score_bits\":".spec_bytes()
        + spec_digits(r.score_bits as nat) + "}".spec_bytes()
}

/// An encoded result list: results in order, separated by commas.
pub open spec fn spec_enc_results(rs: Seq<SearchResult>) -> Seq<u8>
    decreases rs.len(),
{
    if rs.len() == 0 {
        Seq::empty()
    } else if rs.len() == 1 {
        spec_enc_result(rs[0])
    } else {
        spec_enc_results(rs.drop_last()) + ",".spec_bytes() + spec_enc_result(rs.last())
    }
}

/// The encoded tail of a `Response` line: everything after the id.
pub open spec fn spec_enc_response_tail(r: SearchResponse) -> Seq<u8> {
    ",\"response\":{\"results\":[".spec_bytes() + spec_enc_results(r.results@)
        + "],\"stats\":{\"total_time_ms\":".spec_bytes() + spec_digits(
        r.stats.total_time_ms as nat,
    ) + ",\"num_candidates\":".spec_bytes() + spec_digits(r.stats.num_candidates as nat)
        + ",\"num_results\":".spec_bytes() + spec_digits(r.stats.num_results as nat)
        + "}}}".spec_bytes()
}

/// The canonical encoding of one message, without the trailing newline.
pub open spec fn spec_enc_message(m: Message) -> Seq<u8> {
    match m {
        Message::Request { id, request } => "{\"type\":\"Request\",\"id\":".spec_bytes()
            + spec_digits(id as nat) + ",\"request\":{\"query\":".spec_bytes() + spec_enc_string(
            request.query@,
        ) + ",\"top_n\":".spec_bytes() + spec_digits(request.top_n as nat)
            + ",\"files_only\":".spec_bytes() + spec_enc_bool(request.files_only)
            + "}}".spec_bytes(),
        Message::Response { id, response } => "{\"type\":\"Response\",\"id\":".spec_bytes()
            + spec_digits(id as nat) + spec_enc_response_tail(response),
        Message::Error { id, message } => "{\"type\":\"Error\",\"id\":".spec_bytes() + spec_digits(
            id as nat,
        ) + ",\"message\":".spec_bytes() + spec_enc_string(message@) + "}".spec_bytes(),
    }
}

/// Every string field of the message can travel in a JSON string.
pub open spec fn message_wf(m: Message) -> bool {
    match m {
        Message::Request { id, request } => str_wf(request.query@),
        Message::Response { id, response } => forall|i: int| 0 <= i < response.results@.len()
            ==> str_wf((#[trigger] response.results@[i]).file_path@)
                && str_wf(response.results@[i].text@),
        Message::Error { id, message } => str_wf(message@),
    }
}

// ---------------------------------------------------------------------------
// The encoder
// ---------------------------------------------------------------------------

/// Append a literal's UTF-8 bytes.
fn push_lit(out: &mut Vec<u8>, l: &str)
    ensures
        final(out)@ == old(out)@ + l.spec_bytes(),
{
    out.extend_from_slice(l.as_bytes());
}

/// Append the decimal digits of `n`.
pub fn push_digits(out: &mut Vec<u8>, n: u64)
    ensures
        final(out)@ == old(out)@ + spec_digits(n as nat),
    decreases n,
{
    if n >= 10 {
        push_digits(out, n / 10);
        out.push(48 + (n % 10) as u8);
        proof {
            assert(final(out)@ =~= old(out)@ + spec_digits(n as nat));
        }
    } else {
        out.push(48 + n as u8);
        proof {
            assert(final(out)@ =~= old(out)@ + spec_digits(n as nat));
        }
    }
}

/// Append a JSON string: quote, escaped bytes, quote.
fn push_string(out: &mut Vec<u8>, s: &[u8])
    ensures
        final(out)@ == old(out)@ + spec_enc_string(s@),
{
    let ghost pre = out@;
    out.push(34);
    let mut i: usize = 0;
    while i < s.len()
        invariant
            i <= s@.len(),
            out@ == pre + seq![34u8] + esc(s@.subrange(0, i as int)),
        decreases s@.len() - i,
    {
        let ghost before = out@;
        let b = s[i];
        proof {
            assert(s@.subrange(0, i + 1).drop_last() =~= s@.subrange(0, i as int));
            assert(s@.subrange(0, i + 1).last() == s@[i as int]);
        }
        if b == 34 {
            out.push(92);
            out.push(34);
        } else if b == 92 {
            out.push(92);
            out.push(92);
        } else if b == 10 {
            out.push(92);
            out.push(110);
        } else if b == 13 {
            out.push(92);
            out.push(114);
        } else if b == 9 {
            out.push(92);
            out.push(116);
        } else {
            out.push(b);
        }
        proof {
            assert(out@ =~= before + esc_byte(s@[i as int]));
            assert(out@ =~= pre + seq![34u8] + esc(s@.subrange(0, i + 1)));
        }
        i = i + 1;
    }
    proof {
        assert(s@.subrange(0, s@.len() as int) =~= s@);
    }
    out.push(34);
    proof {
        assert(out@ =~= pre + spec_enc_string(s@));
    }
}

/// Append `true` or `false`.
fn push_bool(out: &mut Vec<u8>, b: bool)
    ensures
        final(out)@ == old(out)@ + spec_enc_bool(b),
{
    if b {
        push_lit(out, "true");
    } else {
        push_lit(out, "false");
    }
}

/// Append one encoded result.
fn push_result(out: &mut Vec<u8>, r: &SearchResult)
    ensures
        final(out)@ == old(out)@ + spec_enc_result(*r),
{
    push_lit(out, "{\"file_path\":");
    push_string(out, r.file_path.as_slice());
    push_lit(out, ",\"start_line\":");
    push_digits(out, r.start_line as u64);
    push_lit(out, ",\"end_line\":");
    push_digits(out, r.end_line as u64);
    push_lit(out, ",\"text\":");
    push_string(out, r.text.as_slice());
    push_lit(out, ",\"score_bits\":");
    push_digits(out, r.score_bits as u64);
    push_lit(out, "}");
    proof {
        assert(final(out)@ =~= old(out)@ + spec_enc_result(*r));
    }
}

/// Encode one message in canonical form (no trailing newline).
#[verifier::rlimit(100)]
pub fn encode_message(m: &Message) -> (r: Vec<u8>)
    ensures
        r@ == spec_enc_message(*m),
{
    let mut out: Vec<u8> = Vec::new();
    match m {
        Message::Request { id, request } => {
            push_lit(&mut out, "{\"type\":\"Request\",\"id\":");
            push_digits(&mut out, *id);
            push_lit(&mut out, ",\"request\":{\"query\":");
            push_string(&mut out, request.query.as_slice());
            push_lit(&mut out, ",\"top_n\":");
            push_digits(&mut out, request.top_n as u64);
            push_lit(&mut out, ",\"files_only\":");
            push_bool(&mut out, request.files_only);
            push_lit(&mut out, "}}");
            proof {
                assert(out@ =~= spec_enc_message(*m));
            }
        },
        Message::Response { id, response } => {
            push_lit(&mut out, "{\"type\":\"Response\",\"id\":");
            push_digits(&mut out, *id);
            push_lit(&mut out, ",\"response\":{\"results\":[");
            let ghost head = out@;
            let mut i: usize = 0;
            while i < response.results.len()
                invariant
                    i <= response.results@.len(),
                    out@ == head + spec_enc_results(response.results@.subrange(0, i as int)),
                decreases response.results@.len() - i,
            {
                proof {
                    let rs = response.results@;
                    assert(rs.subrange(0, i + 1).drop_last() =~= rs.subrange(0, i as int));
                    assert(rs.subrange(0, i + 1).last() == rs[i as int]);
                }
                if i > 0 {
                    push_lit(&mut out, ",");
                }
                push_result(&mut out, &response.results[i]);
                proof {
                    assert(out@ =~= head + spec_enc_results(
                        response.results@.subrange(0, i + 1),
                    ));
                }
                i = i + 1;
            }
            proof {
                assert(response.results@.subrange(0, response.results@.len() as int)
                    =~= response.results@);
            }
            push_lit(&mut out, "],\"stats\":{\"total_time_ms\":");
            push_digits(&mut out, response.stats.total_time_ms);
            push_lit(&mut out, ",\"num_candidates\":");
            push_digits(&mut out, response.stats.num_candidates as u64);
            push_lit(&mut out, ",\"num_results\":");
            push_digits(&mut out, response.stats.num_results as u64);
            push_lit(&mut out, "}}}");
            proof {
                assert(out@ =~= spec_enc_message(*m));
            }
        },
        Message::Error { id, message } => {
            push_lit(&mut out, "{\"type\":\"Error\",\"id\":");
            push_digits(&mut out, *id);
            push_lit(&mut out, ",\"message\":");
            push_string(&mut out, message.as_slice());
            push_lit(&mut out, "}");
            proof {
                assert(out@ =~= spec_enc_message(*m));
            }
        },
    }
    out
}

// ---------------------------------------------------------------------------
// The parser
// ---------------------------------------------------------------------------

/// An ASCII decimal digit.
pub open spec fn is_digit(b: u8) -> bool {
    48 <= b <= 57
}

/// The numeric value of a digit string, most significant first.
pub open spec fn digits_value(ds: Seq<u8>) -> nat
    decreases ds.len(),
{
    if ds.len() == 0 {
        0
    } else {
        digits_value(ds.drop_last()) * 10 + ((ds.last() - 48) as nat)
    }
}

proof fn lemma_digits_value_pos(ds: Seq<u8>)
    requires
        ds.len() >= 1,
        forall|j: int| 0 <= j < ds.len() ==> is_digit(#[trigger] ds[j]),
        ds[0] != 48,
    ensures
        digits_value(ds) >= 1,
        ds.len() >= 2 ==> digits_value(ds) >= 10,
    decreases ds.len(),
{
    if ds.len() == 1 {
        assert(ds.last() == ds[0]);
    } else {
        let prefix = ds.drop_last();
        assert(prefix[0] == ds[0]);
        assert forall|j: int| 0 <= j < prefix.len() implies is_digit(#[trigger] prefix[j]) by {
            assert(prefix[j] == ds[j]);
        }
        lemma_digits_value_pos(prefix);
    }
}

/// A digit string with no redundant leading zero is the canonical digit
/// string of its value.
proof fn lemma_digits_canonical(ds: Seq<u8>)
    requires
        ds.len() >= 1,
        forall|j: int| 0 <= j < ds.len() ==> is_digit(#[trigger] ds[j]),
        ds[0] != 48 || ds.len() == 1,
    ensures
        spec_digits(digits_value(ds)) == ds,
    decreases ds.len(),
{
    if ds.len() == 1 {
        assert(ds.last() == ds[0]);
        assert(ds.drop_last().len() == 0);
        assert(digits_value(ds.drop_last()) == 0);
        assert(digits_value(ds) == ((ds[0] - 48) as nat));
        assert(spec_digits(digits_value(ds)) =~= ds);
    } else {
        let prefix = ds.drop_last();
        let q = digits_value(prefix);
        let r = (ds.last() - 48) as nat;
        let v = digits_value(ds);
        assert(v == q * 10 + r);
        assert(prefix[0] == ds[0]);
        assert forall|j: int| 0 <= j < prefix.len() implies is_digit(#[trigger] prefix[j]) by {
            assert(prefix[j] == ds[j]);
        }
        lemma_digits_value_pos(prefix);
        assert(q >= 1);
        assert(r < 10);
        assert(v >= 10) by (nonlinear_arith)
            requires
                v == q * 10 + r,
                q >= 1,
                r >= 0,
        {}
        assert(v / 10 == q && v % 10 == r) by (nonlinear_arith)
            requires
                v == q * 10 + r,
                0 <= r < 10,
        {}
        lemma_digits_canonical(prefix);
        assert(spec_digits(v) == spec_digits(q).push((48 + r) as u8));
        assert((48 + r) as u8 == ds.last());
        assert(spec_digits(v) =~= ds);
    }
}

/// Match the exact bytes of `l` at `pos`.
fn expect_lit(s: &[u8], pos: usize, l: &[u8]) -> (r: Option<usize>)
    requires
        pos <= s@.len(),
    ensures
        r matches Some(np) ==> pos <= np <= s@.len() && np == pos + l@.len()
            && s@.subrange(pos as int, np as int) == l@,
{
    if s.len() - pos < l.len() {
        return None;
    }
    let end = pos + l.len();
    if crate::db::compare_bytes(vstd::slice::slice_subrange(s, pos, end), l) {
        Some(end)
    } else {
        None
    }
}

/// Parse a canonical decimal number.
fn parse_u64(s: &[u8], pos: usize) -> (r: Option<(u64, usize)>)
    requires
        pos <= s@.len(),
    ensures
        r matches Some((v, np)) ==> pos < np <= s@.len()
            && s@.subrange(pos as int, np as int) == spec_digits(v as nat),
{
    if pos >= s.len() {
        return None;
    }
    let b0 = s[pos];
    if !(48 <= b0 && b0 <= 57) {
        return None;
    }
    if b0 == 48 {
        proof {
            assert(s@.subrange(pos as int, pos + 1) =~= spec_digits(0));
        }
        return Some((0, pos + 1));
    }
    let mut end: usize = pos + 1;
    while end < s.len() && 48 <= s[end as usize] && s[end as usize] <= 57
        invariant
            pos < end <= s@.len(),
            forall|j: int| pos <= j < end ==> is_digit(#[trigger] s@[j]),
        decreases s@.len() - end,
    {
        end = end + 1;
    }
    let mut val: u64 = 0;
    let mut p: usize = pos;
    while p < end
        invariant
            pos <= p <= end <= s@.len(),
            forall|j: int| pos <= j < end ==> is_digit(#[trigger] s@[j]),
            val as nat == digits_value(s@.subrange(pos as int, p as int)),
        decreases end - p,
    {
        let d: u8 = s[p] - 48;
        if val > (u64::MAX - d as u64) / 10 {
            return None;
        }
        proof {
            let m = u64::MAX as nat;
            let dv = d as nat;
            assert(val as nat <= (m - dv) / 10);
            assert((val as nat) * 10 + dv <= m) by (nonlinear_arith)
                requires
                    val as nat <= ((m - dv) / 10),
                    dv < 10,
                    m >= dv,
            {}
            assert(s@.subrange(pos as int, p + 1).drop_last() =~= s@.subrange(pos as int, p as int));
            assert(s@.subrange(pos as int, p + 1).last() == s@[p as int]);
        }
        val = val * 10 + d as u64;
        p = p + 1;
    }
    proof {
        let ds = s@.subrange(pos as int, end as int);
        assert(ds[0] == s@[pos as int]);
        lemma_digits_canonical(ds);
    }
    Some((val, end))
}

/// Parse a number that must fit in `usize`.
fn parse_usize(s: &[u8], pos: usize) -> (r: Option<(usize, usize)>)
    requires
        pos <= s@.len(),
    ensures
        r matches Some((v, np)) ==> pos < np <= s@.len()
            && s@.subrange(pos as int, np as int) == spec_digits(v as nat),
{
    match parse_u64(s, pos) {
        Some((v, np)) => {
            if v <= usize::MAX as u64 {
                Some((v as usize, np))
            } else {
                None
            }
        },
        None => None,
    }
}

/// Parse a number that must fit in `u32`.
fn parse_u32(s: &[u8], pos: usize) -> (r: Option<(u32, usize)>)
    requires
        pos <= s@.len(),
    ensures
        r matches Some((v, np)) ==> pos < np <= s@.len()
            && s@.subrange(pos as int, np as int) == spec_digits(v as nat),
{
    match parse_u64(s, pos) {
        Some((v, np)) => {
            if v <= u32::MAX as u64 {
                Some((v as u32, np))
            } else {
                None
            }
        },
        None => None,
    }
}

/// Parse `true` or `false`.
fn parse_bool(s: &[u8], pos: usize) -> (r: Option<(bool, usize)>)
    requires
        pos <= s@.len(),
    ensures
        r matches Some((v, np)) ==> pos <= np <= s@.len()
            && s@.subrange(pos as int, np as int) == spec_enc_bool(v),
{
    match expect_lit(s, pos, "true".as_bytes()) {
        Some(np) => {
            return Some((true, np));
        },
        None => {},
    }
    match expect_lit(s, pos, "false".as_bytes()) {
        Some(np) => {
            return Some((false, np));
        },
        None => {},
    }
    None
}

/// Parse a JSON string in canonical escaping.
fn parse_string(s: &[u8], pos: usize) -> (r: Option<(Vec<u8>, usize)>)
    requires
        pos <= s@.len(),
    ensures
        r matches Some((b, np)) ==> pos < np <= s@.len()
            && s@.subrange(pos as int, np as int) == spec_enc_string(b@) && str_wf(b@),
{
    if pos >= s.len() || s[pos] != 34 {
        return None;
    }
    let mut out: Vec<u8> = Vec::new();
    let mut p: usize = pos + 1;
    while p < s.len()
        invariant
            pos + 1 <= p <= s@.len(),
            s@.subrange(pos as int, p as int) == seq![34u8] + esc(out@),
            str_wf(out@),
        decreases s@.len() - p,
    {
        let b = s[p];
        if b == 34 {
            proof {
                assert(s@.subrange(pos as int, p + 1) =~= seq![34u8] + esc(out@) + seq![34u8]);
            }
            return Some((out, p + 1));
        } else if b == 92 {
            if p + 1 >= s.len() {
                return None;
            }
            let e = s[p + 1];
            let decoded: u8 = if e == 34 {
                34
            } else if e == 92 {
                92
            } else if e == 110 {
                10
            } else if e == 114 {
                13
            } else if e == 116 {
                9
            } else {
                return None;
            };
            proof {
                assert(out@.push(decoded).drop_last() =~= out@);
                assert(out@.push(decoded).last() == decoded);
                assert(esc_byte(decoded) =~= seq![92u8, e]);
                assert(s@.subrange(pos as int, p + 2) =~= s@.subrange(pos as int, p as int)
                    + seq![s@[p as int], s@[p + 1]]);
                assert(s@.subrange(pos as int, p + 2) =~= seq![34u8] + esc(out@.push(decoded)));
            }
            out.push(decoded);
            p = p + 2;
        } else if b < 32 {
            return None;
        } else {
            proof {
                assert(out@.push(b).drop_last() =~= out@);
                assert(out@.push(b).last() == b);
                assert(esc_byte(b) =~= seq![b]);
                assert(s@.subrange(pos as int, p + 1) =~= s@.subrange(pos as int, p as int)
                    + seq![s@[p as int]]);
                assert(s@.subrange(pos as int, p + 1) =~= seq![34u8] + esc(out@.push(b)));
            }
            out.push(b);
            p = p + 1;
        }
    }
    None
}

/// Parse one encoded search result.
#[verifier::rlimit(100)]
fn parse_result(s: &[u8], pos: usize) -> (r: Option<(SearchResult, usize)>)
    requires
        pos <= s@.len(),
    ensures
        r matches Some((v, np)) ==> pos <= np <= s@.len()
            && s@.subrange(pos as int, np as int) == spec_enc_result(v)
            && str_wf(v.file_path@) && str_wf(v.text@),
{
    let p1 = match expect_lit(s, pos, "{\"file_path\":".as_bytes()) {
        Some(x) => x,
        None => return None,
    };
    let (file_path, p2) = match parse_string(s, p1) {
        Some(x) => x,
        None => return None,
    };
    let p3 = match expect_lit(s, p2, ",\"start_line\":".as_bytes()) {
        Some(x) => x,
        None => return None,
    };
    let (start_line, p4) = match parse_usize(s, p3) {
        Some(x) => x,
        None => return None,
    };
    let p5 = match expect_lit(s, p4, ",\"end_line\":".as_bytes()) {
        Some(x) => x,
        None => return None,
    };
    let (end_line, p6) = match parse_usize(s, p5) {
        Some(x) => x,
        None => return None,
    };
    let p7 = match expect_lit(s, p6, ",\"text\":".as_bytes()) {
        Some(x) => x,
        None => return None,
    };
    let (text, p8) = match parse_string(s, p7) {
        Some(x) => x,
        None => return None,
    };
    let p9 = match expect_lit(s, p8, ",\"score_bits\":".as_bytes()) {
        Some(x) => x,
        None => return None,
    };
    let (score_bits, p10) = match parse_u32(s, p9) {
        Some(x) => x,
        None => return None,
    };
    let p11 = match expect_lit(s, p10, "}".as_bytes()) {
        Some(x) => x,
        None => return None,
    };
    let v = SearchResult { file_path, start_line, end_line, text, score_bits };
    proof {
        assert(s@.subrange(pos as int, p2 as int) =~= s@.subrange(pos as int, p1 as int)
            + s@.subrange(p1 as int, p2 as int));
        assert(s@.subrange(pos as int, p3 as int) =~= s@.subrange(pos as int, p2 as int)
            + s@.subrange(p2 as int, p3 as int));
        assert(s@.subrange(pos as int, p4 as int) =~= s@.subrange(pos as int, p3 as int)
            + s@.subrange(p3 as int, p4 as int));
        assert(s@.subrange(pos as int, p5 as int) =~= s@.subrange(pos as int, p4 as int)
            + s@.subrange(p4 as int, p5 as int));
        assert(s@.subrange(pos as int, p6 as int) =~= s@.subrange(pos as int, p5 as int)
            + s@.subrange(p5 as int, p6 as int));
        assert(s@.subrange(pos as int, p7 as int) =~= s@.subrange(pos as int, p6 as int)
            + s@.subrange(p6 as int, p7 as int));
        assert(s@.subrange(pos as int, p8 as int) =~= s@.subrange(pos as int, p7 as int)
            + s@.subrange(p7 as int, p8 as int));
        assert(s@.subrange(pos as int, p9 as int) =~= s@.subrange(pos as int, p8 as int)
            + s@.subrange(p8 as int, p9 as int));
        assert(s@.subrange(pos as int, p10 as int) =~= s@.subrange(pos as int, p9 as int)
            + s@.subrange(p9 as int, p10 as int));
        assert(s@.subrange(pos as int, p11 as int) =~= s@.subrange(pos as int, p10 as int)
            + s@.subrange(p10 as int, p11 as int));
        assert(s@.subrange(pos as int, p11 as int) == spec_enc_result(v));
    }
    Some((v, p11))
}

/// Parse a bare result list: results separated by commas, no brackets.
/// An empty list consumes nothing.
fn parse_results(s: &[u8], pos: usize) -> (r: Option<(Vec<SearchResult>, usize)>)
    requires
        pos <= s@.len(),
    ensures
        r matches Some((v, np)) ==> pos <= np <= s@.len()
            && s@.subrange(pos as int, np as int) == spec_enc_results(v@)
            && forall|i: int| 0 <= i < v@.len()
                ==> str_wf((#[trigger] v@[i]).file_path@) && str_wf(v@[i].text@),
{
    let mut results: Vec<SearchResult> = Vec::new();
    let first = match parse_result(s, pos) {
        Some(x) => x,
        None => {
            proof {
                assert(s@.subrange(pos as int, pos as int) =~= spec_enc_results(results@));
            }
            return Some((results, pos));
        },
    };
    results.push(first.0);
    let mut p: usize = first.1;
    proof {
        assert(results@.len() == 1);
        assert(results@[0] == first.0);
        assert(s@.subrange(pos as int, p as int) == spec_enc_results(results@));
    }
    while p < s.len()
        invariant
            pos <= p <= s@.len(),
            results@.len() >= 1,
            s@.subrange(pos as int, p as int) == spec_enc_results(results@),
            forall|i: int| 0 <= i < results@.len()
                ==> str_wf((#[trigger] results@[i]).file_path@) && str_wf(results@[i].text@),
        decreases s@.len() - p,
    {
        if s[p] != 44 {
            return Some((results, p));
        }
        let ghost rs0 = results@;
        let ghost pstart = p;
        let p2 = p + 1;
        let (v, p3) = match parse_result(s, p2) {
            Some(x) => x,
            None => return None,
        };
        proof {
            assert(rs0.push(v).drop_last() =~= rs0);
            assert(rs0.push(v).last() == v);
            assert(s@.subrange(pstart as int, p2 as int) =~= seq![44u8]);
            assert(seq![44u8] =~= ",".spec_bytes()) by {
                reveal_strlit(",");
                assert(",".is_ascii());
                assert(",".spec_bytes().len() == 1);
                assert(",".spec_bytes()[0] == 44u8);
            }
            assert(s@.subrange(pos as int, p3 as int) =~= s@.subrange(pos as int, pstart as int)
                + s@.subrange(pstart as int, p2 as int) + s@.subrange(p2 as int, p3 as int));
            assert(spec_enc_results(rs0.push(v)) == spec_enc_results(rs0) + ",".spec_bytes()
                + spec_enc_result(v));
            assert(s@.subrange(pos as int, p3 as int) =~= spec_enc_results(rs0.push(v)));
        }
        results.push(v);
        if p3 <= p {
            return None;
        }
        p = p3;
    }
    Some((results, p))
}

/// Parse a canonical `Request` line.
#[verifier::rlimit(100)]
fn parse_request(s: &[u8]) -> (r: Option<Message>)
    ensures
        r matches Some(m) ==> s@ == spec_enc_message(m) && message_wf(m),
{
    let p1 = match expect_lit(s, 0, "{\"type\":\"Request\",\"id\":".as_bytes()) {
        Some(x) => x,
        None => return None,
    };
    let (id, p2) = match parse_u64(s, p1) {
        Some(x) => x,
        None => return None,
    };
    let p3 = match expect_lit(s, p2, ",\"request\":{\"query\":".as_bytes()) {
        Some(x) => x,
        None => return None,
    };
    let (query, p4) = match parse_string(s, p3) {
        Some(x) => x,
        None => return None,
    };
    let p5 = match expect_lit(s, p4, ",\"top_n\":".as_bytes()) {
        Some(x) => x,
        None => return None,
    };
    let (top_n, p6) = match parse_usize(s, p5) {
        Some(x) => x,
        None => return None,
    };
    let p7 = match expect_lit(s, p6, ",\"files_only\":".as_bytes()) {
        Some(x) => x,
        None => return None,
    };
    let (files_only, p8) = match parse_bool(s, p7) {
        Some(x) => x,
        None => return None,
    };
    let p9 = match expect_lit(s, p8, "}}".as_bytes()) {
        Some(x) => x,
        None => return None,
    };
    if p9 != s.len() {
        return None;
    }
    let m = Message::Request { id, request: SearchRequest { query, top_n, files_only } };
    proof {
        assert(s@.subrange(0, p2 as int) =~= s@.subrange(0, p1 as int) + s@.subrange(
            p1 as int,
            p2 as int,
        ));
        assert(s@.subrange(0, p3 as int) =~= s@.subrange(0, p2 as int) + s@.subrange(
            p2 as int,
            p3 as int,
        ));
        assert(s@.subrange(0, p4 as int) =~= s@.subrange(0, p3 as int) + s@.subrange(
            p3 as int,
            p4 as int,
        ));
        assert(s@.subrange(0, p5 as int) =~= s@.subrange(0, p4 as int) + s@.subrange(
            p4 as int,
            p5 as int,
        ));
        assert(s@.subrange(0, p6 as int) =~= s@.subrange(0, p5 as int) + s@.subrange(
            p5 as int,
            p6 as int,
        ));
        assert(s@.subrange(0, p7 as int) =~= s@.subrange(0, p6 as int) + s@.subrange(
            p6 as int,
            p7 as int,
        ));
        assert(s@.subrange(0, p8 as int) =~= s@.subrange(0, p7 as int) + s@.subrange(
            p7 as int,
            p8 as int,
        ));
        assert(s@.subrange(0, p9 as int) =~= s@.subrange(0, p8 as int) + s@.subrange(
            p8 as int,
            p9 as int,
        ));
        assert(s@ =~= s@.subrange(0, p9 as int));
        assert(s@ == spec_enc_message(m));
    }
    Some(m)
}

/// Parse the tail of a `Response` line: everything after the id.
#[verifier::rlimit(100)]
fn parse_response_tail(s: &[u8], pos: usize) -> (r: Option<(SearchResponse, usize)>)
    requires
        pos <= s@.len(),
    ensures
        r matches Some((resp, np)) ==> pos <= np <= s@.len()
            && s@.subrange(pos as int, np as int) == spec_enc_response_tail(resp)
            && (forall|i: int| 0 <= i < resp.results@.len()
                ==> str_wf((#[trigger] resp.results@[i]).file_path@)
                    && str_wf(resp.results@[i].text@)),
{
    let p3 = match expect_lit(s, pos, ",\"response\":{\"results\":[".as_bytes()) {
        Some(x) => x,
        None => return None,
    };
    let (results, p4) = match parse_results(s, p3) {
        Some(x) => x,
        None => return None,
    };
    let p5 = match expect_lit(s, p4, "],\"stats\":{\"total_time_ms\":".as_bytes()) {
        Some(x) => x,
        None => return None,
    };
    let (total_time_ms, p6) = match parse_u64(s, p5) {
        Some(x) => x,
        None => return None,
    };
    let p7 = match expect_lit(s, p6, ",\"num_candidates\":".as_bytes()) {
        Some(x) => x,
        None => return None,
    };
    let (num_candidates, p8) = match parse_usize(s, p7) {
        Some(x) => x,
        None => return None,
    };
    let p9 = match expect_lit(s, p8, ",\"num_results\":".as_bytes()) {
        Some(x) => x,
        None => return None,
    };
    let (num_results, p10) = match parse_usize(s, p9) {
        Some(x) => x,
        None => return None,
    };
    let p11 = match expect_lit(s, p10, "}}}".as_bytes()) {
        Some(x) => x,
        None => return None,
    };
    let resp = SearchResponse {
        results,
        stats: SearchStats { total_time_ms, num_candidates, num_results },
    };
    proof {
        assert(s@.subrange(pos as int, p4 as int) =~= s@.subrange(pos as int, p3 as int)
            + s@.subrange(p3 as int, p4 as int));
        assert(s@.subrange(pos as int, p5 as int) =~= s@.subrange(pos as int, p4 as int)
            + s@.subrange(p4 as int, p5 as int));
        assert(s@.subrange(pos as int, p6 as int) =~= s@.subrange(pos as int, p5 as int)
            + s@.subrange(p5 as int, p6 as int));
        assert(s@.subrange(pos as int, p7 as int) =~= s@.subrange(pos as int, p6 as int)
            + s@.subrange(p6 as int, p7 as int));
        assert(s@.subrange(pos as int, p8 as int) =~= s@.subrange(pos as int, p7 as int)
            + s@.subrange(p7 as int, p8 as int));
        assert(s@.subrange(pos as int, p9 as int) =~= s@.subrange(pos as int, p8 as int)
            + s@.subrange(p8 as int, p9 as int));
        assert(s@.subrange(pos as int, p10 as int) =~= s@.subrange(pos as int, p9 as int)
            + s@.subrange(p9 as int, p10 as int));
        assert(s@.subrange(pos as int, p11 as int) =~= s@.subrange(pos as int, p10 as int)
            + s@.subrange(p10 as int, p11 as int));
        assert(s@.subrange(pos as int, p11 as int) == spec_enc_response_tail(resp));
    }
    Some((resp, p11))
}

/// Parse a canonical `Response` line.
fn parse_response(s: &[u8]) -> (r: Option<Message>)
    ensures
        r matches Some(m) ==> s@ == spec_enc_message(m) && message_wf(m),
{
    let p1 = match expect_lit(s, 0, "{\"type\":\"Response\",\"id\":".as_bytes()) {
        Some(x) => x,
        None => return None,
    };
    let (id, p2) = match parse_u64(s, p1) {
        Some(x) => x,
        None => return None,
    };
    let (response, p3) = match parse_response_tail(s, p2) {
        Some(x) => x,
        None => return None,
    };
    if p3 != s.len() {
        return None;
    }
    let m = Message::Response { id, response };
    proof {
        assert(s@.subrange(0, p2 as int) =~= s@.subrange(0, p1 as int) + s@.subrange(
            p1 as int,
            p2 as int,
        ));
        assert(s@.subrange(0, p3 as int) =~= s@.subrange(0, p2 as int) + s@.subrange(
            p2 as int,
            p3 as int,
        ));
        assert(s@ =~= s@.subrange(0, p3 as int));
        assert(s@ == spec_enc_message(m));
    }
    Some(m)
}

/// Parse a canonical `Error` line.
#[verifier::rlimit(100)]
fn parse_error(s: &[u8]) -> (r: Option<Message>)
    ensures
        r matches Some(m) ==> s@ == spec_enc_message(m) && message_wf(m),
{
    let p1 = match expect_lit(s, 0, "{\"type\":\"Error\",\"id\":".as_bytes()) {
        Some(x) => x,
        None => return None,
    };
    let (id, p2) = match parse_u64(s, p1) {
        Some(x) => x,
        None => return None,
    };
    let p3 = match expect_lit(s, p2, ",\"message\":".as_bytes()) {
        Some(x) => x,
        None => return None,
    };
    let (message, p4) = match parse_string(s, p3) {
        Some(x) => x,
        None => return None,
    };
    let p5 = match expect_lit(s, p4, "}".as_bytes()) {
        Some(x) => x,
        None => return None,
    };
    if p5 != s.len() {
        return None;
    }
    let m = Message::Error { id, message };
    proof {
        assert(s@.subrange(0, p2 as int) =~= s@.subrange(0, p1 as int) + s@.subrange(
            p1 as int,
            p2 as int,
        ));
        assert(s@.subrange(0, p3 as int) =~= s@.subrange(0, p2 as int) + s@.subrange(
            p2 as int,
            p3 as int,
        ));
        assert(s@.subrange(0, p4 as int) =~= s@.subrange(0, p3 as int) + s@.subrange(
            p3 as int,
            p4 as int,
        ));
        assert(s@.subrange(0, p5 as int) =~= s@.subrange(0, p4 as int) + s@.subrange(
            p4 as int,
            p5 as int,
        ));
        assert(s@ =~= s@.subrange(0, p5 as int));
        assert(s@ == spec_enc_message(m));
    }
    Some(m)
}

/// Parse one message line (without its trailing newline).
///
/// Only the canonical form is accepted: whenever a message comes back, the
/// input was exactly that message's encoding, so a parsed message
/// re-encodes to the bytes it came from.
pub fn parse_message(s: &[u8]) -> (r: Option<Message>)
    ensures
        r matches Some(m) ==> s@ == spec_enc_message(m) && message_wf(m),
{
    match parse_request(s) {
        Some(m) => {
            return Some(m);
        },
        None => {},
    }
    match parse_response(s) {
        Some(m) => {
            return Some(m);
        },
        None => {},
    }
    parse_error(s)
}

} // verus!
