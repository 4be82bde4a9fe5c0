//! A line-oriented cleaner: trim the lines of a text, drop the empty
//! ones, and join the survivors into fixed-size groups.

use vstd::prelude::*;

use crate::server::{is_ws, spec_trim};

verus! {

/// The cleaned lines of `s` from position `i` on, with `cur` the bytes of
/// the current line read so far: every line trimmed, empty lines dropped.
pub open spec fn clean_lines_from(s: Seq<u8>, i: int, cur: Seq<u8>) -> Seq<Seq<u8>>
    decreases s.len() - i,
{
    if i < 0 || i >= s.len() {
        if spec_trim(cur).len() > 0 {
            seq![spec_trim(cur)]
        } else {
            Seq::empty()
        }
    } else if s[i] == 10 {
        (if spec_trim(cur).len() > 0 {
            seq![spec_trim(cur)]
        } else {
            Seq::<Seq<u8>>::empty()
        }) + clean_lines_from(s, i + 1, Seq::empty())
    } else {
        clean_lines_from(s, i + 1, cur.push(s[i]))
    }
}

/// The cleaned lines of `s`.
pub open spec fn spec_clean_lines(s: Seq<u8>) -> Seq<Seq<u8>> {
    clean_lines_from(s, 0, Seq::empty())
}

/// Lines joined by single newlines.
pub open spec fn spec_join(lines: Seq<Seq<u8>>) -> Seq<u8>
    decreases lines.len(),
{
    if lines.len() == 0 {
        Seq::empty()
    } else if lines.len() == 1 {
        lines[0]
    } else {
        spec_join(lines.drop_last()) + seq![10u8] + lines.last()
    }
}

/// Lines grouped `k` at a time, each group joined by newlines.
pub open spec fn spec_groups(lines: Seq<Seq<u8>>, k: int) -> Seq<Seq<u8>>
    decreases lines.len(),
{
    if k <= 0 || lines.len() == 0 {
        Seq::empty()
    } else if lines.len() <= k {
        seq![spec_join(lines)]
    } else {
        seq![spec_join(lines.subrange(0, k))] + spec_groups(
            lines.subrange(k, lines.len() as int),
            k,
        )
    }
}

/// Trim ASCII whitespace off both ends.
pub fn trim_bytes(s: &[u8]) -> (r: Vec<u8>)
    ensures
        r@ == spec_trim(s@),
{
    let n = s.len();
    let mut lo: usize = 0;
    while lo < n && (s[lo] == 32 || s[lo] == 9 || s[lo] == 10 || s[lo] == 13)
        invariant
            lo <= n,
            n == s@.len(),
            forall|j: int| 0 <= j < lo ==> is_ws(#[trigger] s@[j]),
        decreases n - lo,
    {
        lo = lo + 1;
    }
    let mut hi: usize = n;
    while hi > lo && (s[hi - 1] == 32 || s[hi - 1] == 9 || s[hi - 1] == 10 || s[hi - 1] == 13)
        invariant
            lo <= hi <= n,
            n == s@.len(),
            forall|j: int| 0 <= j < lo ==> is_ws(#[trigger] s@[j]),
            forall|j: int| hi <= j < n ==> is_ws(#[trigger] s@[j]),
        decreases hi,
    {
        hi = hi - 1;
    }
    proof {
        crate::server::lemma_trim_at(s@, lo as int, hi as int);
    }
    vstd::slice::slice_to_vec(vstd::slice::slice_subrange(s, lo, hi))
}

/// Splits a text into trimmed, nonempty lines and groups them.
pub struct Cleaner {
    pub chunk_size: usize,
}

impl Cleaner {
    /// A cleaner grouping `chunk_size` lines at a time.
    pub fn new(chunk_size: usize) -> (r: Cleaner)
        ensures
            r.chunk_size == chunk_size,
    {
        Cleaner { chunk_size }
    }

    /// Clean `content` and group its surviving lines: every line is
    /// trimmed, empty lines are dropped, and the rest are joined with
    /// newlines, `chunk_size` lines per group.
    pub fn clean_and_chunk(&self, content: &[u8]) -> (r: Vec<Vec<u8>>)
        requires
            self.chunk_size >= 1,
        ensures
            r@.map_values(|g: Vec<u8>| g@) == spec_groups(
                spec_clean_lines(content@),
                self.chunk_size as int,
            ),
    {
        let lines = clean_lines(content);
        group_lines(&lines, self.chunk_size)
    }
}

/// The trimmed, nonempty lines of `content`.
pub fn clean_lines(content: &[u8]) -> (r: Vec<Vec<u8>>)
    ensures
        r@.map_values(|l: Vec<u8>| l@) == spec_clean_lines(content@),
{
    let mut out: Vec<Vec<u8>> = Vec::new();
    let mut cur: Vec<u8> = Vec::new();
    let mut i: usize = 0;
    while i < content.len()
        invariant
            i <= content@.len(),
            spec_clean_lines(content@) == out@.map_values(|l: Vec<u8>| l@) + clean_lines_from(
                content@,
                i as int,
                cur@,
            ),
        decreases content@.len() - i,
    {
        let ghost pre = out@.map_values(|l: Vec<u8>| l@);
        let b = content[i];
        if b == 10 {
            let t = trim_bytes(cur.as_slice());
            if t.len() > 0 {
                out.push(t);
                proof {
                    assert(out@.map_values(|l: Vec<u8>| l@) =~= pre + seq![spec_trim(cur@)]);
                }
            }
            cur = Vec::new();
        } else {
            cur.push(b);
        }
        proof {
            assert(spec_clean_lines(content@) =~= out@.map_values(|l: Vec<u8>| l@)
                + clean_lines_from(content@, i + 1, cur@));
        }
        i = i + 1;
    }
    let ghost pre = out@.map_values(|l: Vec<u8>| l@);
    let t = trim_bytes(cur.as_slice());
    if t.len() > 0 {
        out.push(t);
        proof {
            assert(out@.map_values(|l: Vec<u8>| l@) =~= pre + seq![spec_trim(cur@)]);
        }
    }
    proof {
        assert(out@.map_values(|l: Vec<u8>| l@) =~= spec_clean_lines(content@));
    }
    out
}

/// Join `k` lines at a time with newlines.
fn group_lines(lines: &Vec<Vec<u8>>, k: usize) -> (r: Vec<Vec<u8>>)
    requires
        k >= 1,
    ensures
        r@.map_values(|g: Vec<u8>| g@) == spec_groups(
            lines@.map_values(|l: Vec<u8>| l@),
            k as int,
        ),
{
    let ghost ls = lines@.map_values(|l: Vec<u8>| l@);
    let n = lines.len();
    let mut out: Vec<Vec<u8>> = Vec::new();
    let mut j: usize = 0;
    proof {
        assert(ls.subrange(0, n as int) =~= ls);
        assert(out@.map_values(|g: Vec<u8>| g@) =~= Seq::<Seq<u8>>::empty());
    }
    while j < n
        invariant
            k >= 1,
            j <= n,
            n == lines@.len(),
            ls == lines@.map_values(|l: Vec<u8>| l@),
            spec_groups(ls, k as int) == out@.map_values(|g: Vec<u8>| g@) + spec_groups(
                ls.subrange(j as int, n as int),
                k as int,
            ),
        decreases n - j,
    {
        let ghost pre = out@.map_values(|g: Vec<u8>| g@);
        let upper = if n - j < k {
            n
        } else {
            j + k
        };
        let mut group: Vec<u8> = Vec::new();
        let mut x: usize = j;
        while x < upper
            invariant
                j <= x <= upper <= n,
                n == lines@.len(),
                ls == lines@.map_values(|l: Vec<u8>| l@),
                group@ == spec_join(ls.subrange(j as int, x as int)),
            decreases upper - x,
        {
            proof {
                assert(ls.subrange(j as int, x + 1).drop_last() =~= ls.subrange(
                    j as int,
                    x as int,
                ));
                assert(ls.subrange(j as int, x + 1).last() == ls[x as int]);
                assert(ls[x as int] == lines@[x as int]@);
            }
            if x > j {
                group.push(10);
            } else {
                proof {
                    assert(ls.subrange(j as int, x + 1).len() == 1);
                    assert(ls.subrange(j as int, x + 1)[0] == ls[x as int]);
                }
            }
            group.extend_from_slice(lines[x].as_slice());
            x = x + 1;
        }
        out.push(group);
        proof {
            let rest = ls.subrange(j as int, n as int);
            if n - j <= k {
                assert(rest.len() <= k);
                assert(rest =~= ls.subrange(j as int, upper as int));
                assert(spec_groups(rest, k as int) =~= seq![spec_join(rest)]);
                assert(out@.map_values(|g: Vec<u8>| g@) =~= pre + seq![spec_join(rest)]);
                assert(ls.subrange(upper as int, n as int).len() == 0);
                assert(spec_groups(ls.subrange(upper as int, n as int), k as int)
                    =~= Seq::<Seq<u8>>::empty());
            } else {
                assert(rest.len() > k);
                assert(rest.subrange(0, k as int) =~= ls.subrange(j as int, upper as int));
                assert(rest.subrange(k as int, rest.len() as int) =~= ls.subrange(
                    upper as int,
                    n as int,
                ));
                assert(spec_groups(rest, k as int) =~= seq![spec_join(rest.subrange(0, k as int))]
                    + spec_groups(rest.subrange(k as int, rest.len() as int), k as int));
                assert(out@.map_values(|g: Vec<u8>| g@) =~= pre + seq![spec_join(
                    ls.subrange(j as int, upper as int),
                )]);
            }
            assert(spec_groups(ls, k as int) =~= out@.map_values(|g: Vec<u8>| g@) + spec_groups(
                ls.subrange(upper as int, n as int),
                k as int,
            ));
        }
        j = upper;
    }
    proof {
        assert(ls.subrange(n as int, n as int).len() == 0);
        assert(spec_groups(ls.subrange(n as int, n as int), k as int) =~= Seq::<Seq<u8>>::empty());
        assert(out@.map_values(|g: Vec<u8>| g@) =~= spec_groups(ls, k as int));
    }
    out
}

} // verus!
