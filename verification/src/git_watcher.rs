//! Watching a working tree for changes: the event filter and the
//! debouncer.
//!
//! The filesystem watcher itself runs at the edge of the system; what it
//! feeds in is decided here.  An event survives the filter when its kind
//! is a create, modify or remove, its path is not ignored — by the ignore
//! rules, given as the opaque matcher's verdict, or by lying under one of
//! the always-ignored directories — and its extension names a recognized
//! language.  Surviving paths are coalesced by the debouncer: a batch of
//! all distinct pending paths is released once a full quiet period has
//! passed since the last qualifying event.

use vstd::prelude::*;
use vstd::string::StringSliceAdditionalSpecFns;

use crate::db::compare_bytes;
use crate::indexer::{spec_default_extensions, spec_valid_extension, Indexer};

verus! {

/// The default quiet period of the debouncer, in milliseconds.
pub const DEFAULT_DEBOUNCE_MS: u64 = 500;

/// The kind of a filesystem event, as the filter reads it.
#[derive(Clone, Copy, Debug, PartialEq, Eq, Structural)]
pub enum FsEventKind {
    Create,
    Modify,
    Remove,
    Other,
}

/// The directory names that are never worth watching or indexing.
pub open spec fn spec_ignored_directories() -> Seq<Seq<u8>> {
    seq![
        "node_modules".spec_bytes(),
        "target".spec_bytes(),
        ".git".spec_bytes(),
        "__pycache__".spec_bytes(),
        ".next".spec_bytes(),
        "dist".spec_bytes(),
        "build".spec_bytes(),
    ]
}

/// Does `path` have a whole component equal to `name` (which contains no
/// separator)?
pub open spec fn spec_has_component(path: Seq<u8>, name: Seq<u8>) -> bool {
    exists|a: int, b: int|
        #![trigger path.subrange(a, b)]
        0 <= a <= b <= path.len() && (a == 0 || path[a - 1] == 47) && (b == path.len() || path[b]
            == 47) && (forall|j: int| a <= j < b ==> path[j] != 47) && path.subrange(a, b) == name
}

/// Does `path` lie under one of the always-ignored directories?
pub open spec fn spec_in_ignored_directory(path: Seq<u8>) -> bool {
    exists|k: int| 0 <= k < spec_ignored_directories().len()
        && spec_has_component(path, #[trigger] spec_ignored_directories()[k])
}

/// The always-ignored directory names, as byte strings.
fn ignored_directories() -> (r: Vec<Vec<u8>>)
    ensures
        r@.len() == spec_ignored_directories().len(),
        forall|k: int| 0 <= k < r@.len()
            ==> (#[trigger] r@[k])@ == spec_ignored_directories()[k],
{
    let mut r: Vec<Vec<u8>> = Vec::new();
    r.push(str_bytes("node_modules"));
    r.push(str_bytes("target"));
    r.push(str_bytes(".git"));
    r.push(str_bytes("__pycache__"));
    r.push(str_bytes(".next"));
    r.push(str_bytes("dist"));
    r.push(str_bytes("build"));
    r
}

/// A literal's UTF-8 bytes.
fn str_bytes(s: &str) -> (r: Vec<u8>)
    ensures
        r@ == s.spec_bytes(),
{
    vstd::string::StrSliceExecFns::as_bytes_vec(s)
}

/// The end of the component starting at `a`: the first separator at or
/// after `a`, or the end of the path.
pub open spec fn spec_comp_end(path: Seq<u8>, a: int) -> int
    decreases path.len() - a,
{
    if a >= path.len() || path[a] == 47 {
        a
    } else {
        spec_comp_end(path, a + 1)
    }
}

proof fn lemma_comp_end(path: Seq<u8>, a: int)
    requires
        0 <= a <= path.len(),
    ensures
        a <= spec_comp_end(path, a) <= path.len(),
        spec_comp_end(path, a) < path.len() ==> path[spec_comp_end(path, a)] == 47,
        forall|j: int| a <= j < spec_comp_end(path, a) ==> path[j] != 47,
    decreases path.len() - a,
{
    if a >= path.len() || path[a] == 47 {
    } else {
        lemma_comp_end(path, a + 1);
    }
}

/// A witness component (slash-free, slash-or-end bounded) starting at `a`
/// ends exactly at `spec_comp_end(path, a)`.
proof fn lemma_comp_end_unique(path: Seq<u8>, a: int, b: int)
    requires
        0 <= a <= b <= path.len(),
        b == path.len() || path[b] == 47,
        forall|j: int| a <= j < b ==> path[j] != 47,
    ensures
        spec_comp_end(path, a) == b,
    decreases b - a,
{
    if a == b {
    } else {
        assert(path[a] != 47);
        lemma_comp_end_unique(path, a + 1, b);
    }
}

/// Does `path` have a whole component equal to `name`?  A component holds
/// no separator, so a name with one matches nothing.
pub fn has_component(path: &[u8], name: &[u8]) -> (r: bool)
    ensures
        r == spec_has_component(path@, name@),
{
    let n = path.len();
    let mut a: usize = 0;
    while a <= n
        invariant
            0 <= a <= n,
            n == path@.len(),
            a == 0 || path@[a - 1] == 47,
            forall|a2: int| 0 <= a2 < a && (a2 == 0 || path@[a2 - 1] == 47)
                ==> path@.subrange(a2, spec_comp_end(path@, a2)) != name@,
        decreases n + 1 - a,
    {
        // find the end of the component starting at a
        let mut b: usize = a;
        while b < n && path[b] != 47
            invariant
                a <= b <= n,
                n == path@.len(),
                forall|j: int| a <= j < b ==> path@[j] != 47,
            decreases n - b,
        {
            b = b + 1;
        }
        proof {
            lemma_comp_end_unique(path@, a as int, b as int);
        }
        if crate::db::compare_bytes(vstd::slice::slice_subrange(path, a, b), name) {
            proof {
                assert(path@.subrange(a as int, b as int) == name@);
                assert(spec_has_component(path@, name@));
            }
            return true;
        }
        if b == n {
            proof {
                assert forall|a2: int, b2: int|
                    #![trigger path@.subrange(a2, b2)]
                    0 <= a2 <= b2 <= n && (a2 == 0 || path@[a2 - 1] == 47) && (b2 == n
                        || path@[b2] == 47) && (forall|j: int| a2 <= j < b2 ==> path@[j] != 47)
                        && path@.subrange(a2, b2) == name@ implies false by {
                    lemma_comp_end_unique(path@, a2, b2);
                    if a2 < a as int {
                        assert(path@.subrange(a2, spec_comp_end(path@, a2)) != name@);
                    } else if a2 == a as int {
                        assert(path@.subrange(a2, b2) == path@.subrange(a as int, b as int));
                    } else {
                        assert(path@[a2 - 1] == 47);
                        assert(a as int <= a2 - 1 < b as int);
                    }
                }
                assert(!spec_has_component(path@, name@));
            }
            return false;
        }
        proof {
            assert forall|a2: int| 0 <= a2 < b + 1 && (a2 == 0 || path@[a2 - 1] == 47)
                implies path@.subrange(a2, spec_comp_end(path@, a2)) != name@ by {
                if a2 < a as int {
                } else if a2 == a as int {
                    assert(spec_comp_end(path@, a2) == b as int);
                } else {
                    assert(path@[a2 - 1] == 47);
                    assert(a as int <= a2 - 1 < b as int);
                }
            }
        }
        a = b + 1;
    }
    proof {
        assert(false);
    }
    false
}

/// Does `path` lie under one of the always-ignored directories?
pub fn in_ignored_directory(path: &[u8]) -> (r: bool)
    ensures
        r == spec_in_ignored_directory(path@),
{
    let names = ignored_directories();
    let mut k: usize = 0;
    while k < names.len()
        invariant
            k <= names@.len(),
            names@.len() == spec_ignored_directories().len(),
            forall|j: int| 0 <= j < names@.len()
                ==> (#[trigger] names@[j])@ == spec_ignored_directories()[j],
            forall|j: int| 0 <= j < k
                ==> !spec_has_component(path@, #[trigger] spec_ignored_directories()[j]),
        decreases names@.len() - k,
    {
        if has_component(path, names[k].as_slice()) {
            proof {
                assert(spec_has_component(path@, spec_ignored_directories()[k as int]));
            }
            return true;
        }
        k = k + 1;
    }
    false
}

/// Should a watcher event reach the debouncer?
///
/// Yes exactly when it is a create, modify or remove, the ignore rules do
/// not match it (`ignored_by_matcher` is the opaque matcher's verdict),
/// it lies under no always-ignored directory, and its extension names a
/// recognized language.
pub fn should_process_event(kind: FsEventKind, path: &[u8], ignored_by_matcher: bool) -> (r: bool)
    ensures
        r == (matches!(kind, FsEventKind::Create | FsEventKind::Modify | FsEventKind::Remove)
            && !ignored_by_matcher && !spec_in_ignored_directory(path@)
            && spec_valid_extension(spec_default_extensions(), path@)),
{
    let kind_ok = match kind {
        FsEventKind::Create => true,
        FsEventKind::Modify => true,
        FsEventKind::Remove => true,
        FsEventKind::Other => false,
    };
    if !kind_ok || ignored_by_matcher {
        return false;
    }
    if in_ignored_directory(path) {
        return false;
    }
    let indexer = Indexer::new();
    indexer.is_valid_extension(path)
}

// ---------------------------------------------------------------------------
// The debouncer
// ---------------------------------------------------------------------------

/// Coalesces change events into batches, released after a quiet period.
pub struct Debouncer {
    pub debounce_ms: u64,
    pub pending: Vec<Vec<u8>>,
    pub last_event_ms: u64,
}

impl Debouncer {
    /// The pending paths hold no duplicates.
    pub open spec fn wf(self) -> bool {
        forall|i: int, j: int| 0 <= i < j < self.pending@.len()
            ==> (#[trigger] self.pending@[i])@ != (#[trigger] self.pending@[j])@
    }

    /// Is `path` pending?
    pub open spec fn spec_pending(self, path: Seq<u8>) -> bool {
        exists|i: int| 0 <= i < self.pending@.len() && (#[trigger] self.pending@[i])@ == path
    }

    /// A debouncer with the given quiet period and nothing pending.
    pub fn new(debounce_ms: u64) -> (r: Debouncer)
        ensures
            r.wf(),
            r.debounce_ms == debounce_ms,
            r.pending@.len() == 0,
            r.last_event_ms == 0,
    {
        Debouncer { debounce_ms, pending: Vec::new(), last_event_ms: 0 }
    }

    /// Record a qualifying event: the path joins the pending set (once),
    /// and the quiet period restarts at `now_ms`.
    pub fn record_event(&mut self, path: Vec<u8>, now_ms: u64)
        requires
            old(self).wf(),
        ensures
            final(self).wf(),
            final(self).debounce_ms == old(self).debounce_ms,
            final(self).last_event_ms == now_ms,
            final(self).spec_pending(path@),
            forall|q: Seq<u8>| q != path@
                ==> #[trigger] final(self).spec_pending(q) == old(self).spec_pending(q),
    {
        let ghost pre = *self;
        let mut found = false;
        let mut i: usize = 0;
        while i < self.pending.len()
            invariant
                *self == pre,
                i <= self.pending@.len(),
                found <==> exists|j: int| 0 <= j < i && (#[trigger] self.pending@[j])@ == path@,
            decreases self.pending@.len() - i,
        {
            if compare_bytes(self.pending[i].as_slice(), path.as_slice()) {
                found = true;
                proof {
                    assert((self.pending@[i as int])@ == path@);
                }
            }
            i = i + 1;
        }
        if !found {
            self.pending.push(path);
        }
        self.last_event_ms = now_ms;
        proof {
            let n = pre.pending@.len();
            if found {
                assert(self.pending@ == pre.pending@);
                assert(self.spec_pending(path@));
                assert forall|q: Seq<u8>| q != path@ implies #[trigger] self.spec_pending(q)
                    == pre.spec_pending(q) by {
                    if self.spec_pending(q) {
                        let j = choose|j: int| 0 <= j < self.pending@.len()
                            && (#[trigger] self.pending@[j])@ == q;
                        assert(pre.pending@[j] == self.pending@[j]);
                    }
                    if pre.spec_pending(q) {
                        let j = choose|j: int| 0 <= j < pre.pending@.len()
                            && (#[trigger] pre.pending@[j])@ == q;
                        assert(self.pending@[j] == pre.pending@[j]);
                    }
                }
            } else {
                assert(self.pending@[n as int] == path);
                assert(self.spec_pending(path@));
                assert forall|q: Seq<u8>| q != path@ implies #[trigger] self.spec_pending(q)
                    == pre.spec_pending(q) by {
                    if self.spec_pending(q) {
                        let j = choose|j: int| 0 <= j < self.pending@.len()
                            && (#[trigger] self.pending@[j])@ == q;
                        assert(j != n);
                        assert(pre.pending@[j] == self.pending@[j]);
                    }
                    if pre.spec_pending(q) {
                        let j = choose|j: int| 0 <= j < pre.pending@.len()
                            && (#[trigger] pre.pending@[j])@ == q;
                        assert(self.pending@[j] == pre.pending@[j]);
                    }
                }
                assert forall|a: int, b: int| 0 <= a < b < self.pending@.len() implies (
                #[trigger] self.pending@[a])@ != (#[trigger] self.pending@[b])@ by {
                    if b < n {
                        assert(self.pending@[a] == pre.pending@[a]);
                        assert(self.pending@[b] == pre.pending@[b]);
                    } else {
                        assert(self.pending@[a] == pre.pending@[a]);
                        assert((self.pending@[b])@ == path@);
                        assert(!(exists|j: int| 0 <= j < n
                            && (#[trigger] pre.pending@[j])@ == path@));
                    }
                }
            }
        }
    }

    /// Release the pending batch if a full quiet period has passed since
    /// the last event and something is pending; otherwise nothing changes.
    pub fn poll(&mut self, now_ms: u64) -> (batch: Option<Vec<Vec<u8>>>)
        requires
            old(self).wf(),
            now_ms >= old(self).last_event_ms,
        ensures
            final(self).wf(),
            final(self).debounce_ms == old(self).debounce_ms,
            final(self).last_event_ms == old(self).last_event_ms,
            if old(self).pending@.len() > 0 && now_ms - old(self).last_event_ms
                >= old(self).debounce_ms {
                batch matches Some(b) && b@ == old(self).pending@
                    && final(self).pending@.len() == 0
            } else {
                batch is None && final(self).pending@ == old(self).pending@
            },
    {
        if self.pending.len() > 0 && now_ms - self.last_event_ms >= self.debounce_ms {
            let mut batch: Vec<Vec<u8>> = Vec::new();
            core::mem::swap(&mut batch, &mut self.pending);
            Some(batch)
        } else {
            None
        }
    }
}

/// Watches the files of a git working tree.  The watcher's handle and its
/// callbacks live at the system edge; this carries the watched root.
pub struct GitFileWatcher {
    pub watch_path: Vec<u8>,
}

impl GitFileWatcher {
    /// A watcher rooted at the repository's working directory.
    pub fn new(watch_path: Vec<u8>) -> (r: GitFileWatcher)
        ensures
            r.watch_path@ == watch_path@,
    {
        GitFileWatcher { watch_path }
    }
}

} // verus!
