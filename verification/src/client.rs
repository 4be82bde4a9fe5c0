//! The client's side of the endpoint: where to look for a daemon.
//!
//! A client finds the daemon by walking up from its starting directory
//! until some ancestor holds `.ragrep/ragrep.sock`.  The walk's candidate
//! paths are computed here; checking which of them exists is filesystem
//! work and happens at the edge, which then hands the found path back.

use vstd::prelude::*;
use vstd::string::StringSliceAdditionalSpecFns;

verus! {

/// The endpoint path under the directory `dir`.
pub open spec fn spec_socket_path_under(dir: Seq<u8>) -> Seq<u8> {
    dir + "/.ragrep/ragrep.sock".spec_bytes()
}

/// The parent of `dir`: everything before its last separator.  The root
/// (no separator) has no parent.
pub open spec fn spec_parent_dir(dir: Seq<u8>) -> Option<Seq<u8>> {
    if exists|i: int| 0 <= i < dir.len() && dir[i] == 47 {
        let i = choose|i: int| 0 <= i < dir.len() && dir[i] == 47 && (forall|j: int| i < j
            < dir.len() ==> dir[j] != 47);
        Some(dir.subrange(0, i))
    } else {
        None
    }
}

/// The endpoint path candidate under `dir`.
pub fn socket_path_under(dir: &[u8]) -> (r: Vec<u8>)
    ensures
        r@ == spec_socket_path_under(dir@),
{
    let mut r: Vec<u8> = vstd::slice::slice_to_vec(dir);
    r.extend_from_slice("/.ragrep/ragrep.sock".as_bytes());
    r
}

/// The parent directory of `dir`, if it has one.
pub fn parent_dir(dir: &[u8]) -> (r: Option<Vec<u8>>)
    ensures
        match r {
            Some(p) => spec_parent_dir(dir@) == Some(p@),
            None => spec_parent_dir(dir@) is None,
        },
{
    let mut i: usize = dir.len();
    while i > 0
        invariant
            i <= dir@.len(),
            forall|j: int| i <= j < dir@.len() ==> dir@[j] != 47,
        decreases i,
    {
        if dir[i - 1] == 47 {
            let cut = i - 1;
            proof {
                let c = cut as int;
                assert(dir@[c] == 47 && (forall|j: int| c < j < dir@.len() ==> dir@[j] != 47));
                let w = choose|w: int| 0 <= w < dir@.len() && dir@[w] == 47 && (forall|j: int| w
                    < j < dir@.len() ==> dir@[j] != 47);
                if w < c {
                    assert(dir@[c] != 47);
                }
                if c < w {
                    assert(dir@[w] != 47);
                }
            }
            return Some(vstd::slice::slice_to_vec(vstd::slice::slice_subrange(dir, 0, cut)));
        }
        i = i - 1;
    }
    proof {
        assert forall|i2: int| !(0 <= i2 < dir@.len() && dir@[i2] == 47) by {}
    }
    None
}

/// A client bound to one daemon endpoint.
pub struct RagrepClient {
    pub socket_path: Vec<u8>,
}

impl RagrepClient {
    /// A client for the endpoint found at `socket_path` (the discovery
    /// walk checks the candidates from [`socket_path_under`] upwards).
    pub fn new(socket_path: Vec<u8>) -> (r: RagrepClient)
        ensures
            r.socket_path@ == socket_path@,
    {
        RagrepClient { socket_path }
    }

    /// The endpoint this client talks to.
    pub fn socket_path(&self) -> (r: &Vec<u8>)
        ensures
            r@ == self.socket_path@,
    {
        &self.socket_path
    }
}

} // verus!
