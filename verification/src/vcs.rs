//! Interpretation of the three version-control queries.
//!
//! The queries themselves are subprocess invocations and live outside the
//! library; they hand in the exit status and the captured standard output.
//! The library decides what each answer means: a successful query yields its
//! trimmed standard output, a failing root query means the directory is not
//! inside a version-controlled tree, and a failing remote or branch query
//! yields no value rather than an error.

use vstd::prelude::*;

verus! {

/// Why a run aborts. Every fatal condition carries its own kind, so that a
/// caller can tell a missing remote from a missing branch or a file that
/// does not lie under the repository root.
#[derive(Clone, Copy, Debug, PartialEq, Eq, Structural)]
pub enum RunError {
    /// The repository-root query failed: the directory is not inside a
    /// version-controlled tree.
    NotARepository,
    /// No remote origin URL is configured.
    NoRemote,
    /// The current branch could not be resolved.
    NoBranch,
    /// A selected file does not lie under the repository root.
    FileOutsideRoot,
}

/// ASCII whitespace, as trimmed from the queries' standard output.
pub open spec fn is_space(b: u8) -> bool {
    b == 9 || b == 10 || b == 11 || b == 12 || b == 13 || b == 32
}

/// `s` without its leading ASCII whitespace.
pub open spec fn trim_front(s: Seq<u8>) -> Seq<u8>
    decreases s.len(),
{
    if s.len() > 0 && is_space(s[0]) {
        trim_front(s.skip(1))
    } else {
        s
    }
}

/// `s` without its trailing ASCII whitespace.
pub open spec fn trim_back(s: Seq<u8>) -> Seq<u8>
    decreases s.len(),
{
    if s.len() > 0 && is_space(s.last()) {
        trim_back(s.drop_last())
    } else {
        s
    }
}

/// `s` without its surrounding ASCII whitespace.
pub open spec fn trimmed(s: Seq<u8>) -> Seq<u8> {
    trim_back(trim_front(s))
}

/// Whether the byte is ASCII whitespace.
fn byte_is_space(b: u8) -> (r: bool)
    ensures
        r == is_space(b),
{
    b == 9 || b == 10 || b == 11 || b == 12 || b == 13 || b == 32
}

/// Removes the surrounding ASCII whitespace of `s`.
pub fn trim_ascii(s: &Vec<u8>) -> (r: Vec<u8>)
    ensures
        r@ == trimmed(s@),
{
    let n = s.len();
    let mut lo: usize = 0;
    proof {
        assert(s@.skip(0) =~= s@);
    }
    while lo < n && byte_is_space(s[lo])
        invariant
            n == s@.len(),
            0 <= lo <= n,
            trim_front(s@.skip(lo as int)) == trim_front(s@),
        decreases n - lo,
    {
        proof {
            assert(s@.skip(lo as int).skip(1) =~= s@.skip(lo + 1));
        }
        lo += 1;
    }
    let ghost t = s@.skip(lo as int);
    proof {
        assert(trim_front(s@) == t);
    }
    let mut hi: usize = n;
    proof {
        assert(t.take(n - lo) =~= t);
    }
    while hi > lo && byte_is_space(s[hi - 1])
        invariant
            n == s@.len(),
            lo <= hi <= n,
            t == s@.skip(lo as int),
            trim_back(t.take(hi - lo)) == trim_back(t),
        decreases hi,
    {
        proof {
            let cur = t.take(hi - lo);
            assert(cur.last() == s@[hi - 1]);
            assert(cur.drop_last() =~= t.take(hi - lo - 1));
        }
        hi -= 1;
    }
    proof {
        let cur = t.take(hi - lo);
        if hi > lo {
            assert(cur.last() == s@[hi - 1]);
            assert(!is_space(cur.last()));
        }
        assert(trim_back(cur) == cur);
        assert(cur =~= s@.subrange(lo as int, hi as int));
    }
    crate::text::sub_bytes(s, lo, hi)
}

/// Interprets the repository-root query: a successful exit yields the
/// trimmed standard output as the root path; a failing exit means the
/// directory is not inside a version-controlled tree and is fatal.
pub fn interpret_root_query(success: bool, stdout: &Vec<u8>) -> (r: Result<Vec<u8>, RunError>)
    ensures
        success ==> (r matches Ok(root) && root@ == trimmed(stdout@)),
        !success ==> r == Err::<Vec<u8>, RunError>(RunError::NotARepository),
{
    if success {
        Ok(trim_ascii(stdout))
    } else {
        Err(RunError::NotARepository)
    }
}

/// Interprets the remote-URL and branch queries: a successful exit yields
/// the trimmed standard output; a failing exit yields no value, which is not
/// by itself an error.
pub fn interpret_optional_query(success: bool, stdout: &Vec<u8>) -> (r: Option<Vec<u8>>)
    ensures
        success ==> (r matches Some(v) && v@ == trimmed(stdout@)),
        !success ==> r is None,
{
    if success {
        Some(trim_ascii(stdout))
    } else {
        None
    }
}

} // verus!
