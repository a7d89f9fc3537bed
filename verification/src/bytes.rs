//! The byte-bounded prefix: at most `n` raw bytes of a source's content,
//! with exact byte semantics and no newline awareness.

use vstd::prelude::*;

verus! {

/// The byte-bounded prefix of `data`: its first `n` bytes, or all of it
/// when it is shorter than `n`.
pub open spec fn bytes_prefix(data: Seq<u8>, n: u64) -> Seq<u8> {
    if n as int <= data.len() {
        data.take(n as int)
    } else {
        data
    }
}

/// Copies at most `n` leading bytes of `data`.
pub fn head_bytes(data: &Vec<u8>, n: u64) -> (out: Vec<u8>)
    ensures
        out@ == bytes_prefix(data@, n),
{
    let mut out: Vec<u8> = Vec::new();
    let mut i: usize = 0;
    while i < data.len() && (i as u64) < n
        invariant
            0 <= i <= data.len(),
            i as u64 <= n,
            out@ == data@.take(i as int),
        decreases data.len() - i,
    {
        out.push(data[i]);
        proof {
            assert(data@.take(i + 1) =~= data@.take(i as int).push(data@[i as int]));
        }
        i = i + 1;
    }
    proof {
        if i == data.len() {
            assert(data@.take(i as int) =~= data@);
        }
    }
    out
}

/// On a source holding at least `n` bytes, the byte-bounded prefix is
/// exactly the source's first `n` bytes.
pub proof fn lemma_bytes_exact(data: Seq<u8>, n: u64)
    requires
        n <= data.len(),
    ensures
        bytes_prefix(data, n).len() == n,
        bytes_prefix(data, n) == data.take(n as int),
{
}

/// On a source shorter than `n` bytes, the byte-bounded prefix is the
/// entire source, unchanged.
pub proof fn lemma_bytes_short(data: Seq<u8>, n: u64)
    requires
        data.len() < n,
    ensures
        bytes_prefix(data, n) == data,
{
}

} // verus!
