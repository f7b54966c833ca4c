//! Byte-level scanning helpers shared by the wire formats.
use vstd::prelude::*;

verus! {

/// The bytes of `lit` stand in `b` at position `i`.
pub open spec fn starts_with(b: Seq<u8>, i: int, lit: Seq<u8>) -> bool {
    0 <= i && i + lit.len() <= b.len() && b.subrange(i, i + lit.len()) == lit
}

/// Whether `lit` stands in `b` at position `i`.
pub fn starts_with_exec(b: &Vec<u8>, i: usize, lit: &[u8]) -> (r: bool)
    ensures
        r == starts_with(b@, i as int, lit@),
{
    let n = b.len();
    let ll = lit.len();
    if i > n || ll > n - i {
        return false;
    }
    let mut k: usize = 0;
    while k < ll
        invariant
            n == b@.len(),
            i + ll <= n,
            ll == lit@.len(),
            k <= ll,
            forall|t: int| 0 <= t < k ==> b@[i + t] == lit@[t],
        decreases ll - k,
    {
        if b[i + k] != lit[k] {
            proof {
                assert(b@.subrange(i as int, i as int + ll) != lit@) by {
                    assert(b@.subrange(i as int, i as int + ll)[k as int] == b@[i + k]);
                }
            }
            return false;
        }
        k = k + 1;
    }
    proof {
        assert(b@.subrange(i as int, i as int + ll) =~= lit@);
    }
    true
}

/// Whether a byte vector holds exactly the bytes of `lit`.
pub fn bytes_eq(a: &Vec<u8>, lit: &[u8]) -> (r: bool)
    ensures
        r == (a@ == lit@),
{
    let n = a.len();
    if n != lit.len() {
        return false;
    }
    let mut k: usize = 0;
    while k < n
        invariant
            n == a@.len(),
            n == lit@.len(),
            k <= n,
            forall|t: int| 0 <= t < k ==> a@[t] == lit@[t],
        decreases n - k,
    {
        if a[k] != lit[k] {
            return false;
        }
        k = k + 1;
    }
    proof {
        assert(a@ =~= lit@);
    }
    true
}

/// A literal standing at `i` pins the bytes there, one by one.
pub proof fn lemma_starts_with_index(b: Seq<u8>, i: int, lit: Seq<u8>)
    requires
        starts_with(b, i, lit),
    ensures
        forall|t: int| 0 <= t < lit.len() ==> b[i + t] == #[trigger] lit[t],
{
    assert(forall|t: int| 0 <= t < lit.len() ==> #[trigger] b.subrange(i, i + lit.len())[t] == b[i
        + t]);
}

/// Splitting a buffer made of a prefix and a literal: the literal stands at
/// the seam.
pub proof fn lemma_concat_starts_with(pre: Seq<u8>, lit: Seq<u8>, post: Seq<u8>, b: Seq<u8>)
    requires
        b == pre + lit + post,
    ensures
        starts_with(b, pre.len() as int, lit),
{
    assert(b.subrange(pre.len() as int, pre.len() as int + lit.len() as int) =~= lit);
}

} // verus!
