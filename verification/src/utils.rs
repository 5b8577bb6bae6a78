//! Byte-level helpers shared by the protocol modules.

use vstd::prelude::*;

verus! {

/// The byte that separates the fields of a line.
pub const DELIMITER: u8 = 0x20;

/// Whether `b` is the field separator.
pub fn is_delimiter(b: &u8) -> (r: bool)
    ensures
        r == (*b == DELIMITER),
{
    *b == DELIMITER
}

/// The number of leading positions at which `a` and `b` hold the same byte.
pub open spec fn common_prefix_len(a: Seq<u8>, b: Seq<u8>) -> nat
    decreases a.len(),
{
    if a.len() == 0 || b.len() == 0 || a[0] != b[0] {
        0
    } else {
        1 + common_prefix_len(a.skip(1), b.skip(1))
    }
}

/// Whether `a` is a leading part of `b`.
pub open spec fn is_prefix_of(a: Seq<u8>, b: Seq<u8>) -> bool {
    a.len() <= b.len() && b.take(a.len() as int) == a
}

/// The common prefix of `a[k..]` and `b[k..]` continues the one counted so far.
proof fn lemma_common_prefix_from(a: Seq<u8>, b: Seq<u8>, k: int)
    requires
        0 <= k <= a.len(),
        k <= b.len(),
        forall|i: int| 0 <= i < k ==> a[i] == b[i],
    ensures
        common_prefix_len(a, b) == k + common_prefix_len(a.skip(k), b.skip(k)),
    decreases k,
{
    if k == 0 {
        assert(a.skip(0) =~= a);
        assert(b.skip(0) =~= b);
    } else {
        lemma_common_prefix_from(a.skip(1), b.skip(1), k - 1);
        assert(a.skip(1).skip(k - 1) =~= a.skip(k));
        assert(b.skip(1).skip(k - 1) =~= b.skip(k));
    }
}

/// The common prefix is never longer than either sequence, and the two agree on it.
pub proof fn lemma_common_prefix_bounds(a: Seq<u8>, b: Seq<u8>)
    ensures
        common_prefix_len(a, b) <= a.len(),
        common_prefix_len(a, b) <= b.len(),
        forall|i: int| 0 <= i < common_prefix_len(a, b) ==> a[i] == b[i],
        common_prefix_len(a, b) < a.len() && common_prefix_len(a, b) < b.len() ==> a[common_prefix_len(
            a,
            b,
        ) as int] != b[common_prefix_len(a, b) as int],
    decreases a.len(),
{
    if a.len() == 0 || b.len() == 0 || a[0] != b[0] {
    } else {
        lemma_common_prefix_bounds(a.skip(1), b.skip(1));
        let n = common_prefix_len(a.skip(1), b.skip(1));
        assert forall|i: int| 0 <= i < common_prefix_len(a, b) implies a[i] == b[i] by {
            if i > 0 {
                assert(a.skip(1)[i - 1] == a[i]);
                assert(b.skip(1)[i - 1] == b[i]);
            }
        }
        if n < a.len() - 1 && n < b.len() - 1 {
            assert(a.skip(1)[n as int] == a[n as int + 1]);
            assert(b.skip(1)[n as int] == b[n as int + 1]);
        }
    }
}

/// `a` is a leading part of `b` exactly when their common prefix is all of `a`.
pub proof fn lemma_prefix_iff_common(a: Seq<u8>, b: Seq<u8>)
    ensures
        is_prefix_of(a, b) <==> common_prefix_len(a, b) == a.len(),
{
    lemma_common_prefix_bounds(a, b);
    if is_prefix_of(a, b) {
        assert forall|i: int| 0 <= i < a.len() implies a[i] == b[i] by {
            assert(b.take(a.len() as int)[i] == b[i]);
        }
        let n = common_prefix_len(a, b);
        if n < a.len() {
            assert(a[n as int] == b[n as int]);
        }
    }
    if common_prefix_len(a, b) == a.len() {
        assert(b.take(a.len() as int) =~= a);
    }
}

/// The position of the last byte of the common prefix of `a` and `b`, or
/// `None` when they share no first byte.
pub fn compare(a: &[u8], b: &[u8]) -> (r: Option<usize>)
    ensures
        common_prefix_len(a@, b@) == 0 ==> r.is_none(),
        common_prefix_len(a@, b@) > 0 ==> r == Some((common_prefix_len(a@, b@) - 1) as usize),
{
    proof {
        lemma_common_prefix_bounds(a@, b@);
    }
    if a.len() == 0 || b.len() == 0 {
        return None;
    }
    if a[0] != b[0] {
        return None;
    }
    let mut index: usize = 0;
    while index + 1 < a.len() && index + 1 < b.len() && a[index + 1] == b[index + 1]
        invariant
            index < a.len(),
            index < b.len(),
            forall|i: int| 0 <= i <= index ==> a@[i] == b@[i],
        decreases a.len() - index,
    {
        index += 1;
    }
    proof {
        let k = index + 1;
        lemma_common_prefix_from(a@, b@, k);
        if k < a.len() && k < b.len() {
            assert(a@.skip(k)[0] == a@[k]);
            assert(b@.skip(k)[0] == b@[k]);
        }
    }
    Some(index)
}

} // verus!
