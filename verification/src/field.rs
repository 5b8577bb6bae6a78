//! Splitting an argument string into its space-separated fields.

use crate::utils::DELIMITER;
use vstd::prelude::*;

verus! {

/// Whether `w` can stand as one field: it is not empty and holds no
/// separator.
pub open spec fn is_word(w: Seq<u8>) -> bool {
    w.len() > 0 && forall|i: int| 0 <= i < w.len() ==> w[i] != DELIMITER
}

/// The length of the leading run of `s` that holds no separator.
pub open spec fn field_len(s: Seq<u8>) -> nat
    decreases s.len(),
{
    if s.len() == 0 || s[0] == DELIMITER {
        0
    } else {
        1 + field_len(s.skip(1))
    }
}

/// The non-empty fields of `s`, in order: its maximal runs of bytes other
/// than the separator.
pub open spec fn tokens(s: Seq<u8>) -> Seq<Seq<u8>>
    decreases s.len(),
{
    if s.len() == 0 {
        Seq::empty()
    } else if s[0] == DELIMITER {
        tokens(s.skip(1))
    } else if field_len(s) <= s.len() {
        seq![s.take(field_len(s) as int)] + tokens(s.skip(field_len(s) as int))
    } else {
        // Not reached: a field is never longer than what holds it. The test
        // shows that the rest is shorter, so that the definition ends.
        Seq::empty()
    }
}

/// The first non-empty field of `s`, if it has one.
pub open spec fn first_token(s: Seq<u8>) -> Option<Seq<u8>> {
    if tokens(s).len() > 0 {
        Some(tokens(s)[0])
    } else {
        None
    }
}

/// `field_len` is the position of the first separator, or the length where
/// there is none.
pub proof fn lemma_field_len(s: Seq<u8>)
    ensures
        field_len(s) <= s.len(),
        forall|i: int| 0 <= i < field_len(s) ==> s[i] != DELIMITER,
        field_len(s) < s.len() ==> s[field_len(s) as int] == DELIMITER,
    decreases s.len(),
{
    if s.len() == 0 || s[0] == DELIMITER {
    } else {
        let t = s.skip(1);
        lemma_field_len(t);
        assert forall|i: int| 0 <= i < field_len(s) implies s[i] != DELIMITER by {
            if i > 0 {
                assert(t[i - 1] == s[i]);
            }
        }
        if field_len(s) < s.len() {
            assert(t[field_len(t) as int] == s[field_len(s) as int]);
        }
    }
}

/// A position with the properties of `field_len` is `field_len`.
pub proof fn lemma_field_len_is(s: Seq<u8>, n: int)
    requires
        0 <= n <= s.len(),
        forall|i: int| 0 <= i < n ==> s[i] != DELIMITER,
        n < s.len() ==> s[n] == DELIMITER,
    ensures
        field_len(s) == n,
{
    lemma_field_len(s);
    let m = field_len(s) as int;
    if m < n {
        assert(s[m] == DELIMITER);
    } else if n < m {
        assert(s[n] != DELIMITER);
    }
}

/// Every token is a word.
pub proof fn lemma_tokens_plain(s: Seq<u8>)
    ensures
        forall|k: int| 0 <= k < tokens(s).len() ==> is_word(#[trigger] tokens(s)[k]),
    decreases s.len(),
{
    if s.len() == 0 {
        assert(tokens(s).len() == 0);
    } else if s[0] == DELIMITER {
        lemma_tokens_plain(s.skip(1));
        assert(tokens(s) == tokens(s.skip(1)));
    } else {
        lemma_field_len(s);
        let n = field_len(s) as int;
        lemma_tokens_plain(s.skip(n));
        assert(tokens(s) == seq![s.take(n)] + tokens(s.skip(n)));
        assert(is_word(s.take(n)));
        assert forall|k: int| 0 <= k < tokens(s).len() implies is_word(#[trigger] tokens(s)[k]) by {
            if k > 0 {
                assert(tokens(s)[k] == tokens(s.skip(n))[k - 1]);
            }
        }
    }
}

/// The position of the first separator of `s` at or after `from`, or the
/// length of `s` where there is none.
pub fn find_delimiter(s: &[u8], from: usize) -> (r: usize)
    requires
        from <= s.len(),
    ensures
        from <= r <= s.len(),
        r - from == field_len(s@.skip(from as int)),
        forall|i: int| from <= i < r ==> s@[i] != DELIMITER,
        r < s.len() ==> s@[r as int] == DELIMITER,
{
    let mut r: usize = from;
    while r < s.len() && s[r] != DELIMITER
        invariant
            from <= r <= s.len(),
            forall|i: int| from <= i < r ==> s@[i] != DELIMITER,
        decreases s.len() - r,
    {
        r += 1;
    }
    proof {
        lemma_field_len_is(s@.skip(from as int), r - from);
    }
    r
}

/// Skipping separators does not change the tokens that follow.
proof fn lemma_tokens_skip_delimiters(s: Seq<u8>, from: int, to: int)
    requires
        0 <= from <= to <= s.len(),
        forall|i: int| from <= i < to ==> s[i] == DELIMITER,
    ensures
        tokens(s.skip(from)) == tokens(s.skip(to)),
    decreases to - from,
{
    if from < to {
        assert(s.skip(from)[0] == s[from]);
        assert(s.skip(from).skip(1) =~= s.skip(from + 1));
        lemma_tokens_skip_delimiters(s, from + 1, to);
    }
}

/// The bounds of the first non-empty field of `s` at or after `pos`, or
/// `None` when only separators are left.
pub fn next_token(s: &[u8], pos: usize) -> (r: Option<(usize, usize)>)
    requires
        pos <= s.len(),
    ensures
        match r {
            None => tokens(s@.skip(pos as int)).len() == 0,
            Some((a, b)) => pos <= a < b <= s.len() && tokens(s@.skip(pos as int)) == seq![
                s@.subrange(a as int, b as int),
            ] + tokens(s@.skip(b as int)),
        },
{
    let mut a: usize = pos;
    while a < s.len() && s[a] == DELIMITER
        invariant
            pos <= a <= s.len(),
            forall|i: int| pos <= i < a ==> s@[i] == DELIMITER,
        decreases s.len() - a,
    {
        a += 1;
    }
    proof {
        lemma_tokens_skip_delimiters(s@, pos as int, a as int);
    }
    if a == s.len() {
        return None;
    }
    let b = find_delimiter(s, a);
    proof {
        let t = s@.skip(a as int);
        assert(t[0] == s@[a as int]);
        assert(t.take(b - a) =~= s@.subrange(a as int, b as int));
        assert(t.skip(b - a) =~= s@.skip(b as int));
    }
    Some((a, b))
}

/// A copy of the bytes of `s` from `from` up to `to`.
pub fn copy_range(s: &[u8], from: usize, to: usize) -> (r: Vec<u8>)
    requires
        from <= to <= s.len(),
    ensures
        r@ == s@.subrange(from as int, to as int),
{
    let mut r: Vec<u8> = Vec::new();
    let mut i: usize = from;
    while i < to
        invariant
            from <= i <= to <= s.len(),
            r@ == s@.subrange(from as int, i as int),
        decreases to - i,
    {
        r.push(s[i]);
        proof {
            assert(s@.subrange(from as int, i as int).push(s@[i as int]) =~= s@.subrange(
                from as int,
                i + 1,
            ));
        }
        i += 1;
    }
    r
}

/// Whether the bytes of `s` from `from` up to `to` are exactly `t`.
pub fn range_eq(s: &[u8], from: usize, to: usize, t: &[u8]) -> (r: bool)
    requires
        from <= to <= s.len(),
    ensures
        r == (s@.subrange(from as int, to as int) == t@),
{
    if to - from != t.len() {
        return false;
    }
    let mut i: usize = 0;
    while i < t.len()
        invariant
            from <= to <= s.len(),
            to - from == t.len(),
            i <= t.len(),
            forall|k: int| 0 <= k < i ==> s@[from + k] == t@[k],
        decreases t.len() - i,
    {
        if s[from + i] != t[i] {
            proof {
                assert(s@.subrange(from as int, to as int)[i as int] == s@[from + i]);
            }
            return false;
        }
        i += 1;
    }
    proof {
        assert(s@.subrange(from as int, to as int) =~= t@);
    }
    true
}

} // verus!
