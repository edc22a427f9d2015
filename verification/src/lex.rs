//! Lexicographic order on byte strings, stated through the first position at
//! which two strings stop agreeing.
use vstd::prelude::*;

verus! {

/// The first position at or after `i` where `a` and `b` differ or one of them ends.
pub open spec fn agree_from(a: Seq<u8>, b: Seq<u8>, i: int) -> int
    decreases a.len() - i,
{
    if 0 <= i < a.len() && i < b.len() && a[i] == b[i] {
        agree_from(a, b, i + 1)
    } else {
        i
    }
}

/// The length of the longest common prefix of `a` and `b`.
pub open spec fn common_len(a: Seq<u8>, b: Seq<u8>) -> int {
    agree_from(a, b, 0)
}

/// `a` and `b` agree on their first `i` bytes, and do not both go on with the same byte.
pub open spec fn splits_at(a: Seq<u8>, b: Seq<u8>, i: int) -> bool {
    &&& 0 <= i <= a.len()
    &&& i <= b.len()
    &&& forall|j: int| 0 <= j < i ==> a[j] == b[j]
    &&& (i < a.len() && i < b.len() ==> a[i] != b[i])
}

/// `a` sorts strictly before `b` in byte-lexicographic order.
pub open spec fn lex_lt(a: Seq<u8>, b: Seq<u8>) -> bool {
    let i = common_len(a, b);
    i < b.len() && (i == a.len() || a[i] < b[i])
}

/// `p` is a prefix of `s`.
pub open spec fn is_prefix(p: Seq<u8>, s: Seq<u8>) -> bool {
    p.len() <= s.len() && s.take(p.len() as int) == p
}

/// Counting on from a position up to which the strings agree ends at the
/// position at which they split.
proof fn lemma_agree_from(a: Seq<u8>, b: Seq<u8>, i: int)
    requires
        0 <= i <= a.len(),
        i <= b.len(),
        forall|j: int| 0 <= j < i ==> a[j] == b[j],
    ensures
        splits_at(a, b, agree_from(a, b, i)),
        i <= agree_from(a, b, i),
    decreases a.len() - i,
{
    if i < a.len() && i < b.len() && a[i] == b[i] {
        lemma_agree_from(a, b, i + 1);
    }
}

/// The common length is a position at which the two strings split.
pub proof fn lemma_common_len(a: Seq<u8>, b: Seq<u8>)
    ensures
        splits_at(a, b, common_len(a, b)),
{
    lemma_agree_from(a, b, 0);
}

/// There is only one position at which two strings split.
pub proof fn lemma_split_unique(a: Seq<u8>, b: Seq<u8>, i: int)
    requires
        splits_at(a, b, i),
    ensures
        i == common_len(a, b),
{
    lemma_common_len(a, b);
}

/// The order read off at a known split position.
pub proof fn lemma_lex_at_split(a: Seq<u8>, b: Seq<u8>, i: int)
    requires
        splits_at(a, b, i),
    ensures
        lex_lt(a, b) <==> i < b.len() && (i == a.len() || a[i] < b[i]),
        lex_lt(b, a) <==> i < a.len() && (i == b.len() || b[i] < a[i]),
        a == b <==> i == a.len() && i == b.len(),
{
    lemma_split_unique(a, b, i);
    lemma_split_unique(b, a, i);
    if i == a.len() && i == b.len() {
        assert(a =~= b);
    }
}

/// Of two byte strings, exactly one of these holds: the first sorts before
/// the second, they are equal, or the second sorts before the first.
pub proof fn lemma_lex_trichotomy(a: Seq<u8>, b: Seq<u8>)
    ensures
        lex_lt(a, b) || a == b || lex_lt(b, a),
        !(lex_lt(a, b) && a == b),
        !(lex_lt(b, a) && a == b),
        !(lex_lt(a, b) && lex_lt(b, a)),
{
    lemma_common_len(a, b);
    lemma_lex_at_split(a, b, common_len(a, b));
}

/// The lexicographic order is transitive.
pub proof fn lemma_lex_transitive(a: Seq<u8>, b: Seq<u8>, c: Seq<u8>)
    requires
        lex_lt(a, b),
        lex_lt(b, c),
    ensures
        lex_lt(a, c),
{
    let i = common_len(a, b);
    let j = common_len(b, c);
    lemma_common_len(a, b);
    lemma_common_len(b, c);
    if i <= j {
        assert(splits_at(a, c, i));
        lemma_lex_at_split(a, c, i);
    } else {
        assert(splits_at(a, c, j));
        lemma_lex_at_split(a, c, j);
    }
}

/// A proper prefix sorts before the string it starts.
pub proof fn lemma_lex_prefix(p: Seq<u8>, s: Seq<u8>)
    requires
        is_prefix(p, s),
    ensures
        lex_lt(p, s) <==> p.len() < s.len(),
        !lex_lt(s, p),
{
    assert forall|j: int| 0 <= j < p.len() implies p[j] == s[j] by {
        assert(s.take(p.len() as int)[j] == s[j]);
    }
    assert(splits_at(p, s, p.len() as int));
    lemma_lex_at_split(p, s, p.len() as int);
}

/// A string that sorts neither before `p` nor after a string that starts
/// with `p` starts with `p` itself.
pub proof fn lemma_lex_between(p: Seq<u8>, x: Seq<u8>, y: Seq<u8>)
    requires
        is_prefix(p, y),
        !lex_lt(x, p),
        !lex_lt(y, x),
    ensures
        is_prefix(p, x),
{
    let i = common_len(x, p);
    lemma_common_len(x, p);
    lemma_lex_at_split(x, p, i);
    assert forall|j: int| 0 <= j < p.len() implies y[j] == p[j] by {
        assert(y.take(p.len() as int)[j] == y[j]);
    }
    if i < p.len() {
        assert(splits_at(y, x, i));
        lemma_lex_at_split(y, x, i);
    } else {
        assert(x.take(p.len() as int) =~= p);
    }
}

} // verus!
