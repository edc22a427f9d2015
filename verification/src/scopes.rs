//! Scopes, the order in which they sort, and the removal of covered scopes.
use vstd::prelude::*;
use std::cmp::Ordering;
use crate::lex::{
    lex_lt, is_prefix, splits_at, lemma_lex_trichotomy, lemma_lex_transitive, lemma_lex_prefix,
    lemma_lex_at_split,
};

verus! {

/// The byte `*`, which marks a prefix pattern when it ends a scope.
pub const WILDCARD: u8 = 42;

/// The scope ends in the wildcard byte.
pub open spec fn is_pattern(s: Seq<u8>) -> bool {
    s.len() > 0 && s.last() == WILDCARD
}

/// The scope without its trailing wildcard byte, if it has one.
pub open spec fn stem(s: Seq<u8>) -> Seq<u8> {
    if is_pattern(s) {
        s.drop_last()
    } else {
        s
    }
}

/// `a` sorts strictly before `b`: scopes go by their stems in byte order, and
/// of two scopes with one stem the pattern comes first.
pub open spec fn precedes(a: Seq<u8>, b: Seq<u8>) -> bool {
    lex_lt(stem(a), stem(b)) || (stem(a) == stem(b) && is_pattern(a) && !is_pattern(b))
}

/// The order case by case.  Two scopes that are no patterns go by byte
/// order, two patterns by the byte order of their stems.  A pattern and a
/// scope that is none go by the byte order of the stem and the scope, and
/// where these are equal the pattern comes first.
pub proof fn lemma_precedes_cases(a: Seq<u8>, b: Seq<u8>)
    ensures
        !is_pattern(a) && !is_pattern(b) ==> (precedes(a, b) <==> lex_lt(a, b)),
        is_pattern(a) && is_pattern(b) ==> (precedes(a, b) <==> lex_lt(stem(a), stem(b))),
        is_pattern(a) && !is_pattern(b) ==> (precedes(a, b) <==> stem(a) == b || lex_lt(
            stem(a),
            b,
        )),
        !is_pattern(a) && is_pattern(b) ==> (precedes(a, b) <==> a != stem(b) && lex_lt(
            a,
            stem(b),
        )),
{
    lemma_lex_trichotomy(stem(a), stem(b));
}

/// A scope is determined by its stem and by whether it is a pattern.
pub proof fn lemma_stem_determines(a: Seq<u8>, b: Seq<u8>)
    requires
        stem(a) == stem(b),
        is_pattern(a) == is_pattern(b),
    ensures
        a == b,
{
    if is_pattern(a) {
        assert(a =~= stem(a).push(WILDCARD));
        assert(b =~= stem(b).push(WILDCARD));
    }
}

/// The order on scopes is a strict total order: no scope precedes itself, no
/// two scopes precede each other, precedence is transitive, and of two
/// different scopes one precedes the other.
pub proof fn lemma_precedes_strict_total(a: Seq<u8>, b: Seq<u8>, c: Seq<u8>)
    ensures
        !precedes(a, a),
        precedes(a, b) ==> !precedes(b, a),
        precedes(a, b) && precedes(b, c) ==> precedes(a, c),
        a != b ==> precedes(a, b) || precedes(b, a),
{
    lemma_lex_trichotomy(stem(a), stem(a));
    lemma_lex_trichotomy(stem(a), stem(b));
    lemma_lex_trichotomy(stem(b), stem(c));
    lemma_lex_trichotomy(stem(a), stem(c));
    if precedes(a, b) && precedes(b, c) {
        if lex_lt(stem(a), stem(b)) && lex_lt(stem(b), stem(c)) {
            lemma_lex_transitive(stem(a), stem(b), stem(c));
        }
    }
    if a != b && stem(a) == stem(b) && is_pattern(a) == is_pattern(b) {
        lemma_stem_determines(a, b);
    }
}

/// For a scope `p` that is no pattern, the pattern `p*` sorts before `p`,
/// and `p` sorts before `p` followed by any one byte but the wildcard.
pub proof fn lemma_wildcard_before_literal(p: Seq<u8>, extra: u8)
    requires
        !is_pattern(p),
        extra != WILDCARD,
    ensures
        precedes(p.push(WILDCARD), p),
        precedes(p, p.push(extra)),
{
    assert(p.push(WILDCARD).drop_last() =~= p);
    assert(p.push(extra).take(p.len() as int) =~= p);
    lemma_lex_prefix(p, p.push(extra));
}

/// How `a` stands to `b` in the order on scopes.
pub open spec fn ordering_of(a: Seq<u8>, b: Seq<u8>) -> Ordering {
    if precedes(a, b) {
        Ordering::Less
    } else if a == b {
        Ordering::Equal
    } else {
        Ordering::Greater
    }
}

/// A kept scope makes `s` redundant: `s` repeats it, or it is a pattern and
/// `s` starts with its stem.
pub open spec fn covers(kept: Seq<u8>, s: Seq<u8>) -> bool {
    s == kept || (is_pattern(kept) && is_prefix(stem(kept), s))
}

/// A scope: a string of bytes.  A scope that ends in `*` is a prefix pattern.
#[derive(Debug)]
pub struct Scope(Vec<u8>);

/// How one stem stands to another in byte order.
enum Side {
    Before,
    Same,
    After,
}

impl View for Scope {
    type V = Seq<u8>;

    closed spec fn view(&self) -> Seq<u8> {
        self.0@
    }
}

impl DeepView for Scope {
    type V = Seq<u8>;

    open spec fn deep_view(&self) -> Seq<u8> {
        self@
    }
}

impl Clone for Scope {
    fn clone(&self) -> (r: Scope)
        ensures
            r@ == self@,
    {
        Scope(self.0.clone())
    }
}

impl PartialEq for Scope {
    fn eq(&self, other: &Scope) -> (r: bool) {
        self.same_bytes(other)
    }
}

impl vstd::std_specs::cmp::PartialEqSpecImpl for Scope {
    open spec fn obeys_eq_spec() -> bool {
        true
    }

    open spec fn eq_spec(&self, other: &Scope) -> bool {
        self@ == other@
    }
}

impl Eq for Scope {

}

impl PartialOrd for Scope {
    fn partial_cmp(&self, other: &Scope) -> (r: Option<Ordering>) {
        Some(self.cmp(other))
    }
}

impl vstd::std_specs::cmp::PartialOrdSpecImpl for Scope {
    open spec fn obeys_partial_cmp_spec() -> bool {
        true
    }

    open spec fn partial_cmp_spec(&self, other: &Scope) -> Option<Ordering> {
        Some(ordering_of(self@, other@))
    }
}

impl From<Vec<u8>> for Scope {
    fn from(vec: Vec<u8>) -> (r: Scope) {
        Scope(vec)
    }
}

impl vstd::std_specs::convert::FromSpecImpl<Vec<u8>> for Scope {
    open spec fn obeys_from_spec() -> bool {
        true
    }

    closed spec fn from_spec(vec: Vec<u8>) -> Scope {
        Scope(vec)
    }
}

/// The scope that `From` makes of a list of bytes holds those bytes.
pub proof fn lemma_from_bytes(vec: Vec<u8>)
    ensures
        <Scope as vstd::std_specs::convert::FromSpec<Vec<u8>>>::from_spec(vec)@ == vec@,
{
}

/// The position at which the first `alen` bytes of `a` and the first `blen`
/// bytes of `b` split.
fn split_point(a: &Vec<u8>, alen: usize, b: &Vec<u8>, blen: usize) -> (i: usize)
    requires
        alen <= a.len(),
        blen <= b.len(),
    ensures
        splits_at(a@.take(alen as int), b@.take(blen as int), i as int),
{
    let mut i: usize = 0;
    while i < alen && i < blen && a[i] == b[i]
        invariant
            i <= alen <= a.len(),
            i <= blen <= b.len(),
            forall|j: int| 0 <= j < i ==> a@[j] == b@[j],
        decreases alen - i,
    {
        i += 1;
    }
    i
}

impl Scope {
    /// The scope that holds the given bytes.
    pub fn new(value: Vec<u8>) -> (r: Scope)
        ensures
            r@ == value@,
    {
        Scope(value)
    }

    /// The number of bytes in the scope.
    pub fn len(&self) -> (n: usize)
        ensures
            n == self@.len(),
    {
        self.0.len()
    }

    /// The byte at position `i`.
    pub fn byte(&self, i: usize) -> (b: u8)
        requires
            i < self@.len(),
        ensures
            b == self@[i as int],
    {
        self.0[i]
    }

    /// The bytes of the scope.
    pub fn as_bytes(&self) -> (bytes: &Vec<u8>)
        ensures
            bytes@ == self@,
    {
        &self.0
    }

    /// Whether the scope is a prefix pattern.
    pub fn is_pattern(&self) -> (r: bool)
        ensures
            r == is_pattern(self@),
    {
        let n = self.0.len();
        n > 0 && self.0[n - 1] == WILDCARD
    }

    /// The length of the scope's stem.
    pub fn stem_len(&self) -> (n: usize)
        ensures
            n == stem(self@).len(),
            self@.take(n as int) == stem(self@),
    {
        let n = self.0.len();
        if n > 0 && self.0[n - 1] == WILDCARD {
            assert(self@.take(n - 1) =~= self@.drop_last());
            n - 1
        } else {
            assert(self@.take(n as int) =~= self@);
            n
        }
    }

    fn same_bytes(&self, other: &Scope) -> (r: bool)
        ensures
            r == (self@ == other@),
    {
        let n = self.0.len();
        if n != other.0.len() {
            return false;
        }
        let i = split_point(&self.0, n, &other.0, n);
        proof {
            assert(self@.take(n as int) =~= self@);
            assert(other@.take(n as int) =~= other@);
            lemma_lex_at_split(self@, other@, i as int);
        }
        i == n
    }

    fn stems_side(&self, other: &Scope) -> (r: Side)
        ensures
            match r {
                Side::Before => lex_lt(stem(self@), stem(other@)),
                Side::Same => stem(self@) == stem(other@),
                Side::After => lex_lt(stem(other@), stem(self@)),
            },
    {
        let alen = self.stem_len();
        let blen = other.stem_len();
        let i = split_point(&self.0, alen, &other.0, blen);
        proof {
            lemma_lex_at_split(stem(self@), stem(other@), i as int);
        }
        if i < alen && i < blen {
            if self.0[i] < other.0[i] {
                Side::Before
            } else {
                Side::After
            }
        } else if i < blen {
            Side::Before
        } else if i < alen {
            Side::After
        } else {
            Side::Same
        }
    }

    /// Compares two scopes in the order on scopes.
    pub fn cmp(&self, other: &Scope) -> (r: Ordering)
        ensures
            r == ordering_of(self@, other@),
    {
        let this_pattern = self.is_pattern();
        let other_pattern = other.is_pattern();
        proof {
            lemma_lex_trichotomy(stem(self@), stem(other@));
        }
        match self.stems_side(other) {
            Side::Before => Ordering::Less,
            Side::After => Ordering::Greater,
            Side::Same => {
                if this_pattern == other_pattern {
                    proof {
                        lemma_stem_determines(self@, other@);
                    }
                    Ordering::Equal
                } else if this_pattern {
                    Ordering::Less
                } else {
                    Ordering::Greater
                }
            },
        }
    }

    /// Whether `self` sorts strictly before `other`.
    pub fn precedes(&self, other: &Scope) -> (r: bool)
        ensures
            r == precedes(self@, other@),
    {
        match self.stems_side(other) {
            Side::Before => true,
            Side::After => {
                proof {
                    lemma_lex_trichotomy(stem(self@), stem(other@));
                }
                false
            },
            Side::Same => self.is_pattern() && !other.is_pattern(),
        }
    }

    /// Whether `self`, kept in a sorted list, makes `other` redundant.
    pub fn covers(&self, other: &Scope) -> (r: bool)
        ensures
            r == covers(self@, other@),
    {
        let n = self.0.len();
        let m = other.0.len();
        let k = self.stem_len();
        let same = self.same_bytes(other);
        let mut starts = false;
        if k < n && k <= m {
            let i = split_point(&self.0, k, &other.0, k);
            proof {
                lemma_lex_at_split(stem(self@), other@.take(k as int), i as int);
            }
            starts = i == k;
        }
        same || starts
    }
}

/// Removes from a sorted list of scopes those that a kept scope before them
/// covers.  A scope is dropped when it repeats the scope kept last, or when
/// the scope kept last is a pattern and the scope starts with its stem.
pub open spec fn normalized(s: Seq<Seq<u8>>) -> Seq<Seq<u8>>
    decreases s.len(),
{
    if s.len() == 0 {
        s
    } else {
        let init = normalized(s.drop_last());
        if init.len() > 0 && covers(init.last(), s.last()) {
            init
        } else {
            init.push(s.last())
        }
    }
}

/// No scope of the list is covered by the scope just before it.
pub open spec fn reduced(s: Seq<Seq<u8>>) -> bool {
    forall|i: int| 0 < i < s.len() ==> !covers(s[i - 1], #[trigger] s[i])
}

/// In a normalized list no scope is covered by the scope just before it.
pub proof fn lemma_normalized_reduced(s: Seq<Seq<u8>>)
    ensures
        reduced(normalized(s)),
    decreases s.len(),
{
    if s.len() > 0 {
        lemma_normalized_reduced(s.drop_last());
    }
}

/// Normalizing changes nothing in a list in which no scope is covered by the
/// scope just before it.
pub proof fn lemma_reduced_fixed(s: Seq<Seq<u8>>)
    requires
        reduced(s),
    ensures
        normalized(s) == s,
    decreases s.len(),
{
    if s.len() > 0 {
        let init = s.drop_last();
        assert forall|i: int| 0 < i < init.len() implies !covers(
            init[i - 1],
            #[trigger] init[i],
        ) by {
            assert(!covers(s[i - 1], s[i]));
        }
        lemma_reduced_fixed(init);
        if init.len() > 0 {
            assert(!covers(s[s.len() - 2], s[s.len() - 1]));
        }
        assert(init.push(s.last()) =~= s);
    }
}

/// Normalizing a second time changes nothing: `normalized(normalized(s))`
/// is `normalized(s)`, for every list `s`.
pub proof fn lemma_normalize_idempotent(s: Seq<Seq<u8>>)
    ensures
        normalized(normalized(s)) == normalized(s),
{
    lemma_normalized_reduced(s);
    lemma_reduced_fixed(normalized(s));
}

/// Normalizing keeps scopes of the list, no more of them than there were,
/// and every scope of the list is covered by one that is kept.
pub proof fn lemma_normalized_covers(s: Seq<Seq<u8>>)
    ensures
        normalized(s).len() <= s.len(),
        s.len() > 0 ==> normalized(s).len() > 0 && normalized(s)[0] == s[0],
        forall|i: int| 0 <= i < normalized(s).len() ==> s.contains(#[trigger] normalized(s)[i]),
        forall|i: int|
            0 <= i < s.len() ==> exists|j: int|
                0 <= j < normalized(s).len() && covers(normalized(s)[j], #[trigger] s[i]),
    decreases s.len(),
{
    if s.len() > 0 {
        let init = s.drop_last();
        let kept = normalized(init);
        let out = normalized(s);
        lemma_normalized_covers(init);
        assert forall|i: int| 0 <= i < out.len() implies s.contains(#[trigger] out[i]) by {
            if i < kept.len() {
                let t = choose|t: int| 0 <= t < init.len() && init[t] == kept[i];
                assert(s[t] == out[i]);
            } else {
                assert(s[s.len() - 1] == out[i]);
            }
        }
        assert forall|i: int| 0 <= i < s.len() implies exists|j: int|
            0 <= j < out.len() && covers(out[j], #[trigger] s[i]) by {
            if i < init.len() {
                assert(init[i] == s[i]);
                let j = choose|j: int| 0 <= j < kept.len() && covers(kept[j], init[i]);
                assert(covers(out[j], s[i]));
            } else if kept.len() > 0 && covers(kept.last(), s.last()) {
                assert(covers(out[kept.len() - 1], s[i]));
            } else {
                assert(covers(out[out.len() - 1], s[i]));
            }
        }
    }
}

/// Removes the scopes that another scope of the sorted list covers.
pub fn normalize(scopes: Vec<Scope>) -> (out: Vec<Scope>)
    ensures
        out.deep_view() == normalized(scopes.deep_view()),
{
    let mut out: Vec<Scope> = Vec::new();
    let mut i: usize = 0;
    assert(scopes.deep_view().take(0) =~= Seq::<Seq<u8>>::empty());
    assert(out.deep_view() =~= Seq::<Seq<u8>>::empty());
    while i < scopes.len()
        invariant
            i <= scopes.len(),
            out.deep_view() == normalized(scopes.deep_view().take(i as int)),
        decreases scopes.len() - i,
    {
        let scope = &scopes[i];
        let ghost before = out.deep_view();
        let ghost seen = scopes.deep_view().take(i + 1);
        assert(seen.drop_last() =~= scopes.deep_view().take(i as int));
        assert(seen.last() == scope@);
        let n = out.len();
        if n == 0 || !out[n - 1].covers(scope) {
            out.push(scope.clone());
            assert(out.deep_view() =~= before.push(scope@));
        }
        i += 1;
    }
    assert(scopes.deep_view().take(i as int) =~= scopes.deep_view());
    out
}

} // verus!
