//! Sorting scopes and rules in the order on scopes.
use vstd::prelude::*;
use vstd::relations::{sorted_by, total_ordering};
use vstd::seq_lib::lemma_sorted_unique;
use crate::rules::{Rule, RuleView};
use crate::lex::{is_prefix, lemma_lex_between, lemma_lex_prefix};
use crate::scopes::{
    Scope, precedes, lemma_precedes_strict_total, covers, is_pattern, stem, normalized,
    lemma_normalized_covers,
};

verus! {

/// No scope of the list sorts before one that stands earlier in it.
pub open spec fn scopes_sorted(s: Seq<Seq<u8>>) -> bool {
    forall|i: int, j: int| 0 <= i < j < s.len() ==> !precedes(#[trigger] s[j], #[trigger] s[i])
}

/// No rule of the list has a pattern that sorts before the pattern of a rule
/// that stands earlier in it.
pub open spec fn rules_sorted(rules: Seq<RuleView>) -> bool {
    forall|i: int, j: int|
        #![trigger rules[i], rules[j]]
        0 <= i < j < rules.len() ==> !precedes(rules[j].pattern, rules[i].pattern)
}

/// The relation "does not sort after" on scopes.
pub open spec fn scope_leq() -> spec_fn(Seq<u8>, Seq<u8>) -> bool {
    |a: Seq<u8>, b: Seq<u8>| !precedes(b, a)
}

/// The scopes of the list in sorted order.
pub open spec fn sorted_scopes(s: Seq<Seq<u8>>) -> Seq<Seq<u8>> {
    s.sort_by(scope_leq())
}

/// "Does not sort after" is a total order on scopes.
pub proof fn lemma_scope_leq_total()
    ensures
        total_ordering(scope_leq()),
{
    let leq = scope_leq();
    assert forall|a: Seq<u8>| #[trigger] leq(a, a) by {
        lemma_precedes_strict_total(a, a, a);
    }
    assert forall|a: Seq<u8>, b: Seq<u8>| #[trigger] leq(a, b) && #[trigger] leq(b, a) implies a
        == b by {
        lemma_precedes_strict_total(a, b, a);
    }
    assert forall|a: Seq<u8>, b: Seq<u8>, c: Seq<u8>| #[trigger]
        leq(a, b) && #[trigger] leq(b, c) implies leq(a, c) by {
        lemma_precedes_strict_total(c, a, b);
        lemma_precedes_strict_total(a, b, c);
        lemma_precedes_strict_total(b, c, a);
    }
    assert forall|a: Seq<u8>, b: Seq<u8>| #[trigger] leq(a, b) || #[trigger] leq(b, a) by {
        lemma_precedes_strict_total(a, b, a);
    }
}

/// The sorted order of a list of scopes is sorted, holds the same scopes as
/// often, and is the only such list.
pub proof fn lemma_sorted_scopes(s: Seq<Seq<u8>>, t: Seq<Seq<u8>>)
    ensures
        scopes_sorted(sorted_scopes(s)),
        sorted_scopes(s).to_multiset() == s.to_multiset(),
        scopes_sorted(t) && t.to_multiset() == s.to_multiset() ==> t == sorted_scopes(s),
{
    lemma_scope_leq_total();
    s.lemma_sort_by_ensures(scope_leq());
    let u = sorted_scopes(s);
    assert forall|i: int, j: int| 0 <= i < j < u.len() implies !precedes(
        #[trigger] u[j],
        #[trigger] u[i],
    ) by {
        assert(scope_leq()(u[i], u[j]));
    }
    if scopes_sorted(t) && t.to_multiset() == s.to_multiset() {
        assert forall|i: int, j: int| 0 <= i < j < t.len() implies #[trigger] scope_leq()(
            t[i],
            t[j],
        ) by {
            assert(!precedes(t[j], t[i]));
        }
        lemma_sorted_unique(t, u, scope_leq());
    }
}

/// A scope that sorts between a pattern and a scope that starts with the
/// pattern's stem starts with that stem too.
pub proof fn lemma_covered_between(a: Seq<u8>, b: Seq<u8>, c: Seq<u8>)
    requires
        is_pattern(a),
        is_prefix(stem(a), c),
        !precedes(b, a),
        !precedes(c, b),
    ensures
        is_prefix(stem(a), b),
{
    let p = stem(a);
    lemma_precedes_strict_total(c, a, b);
    lemma_precedes_strict_total(a, b, c);
    assert(!precedes(c, a));
    assert forall|j: int| 0 <= j < p.len() implies c[j] == p[j] by {
        assert(c.take(p.len() as int)[j] == c[j]);
    }
    if is_pattern(c) && c.len() == p.len() {
        assert(c =~= p);
        assert(stem(c).take(stem(c).len() as int) =~= stem(c));
        assert(p.take(stem(c).len() as int) =~= stem(c));
        lemma_lex_prefix(stem(c), p);
        assert(false);
    }
    assert(stem(c).take(p.len() as int) =~= p);
    lemma_lex_between(p, stem(b), stem(c));
    assert(b.take(p.len() as int) =~= stem(b).take(p.len() as int));
}

/// A scope that the scope kept last does not cover is covered by no scope
/// kept before, and sorts strictly after it.
proof fn lemma_next_kept(early: Seq<u8>, last: Seq<u8>, e: Seq<u8>)
    requires
        !precedes(e, early),
        !precedes(e, last),
        early == last || (precedes(early, last) && !covers(early, last)),
        !covers(last, e),
    ensures
        precedes(early, e),
        !covers(early, e),
{
    lemma_precedes_strict_total(early, e, last);
    lemma_precedes_strict_total(early, last, e);
    if early != last && is_pattern(early) && is_prefix(stem(early), e) {
        lemma_covered_between(early, last, e);
    }
}

/// In a sorted list, the last scope sorts before none of the scopes that
/// normalizing keeps of those before it.
proof fn lemma_last_after_kept(s: Seq<Seq<u8>>)
    requires
        scopes_sorted(s),
        s.len() > 0,
    ensures
        scopes_sorted(s.drop_last()),
        forall|i: int|
            0 <= i < normalized(s.drop_last()).len() ==> !precedes(
                s.last(),
                #[trigger] normalized(s.drop_last())[i],
            ),
{
    let init = s.drop_last();
    let kept = normalized(init);
    assert forall|i: int, j: int| 0 <= i < j < init.len() implies !precedes(
        #[trigger] init[j],
        #[trigger] init[i],
    ) by {
        assert(!precedes(s[j], s[i]));
    }
    lemma_normalized_covers(init);
    assert forall|i: int| 0 <= i < kept.len() implies !precedes(s.last(), #[trigger] kept[i]) by {
        assert(init.contains(kept[i]));
        let t = choose|t: int| 0 <= t < init.len() && init[t] == kept[i];
        assert(!precedes(s[s.len() - 1], s[t]));
    }
}

/// Normalizing a sorted list leaves a list in which every scope sorts
/// strictly before those after it, and no scope is covered by one before it.
pub proof fn lemma_normalized_sorted(s: Seq<Seq<u8>>)
    requires
        scopes_sorted(s),
    ensures
        forall|i: int, j: int|
            0 <= i < j < normalized(s).len() ==> precedes(
                #[trigger] normalized(s)[i],
                #[trigger] normalized(s)[j],
            ) && !covers(normalized(s)[i], normalized(s)[j]),
    decreases s.len(),
{
    if s.len() > 0 {
        let kept = normalized(s.drop_last());
        let out = normalized(s);
        let e = s.last();
        lemma_last_after_kept(s);
        lemma_normalized_sorted(s.drop_last());
        if out.len() > kept.len() {
            let m = kept.len() - 1;
            assert(out == kept.push(e));
            assert(kept.len() > 0 ==> !covers(kept[m], e));
            assert forall|i: int, j: int| 0 <= i < j < out.len() implies precedes(
                #[trigger] out[i],
                #[trigger] out[j],
            ) && !covers(out[i], out[j]) by {
                if j == kept.len() {
                    assert(!precedes(e, kept[i]));
                    assert(!precedes(e, kept[m]));
                    if i < m {
                        assert(precedes(kept[i], kept[m]) && !covers(kept[i], kept[m]));
                    }
                    lemma_next_kept(kept[i], kept[m], e);
                }
            }
        }
    }
}

/// No two rules of the list have the same pattern.
pub open spec fn distinct_patterns(rules: Seq<RuleView>) -> bool {
    forall|i: int, j: int|
        #![trigger rules[i], rules[j]]
        0 <= i < j < rules.len() ==> rules[i].pattern != rules[j].pattern
}

/// Rules of which no two have the same pattern can be put in sorted order in
/// one way only.
pub proof fn lemma_sorted_rules_unique(x: Seq<RuleView>, y: Seq<RuleView>)
    requires
        rules_sorted(x),
        rules_sorted(y),
        distinct_patterns(x),
        x.to_multiset() == y.to_multiset(),
    ensures
        x == y,
    decreases x.len(),
{
    broadcast use vstd::multiset::group_multiset_axioms;
    broadcast use vstd::seq_lib::group_to_multiset_ensures;

    x.to_multiset_ensures();
    y.to_multiset_ensures();
    if x.len() == 0 || y.len() == 0 {
        assert(x.len() == y.len());
        assert(x =~= y);
    } else {
        assert(x.contains(x[0]));
        assert(y.contains(y[0]));
        assert(x.to_multiset().count(y[0]) > 0);
        assert(y.to_multiset().count(x[0]) > 0);
        let i = choose|i: int| 0 <= i < x.len() && x[i] == y[0];
        let j = choose|j: int| 0 <= j < y.len() && y[j] == x[0];
        if i > 0 {
            assert(!precedes(x[i].pattern, x[0].pattern));
            if j > 0 {
                assert(!precedes(y[j].pattern, y[0].pattern));
            }
            lemma_precedes_strict_total(x[0].pattern, x[i].pattern, x[0].pattern);
            assert(x[0].pattern == x[i].pattern);
            assert(false);
        }
        let xs = x.drop_first();
        let ys = y.drop_first();
        assert(xs =~= x.remove(0));
        assert(ys =~= y.remove(0));
        assert(xs.to_multiset() =~= ys.to_multiset());
        assert(rules_sorted(xs)) by {
            assert forall|a: int, b: int|
                #![trigger xs[a], xs[b]]
                0 <= a < b < xs.len() implies !precedes(xs[b].pattern, xs[a].pattern) by {
                assert(!precedes(x[b + 1].pattern, x[a + 1].pattern));
            }
        }
        assert(rules_sorted(ys)) by {
            assert forall|a: int, b: int|
                #![trigger ys[a], ys[b]]
                0 <= a < b < ys.len() implies !precedes(ys[b].pattern, ys[a].pattern) by {
                assert(!precedes(y[b + 1].pattern, y[a + 1].pattern));
            }
        }
        assert(distinct_patterns(xs)) by {
            assert forall|a: int, b: int|
                #![trigger xs[a], xs[b]]
                0 <= a < b < xs.len() implies xs[a].pattern != xs[b].pattern by {
                assert(x[a + 1].pattern != x[b + 1].pattern);
            }
        }
        lemma_sorted_rules_unique(xs, ys);
        assert(x =~= seq![x[0]] + xs);
        assert(y =~= seq![y[0]] + ys);
    }
}

/// `arranged` holds the rules of `rules`, each as often, sorted by pattern.
pub open spec fn arranges(arranged: Seq<RuleView>, rules: Seq<RuleView>) -> bool {
    rules_sorted(arranged) && arranged.to_multiset() == rules.to_multiset()
}

/// Rules of which no two have the same pattern have one sorted arrangement
/// only.
pub proof fn lemma_arrangement_unique(rules: Seq<RuleView>, a: Seq<RuleView>, b: Seq<RuleView>)
    requires
        distinct_patterns(rules),
        arranges(a, rules),
        arranges(b, rules),
    ensures
        a == b,
{
    broadcast use vstd::multiset::group_multiset_axioms;

    rules.to_multiset_ensures();
    a.to_multiset_ensures();
    assert(rules.no_duplicates()) by {
        assert forall|i: int, j: int|
            0 <= i < rules.len() && 0 <= j < rules.len() && i != j implies rules[i]
            != rules[j] by {
            if i < j {
                assert(rules[i].pattern != rules[j].pattern);
            } else {
                assert(rules[j].pattern != rules[i].pattern);
            }
        }
    }
    rules.lemma_multiset_has_no_duplicates();
    a.lemma_multiset_has_no_duplicates_conv();
    assert forall|i: int, j: int|
        #![trigger a[i], a[j]]
        0 <= i < j < a.len() implies a[i].pattern != a[j].pattern by {
        assert(a.contains(a[i]));
        assert(a.contains(a[j]));
        assert(a.to_multiset().count(a[i]) > 0 && a.to_multiset().count(a[j]) > 0);
        assert(rules.to_multiset().count(a[i]) > 0 && rules.to_multiset().count(a[j]) > 0);
        assert(rules.contains(a[i]));
        assert(rules.contains(a[j]));
        let u = choose|u: int| 0 <= u < rules.len() && rules[u] == a[i];
        let v = choose|v: int| 0 <= v < rules.len() && rules[v] == a[j];
        assert(a[i] != a[j]);
        if u < v {
            assert(rules[u].pattern != rules[v].pattern);
        } else {
            assert(rules[v].pattern != rules[u].pattern);
        }
    }
    lemma_sorted_rules_unique(a, b);
}

/// Calls `sort_unstable_by` of std on the list, with `Scope::cmp` as the
/// comparison.  Believed of it: the list afterwards is sorted in that order
/// and holds the same scopes, each as often as before.
#[verifier::external_body]
fn sort_scopes_in_place(scopes: &mut Vec<Scope>)
    ensures
        scopes_sorted(final(scopes).deep_view()),
        final(scopes).deep_view().to_multiset() == old(scopes).deep_view().to_multiset(),
{
    scopes.sort_unstable_by(|a, b| a.cmp(b));
}

/// Calls `sort_unstable_by` of std on the list, with `Rule::cmp` as the
/// comparison.  Believed of it: the list afterwards is sorted by pattern and
/// holds the same rules, each as often as before.  Which of two rules with
/// one pattern comes first is left open.
#[verifier::external_body]
fn sort_rules_in_place(rules: &mut Vec<Rule>)
    ensures
        rules_sorted(final(rules).deep_view()),
        final(rules).deep_view().to_multiset() == old(rules).deep_view().to_multiset(),
{
    rules.sort_unstable_by(|a, b| a.cmp(b));
}

/// Sorts the scopes.
pub fn sort_scopes(scopes: &mut Vec<Scope>)
    ensures
        final(scopes).deep_view() == sorted_scopes(old(scopes).deep_view()),
{
    sort_scopes_in_place(scopes);
    proof {
        lemma_sorted_scopes(old(scopes).deep_view(), scopes.deep_view());
    }
}

/// Sorts the rules by pattern.  Rules with one pattern end up next to each
/// other, in an order that is not fixed.
pub fn sort_rules(rules: &mut Vec<Rule>)
    ensures
        arranges(final(rules).deep_view(), old(rules).deep_view()),
{
    sort_rules_in_place(rules);
}

} // verus!
