//! The trie that a set of rules compiles to.
use vstd::prelude::*;
use vstd::slice::slice_subrange;
use crate::lex::{lemma_lex_at_split, splits_at};
use crate::rules::{Rule, RuleView, clone_scopes};
use crate::scopes::{Scope, WILDCARD, is_pattern, stem, precedes, covers, normalized, normalize};
use crate::sorting::{
    rules_sorted, sorted_scopes, sort_scopes, sort_rules, arranges, lemma_sorted_scopes,
    lemma_normalized_sorted,
};

verus! {

/// What a node holds: the scopes implied when a wildcard match stops at the
/// node, the child for each next byte that has one, and the child taken when
/// the input ends at the node.
pub struct NodeView {
    pub scopes: Seq<Seq<u8>>,
    pub next: Map<u8, NodeView>,
    pub end: Option<Box<NodeView>>,
}

/// The parts into which a node at depth `k` divides its rules.
pub enum Part {
    /// The pattern is the node's prefix followed by one last `*`.
    Wildcard,
    /// The pattern is the node's prefix.
    End,
    /// The pattern goes on with the given byte, and is not in `Wildcard`.
    Next(u8),
    /// Every rule that is not in `Wildcard`.
    Remainder,
}

/// The pattern of `r` ends with a `*` at position `k`.
pub open spec fn stars_at(r: RuleView, k: int) -> bool {
    r.pattern.len() == k + 1 && r.pattern[k] == WILDCARD
}

/// The pattern of `r` goes on at position `k` with a byte that is not a last `*`.
pub open spec fn branches_at(r: RuleView, k: int) -> bool {
    r.pattern.len() > k && !stars_at(r, k)
}

/// The rule `r` belongs to the given part of a node at depth `k`.
pub open spec fn falls_in(r: RuleView, k: int, part: Part) -> bool {
    match part {
        Part::Wildcard => stars_at(r, k),
        Part::End => r.pattern.len() == k,
        Part::Next(b) => branches_at(r, k) && r.pattern[k] == b,
        Part::Remainder => !stars_at(r, k),
    }
}

/// The rules that belong to the given part, in their order.
pub open spec fn part_of(rules: Seq<RuleView>, k: int, part: Part) -> Seq<RuleView>
    decreases rules.len(),
{
    if rules.len() == 0 {
        rules
    } else if falls_in(rules.last(), k, part) {
        part_of(rules.drop_last(), k, part).push(rules.last())
    } else {
        part_of(rules.drop_last(), k, part)
    }
}

/// The length of the longest pattern among the rules.
pub open spec fn longest(rules: Seq<RuleView>) -> nat
    decreases rules.len(),
{
    if rules.len() == 0 {
        0
    } else if longest(rules.drop_last()) < rules.last().pattern.len() {
        rules.last().pattern.len()
    } else {
        longest(rules.drop_last())
    }
}

/// The scopes of the last rule, or none where there is no rule.
pub open spec fn last_scopes(rules: Seq<RuleView>) -> Seq<Seq<u8>> {
    if rules.len() == 0 {
        Seq::empty()
    } else {
        rules.last().scopes
    }
}

/// The scopes of all the rules, one rule after the other.
pub open spec fn all_scopes(rules: Seq<RuleView>) -> Seq<Seq<u8>>
    decreases rules.len(),
{
    if rules.len() == 0 {
        Seq::empty()
    } else {
        all_scopes(rules.drop_last()) + rules.last().scopes
    }
}

/// A node without children that implies the given scopes.
pub open spec fn leaf(scopes: Seq<Seq<u8>>) -> NodeView {
    NodeView { scopes, next: Map::empty(), end: None }
}

/// A part holds only rules that fall in it, and no pattern among the rules
/// is longer than the longest.
pub proof fn lemma_part_of(rules: Seq<RuleView>, k: int, part: Part)
    ensures
        longest(part_of(rules, k, part)) <= longest(rules),
        forall|i: int|
            0 <= i < part_of(rules, k, part).len() ==> falls_in(
                #[trigger] part_of(rules, k, part)[i],
                k,
                part,
            ),
        forall|i: int| 0 <= i < rules.len() ==> #[trigger] rules[i].pattern.len() <= longest(rules),
    decreases rules.len(),
{
    if rules.len() > 0 {
        let init = rules.drop_last();
        lemma_part_of(init, k, part);
        if falls_in(rules.last(), k, part) {
            assert(part_of(rules, k, part).drop_last() =~= part_of(init, k, part));
        }
        assert forall|i: int| 0 <= i < rules.len() implies #[trigger] rules[i].pattern.len()
            <= longest(rules) by {
            if i < rules.len() - 1 {
                assert(rules[i] == init[i]);
            }
        }
    }
}

/// The node at depth `k` for rules whose patterns agree on their first `k`
/// bytes.
///
/// Its scopes are those of the last rule in the `Wildcard` part.  Its end
/// child is a leaf with the scopes of the last rule in the `End` part.  For
/// each byte with which a rule goes on, its child is the node at depth
/// `k + 1` for the rules that go on with that byte.  Where any rule is
/// outside the `Wildcard` part, the child for `*` implies the scopes of all
/// those rules; it keeps the children that the rules going on with `*` give it.
#[verifier::opaque]
pub open spec fn compile(rules: Seq<RuleView>, k: int) -> NodeView
    decreases longest(rules) - k,
{
    let grown = Map::new(
        |b: u8| part_of(rules, k, Part::Next(b)).len() > 0,
        |b: u8|
            {
                let branch = part_of(rules, k, Part::Next(b));
                if branch.len() > 0 {
                    proof {
                        lemma_part_of(rules, k, Part::Next(b));
                        assert(falls_in(branch[0], k, Part::Next(b)));
                    }
                    compile(branch, k + 1)
                } else {
                    leaf(Seq::empty())
                }
            },
    );
    let rest = part_of(rules, k, Part::Remainder);
    let ends = part_of(rules, k, Part::End);
    NodeView {
        scopes: last_scopes(part_of(rules, k, Part::Wildcard)),
        next: if rest.len() == 0 {
            grown
        } else if grown.contains_key(WILDCARD) {
            grown.insert(
                WILDCARD,
                NodeView {
                    scopes: all_scopes(rest),
                    next: grown[WILDCARD].next,
                    end: grown[WILDCARD].end,
                },
            )
        } else {
            grown.insert(WILDCARD, leaf(all_scopes(rest)))
        },
        end: if ends.len() == 0 {
            None
        } else {
            Some(Box::new(leaf(ends.last().scopes)))
        },
    }
}

/// The rule as the trie takes it: its scopes sorted, and then without those
/// that another of them covers.
pub open spec fn prepared(rule: RuleView) -> RuleView {
    RuleView { pattern: rule.pattern, scopes: normalized(sorted_scopes(rule.scopes)) }
}

/// Each of the rules as the trie takes it.
pub open spec fn prepared_all(rules: Seq<RuleView>) -> Seq<RuleView> {
    Seq::new(rules.len(), |i: int| prepared(rules[i]))
}

/// The scopes of a rule as the trie takes it sort strictly one before the
/// other, and none of them is covered by one before it.
pub proof fn lemma_prepared_scopes(rule: RuleView)
    ensures
        forall|i: int, j: int|
            0 <= i < j < prepared(rule).scopes.len() ==> precedes(
                #[trigger] prepared(rule).scopes[i],
                #[trigger] prepared(rule).scopes[j],
            ) && !covers(prepared(rule).scopes[i], prepared(rule).scopes[j]),
{
    lemma_sorted_scopes(rule.scopes, rule.scopes);
    lemma_normalized_sorted(sorted_scopes(rule.scopes));
}

/// The child for byte `b` that the rules alone give a node at depth `k`.
pub open spec fn branch_node(rules: Seq<RuleView>, k: int, b: u8) -> Option<NodeView> {
    let branch = part_of(rules, k, Part::Next(b));
    if branch.len() > 0 {
        Some(compile(branch, k + 1))
    } else {
        None
    }
}

/// The child for the end of the input, given the rules whose patterns end at the node.
pub open spec fn end_node(ends: Seq<RuleView>) -> Option<Box<NodeView>> {
    if ends.len() == 0 {
        None
    } else {
        Some(Box::new(leaf(ends.last().scopes)))
    }
}

/// The child for `*` of a node at depth `k` where some rule is outside the
/// `Wildcard` part.
pub open spec fn remainder_node(rules: Seq<RuleView>, k: int) -> NodeView {
    let scopes = all_scopes(part_of(rules, k, Part::Remainder));
    match branch_node(rules, k, WILDCARD) {
        Some(child) => NodeView { scopes, next: child.next, end: child.end },
        None => leaf(scopes),
    }
}

/// The fields of a compiled node, one by one.
pub proof fn lemma_compile_shape(rules: Seq<RuleView>, k: int)
    ensures
        compile(rules, k).scopes == last_scopes(part_of(rules, k, Part::Wildcard)),
        compile(rules, k).end == end_node(part_of(rules, k, Part::End)),
        forall|b: u8|
            b != WILDCARD ==> (#[trigger] compile(rules, k).next.contains_key(b) <==> branch_node(
                rules,
                k,
                b,
            ) is Some),
        forall|b: u8|
            b != WILDCARD && compile(rules, k).next.contains_key(b) ==> Some(
                #[trigger] compile(rules, k).next[b],
            ) == branch_node(rules, k, b),
        compile(rules, k).next.contains_key(WILDCARD) <==> part_of(rules, k, Part::Remainder).len()
            > 0,
        compile(rules, k).next.contains_key(WILDCARD) ==> compile(rules, k).next[WILDCARD]
            == remainder_node(rules, k),
{
    reveal(compile);
    if part_of(rules, k, Part::Remainder).len() == 0 {
        lemma_no_remainder(rules, k);
    }
}

/// Where every rule is in the `Wildcard` part, no rule goes on with `*`.
proof fn lemma_no_remainder(rules: Seq<RuleView>, k: int)
    requires
        part_of(rules, k, Part::Remainder).len() == 0,
    ensures
        part_of(rules, k, Part::Next(WILDCARD)).len() == 0,
    decreases rules.len(),
{
    if rules.len() > 0 {
        lemma_no_remainder(rules.drop_last(), k);
    }
}

/// The rules of one node at depth `k`: sorted by pattern, each pattern at
/// least `k` bytes long without being a pattern that ended one byte earlier,
/// and all patterns the same on their first `k` bytes.
spec fn grouped(rules: Seq<RuleView>, k: int) -> bool {
    &&& forall|i: int, j: int|
        #![trigger rules[i], rules[j]]
        0 <= i < j < rules.len() ==> !precedes(rules[j].pattern, rules[i].pattern)
    &&& forall|i: int|
        0 <= i < rules.len() ==> (#[trigger] rules[i]).pattern.len() >= k && !(k > 0 && stars_at(
            rules[i],
            k - 1,
        ))
    &&& forall|i: int, p: int|
        0 <= i < rules.len() && 0 <= p < k ==> #[trigger] rules[i].pattern[p] == rules[0].pattern[p]
}

/// Among the rules that branch at depth `k`, those before position `n` do so
/// with smaller bytes than those from `n` on.
spec fn separated(rules: Seq<RuleView>, k: int, n: int) -> bool {
    forall|i: int, j: int|
        #![trigger rules[i], rules[j]]
        0 <= i < n <= j < rules.len() && branches_at(rules[i], k) && branches_at(rules[j], k)
            ==> rules[i].pattern[k] < rules[j].pattern[k]
}

/// The stem of a pattern that reaches depth `k`: as long as the pattern
/// where the pattern ends at `k`, `k` bytes long where it ends with a `*` at
/// `k`, and longer than `k` where it goes on.
proof fn lemma_stem_shape(p: Seq<u8>, k: int)
    requires
        0 <= k <= p.len(),
        !(k > 0 && p.len() == k && p[k - 1] == WILDCARD),
    ensures
        stem(p).len() >= k,
        forall|i: int| 0 <= i < stem(p).len() ==> stem(p)[i] == p[i],
        p.len() == k ==> stem(p).len() == k && !is_pattern(p),
        p.len() == k + 1 && p[k] == WILDCARD ==> stem(p).len() == k && is_pattern(p),
        p.len() > k && !(p.len() == k + 1 && p[k] == WILDCARD) ==> stem(p).len() > k,
{
}

/// In the rules of one node, a rule that branches is followed only by rules
/// that branch with the same byte or a greater one, and a rule outside the
/// `Wildcard` part only by rules outside it.
proof fn lemma_group_order(rules: Seq<RuleView>, k: int, i: int, j: int)
    requires
        grouped(rules, k),
        0 <= k,
        0 <= i < j < rules.len(),
    ensures
        branches_at(rules[i], k) ==> branches_at(rules[j], k) && rules[i].pattern[k]
            <= rules[j].pattern[k],
        !stars_at(rules[i], k) ==> !stars_at(rules[j], k),
{
    let x = rules[i].pattern;
    let y = rules[j].pattern;
    lemma_stem_shape(x, k);
    lemma_stem_shape(y, k);
    assert(!precedes(y, x));
    assert forall|p: int| 0 <= p < k implies stem(y)[p] == stem(x)[p] by {
        assert(rules[i].pattern[p] == rules[0].pattern[p]);
        assert(rules[j].pattern[p] == rules[0].pattern[p]);
    }
    if stem(y).len() == k || stem(x).len() == k || stem(y)[k] != stem(x)[k] {
        assert(splits_at(stem(y), stem(x), k));
        lemma_lex_at_split(stem(y), stem(x), k);
    }
}

/// How a part grows when the rules from `a` up to `b` are added to those before `a`.
proof fn lemma_advance(rules: Seq<RuleView>, k: int, part: Part, a: int, b: int)
    requires
        0 <= a <= b <= rules.len(),
    ensures
        (forall|i: int| a <= i < b ==> !falls_in(#[trigger] rules[i], k, part)) ==> part_of(
            rules.take(b),
            k,
            part,
        ) == part_of(rules.take(a), k, part),
        (forall|i: int| a <= i < b ==> falls_in(#[trigger] rules[i], k, part)) ==> part_of(
            rules.take(b),
            k,
            part,
        ) == part_of(rules.take(a), k, part) + rules.subrange(a, b),
    decreases b - a,
{
    if a == b {
        assert(part_of(rules.take(a), k, part) + rules.subrange(a, b) =~= part_of(
            rules.take(a),
            k,
            part,
        ));
    } else {
        lemma_advance(rules, k, part, a, b - 1);
        assert(rules.take(b).drop_last() =~= rules.take(b - 1));
        assert(rules.take(b).last() == rules[b - 1]);
        if forall|i: int| a <= i < b ==> falls_in(#[trigger] rules[i], k, part) {
            assert(falls_in(rules[b - 1], k, part));
            assert((part_of(rules.take(a), k, part) + rules.subrange(a, b - 1)).push(rules[b - 1])
                =~= part_of(rules.take(a), k, part) + rules.subrange(a, b));
        }
        if forall|i: int| a <= i < b ==> !falls_in(#[trigger] rules[i], k, part) {
            assert(!falls_in(rules[b - 1], k, part));
        }
    }
}

/// Reading a rule that does not branch at depth `k` changes only the part it falls in.
proof fn lemma_step_single(rules: Seq<RuleView>, k: int, j: int)
    requires
        0 <= j < rules.len(),
        !branches_at(rules[j], k),
        separated(rules, k, j),
    ensures
        last_scopes(part_of(rules.take(j + 1), k, Part::Wildcard)) == if stars_at(rules[j], k) {
            rules[j].scopes
        } else {
            last_scopes(part_of(rules.take(j), k, Part::Wildcard))
        },
        end_node(part_of(rules.take(j + 1), k, Part::End)) == if rules[j].pattern.len() == k {
            Some(Box::new(leaf(rules[j].scopes)))
        } else {
            end_node(part_of(rules.take(j), k, Part::End))
        },
        forall|b: u8| #[trigger]
            branch_node(rules.take(j + 1), k, b) == branch_node(rules.take(j), k, b),
        separated(rules, k, j + 1),
{
    lemma_advance(rules, k, Part::Wildcard, j, j + 1);
    lemma_advance(rules, k, Part::End, j, j + 1);
    assert forall|b: u8| #[trigger]
        branch_node(rules.take(j + 1), k, b) == branch_node(rules.take(j), k, b) by {
        lemma_advance(rules, k, Part::Next(b), j, j + 1);
    }
}

/// Every rule after one that branches at depth `k` branches there too.
proof fn lemma_after_branch(rules: Seq<RuleView>, k: int, from: int)
    requires
        grouped(rules, k),
        0 <= k,
        0 <= from < rules.len(),
        branches_at(rules[from], k),
    ensures
        forall|i: int|
            from <= i < rules.len() ==> branches_at(#[trigger] rules[i], k)
                && rules[from].pattern[k] <= rules[i].pattern[k],
{
    assert forall|i: int| from <= i < rules.len() implies branches_at(#[trigger] rules[i], k)
        && rules[from].pattern[k] <= rules[i].pattern[k] by {
        if from < i {
            lemma_group_order(rules, k, from, i);
        }
    }
}

/// Reading a whole run of rules that branch at depth `k` with one byte gives
/// that byte its child and changes nothing else.
proof fn lemma_step_run(rules: Seq<RuleView>, k: int, from: int, to: int)
    requires
        grouped(rules, k),
        0 <= k,
        0 <= from < to <= rules.len(),
        separated(rules, k, from),
        branches_at(rules[from], k),
        forall|i: int|
            from <= i < to ==> (#[trigger] rules[i]).pattern[k] == rules[from].pattern[k],
        to < rules.len() ==> rules[to].pattern[k] != rules[from].pattern[k],
    ensures
        part_of(rules.take(to), k, Part::Wildcard) == part_of(rules.take(from), k, Part::Wildcard),
        part_of(rules.take(to), k, Part::End) == part_of(rules.take(from), k, Part::End),
        forall|b: u8|
            b != rules[from].pattern[k] ==> #[trigger] branch_node(rules.take(to), k, b)
                == branch_node(rules.take(from), k, b),
        branch_node(rules.take(to), k, rules[from].pattern[k]) == Some(
            compile(rules.subrange(from, to), k + 1),
        ),
        separated(rules, k, to),
        grouped(rules.subrange(from, to), k + 1),
{
    let current = rules[from].pattern[k];
    let run = rules.subrange(from, to);
    lemma_after_branch(rules, k, from);
    assert(grouped(run, k + 1)) by {
        assert forall|i: int, p: int|
            0 <= i < run.len() && 0 <= p < k + 1 implies #[trigger] run[i].pattern[p]
            == run[0].pattern[p] by {
            assert(rules[from + i].pattern[p] == rules[0].pattern[p] || p == k);
            assert(rules[from].pattern[p] == rules[0].pattern[p] || p == k);
        }
        assert forall|i: int, j: int|
            #![trigger run[i], run[j]]
            0 <= i < j < run.len() implies !precedes(run[j].pattern, run[i].pattern) by {
            assert(!precedes(rules[from + j].pattern, rules[from + i].pattern));
        }
    }
    lemma_advance(rules, k, Part::Wildcard, from, to);
    lemma_advance(rules, k, Part::End, from, to);
    assert forall|b: u8| b != current implies #[trigger] branch_node(rules.take(to), k, b)
        == branch_node(rules.take(from), k, b) by {
        lemma_advance(rules, k, Part::Next(b), from, to);
    }
    lemma_advance(rules, k, Part::Next(current), 0, from);
    lemma_advance(rules, k, Part::Next(current), from, to);
    assert(rules.take(0) =~= Seq::<RuleView>::empty());
    assert(part_of(rules.take(0), k, Part::Next(current)).len() == 0);
    assert(part_of(rules.take(to), k, Part::Next(current)) =~= run);
    assert forall|i: int, t: int|
        #![trigger rules[i], rules[t]]
        0 <= i < to <= t < rules.len() && branches_at(rules[i], k) && branches_at(
            rules[t],
            k,
        ) implies rules[i].pattern[k] < rules[t].pattern[k] by {
        if to < t {
            lemma_group_order(rules, k, to, t);
        }
    }
}

/// The `Remainder` part of the rules of one node is what follows the rules
/// of its `Wildcard` part, which come first.
proof fn lemma_remainder(rules: Seq<RuleView>, k: int, i: int)
    requires
        grouped(rules, k),
        0 <= k,
        0 <= i <= rules.len(),
        forall|t: int| 0 <= t < i ==> stars_at(#[trigger] rules[t], k),
        i < rules.len() ==> !stars_at(rules[i], k),
    ensures
        part_of(rules, k, Part::Remainder) == rules.subrange(i, rules.len() as int),
        i == rules.len() ==> forall|b: u8| #[trigger] branch_node(rules, k, b) is None,
{
    let n = rules.len() as int;
    assert(rules.take(0) =~= Seq::<RuleView>::empty());
    assert(rules.take(n) =~= rules);
    lemma_advance(rules, k, Part::Remainder, 0, i);
    assert(part_of(rules.take(0), k, Part::Remainder).len() == 0);
    assert forall|t: int| i <= t < n implies !stars_at(#[trigger] rules[t], k) by {
        if i < t {
            lemma_group_order(rules, k, i, t);
        }
    }
    lemma_advance(rules, k, Part::Remainder, i, n);
    assert(part_of(rules, k, Part::Remainder) =~= rules.subrange(i, n));
    if i == n {
        assert forall|b: u8| #[trigger] branch_node(rules, k, b) is None by {
            lemma_advance(rules, k, Part::Next(b), 0, n);
            assert(part_of(rules.take(0), k, Part::Next(b)).len() == 0);
        }
    }
}

/// The scopes of the rules from `from` on, one rule after the other.
fn gather(rules: &[Rule], from: usize) -> (all: Vec<Scope>)
    requires
        from <= rules.len(),
    ensures
        all.deep_view() == all_scopes(rules.deep_view().subrange(from as int, rules.len() as int)),
{
    let mut all: Vec<Scope> = Vec::new();
    let mut i: usize = from;
    assert(all.deep_view() =~= Seq::<Seq<u8>>::empty());
    assert(rules.deep_view().subrange(from as int, from as int) =~= Seq::<RuleView>::empty());
    while i < rules.len()
        invariant
            from <= i <= rules.len(),
            all.deep_view() == all_scopes(rules.deep_view().subrange(from as int, i as int)),
        decreases rules.len() - i,
    {
        let mut copy = clone_scopes(&rules[i].scopes);
        let ghost before = all.deep_view();
        all.append(&mut copy);
        proof {
            let upto = rules.deep_view().subrange(from as int, i + 1);
            assert(all.deep_view() =~= before + rules[i as int].scopes.deep_view());
            assert(upto.drop_last() =~= rules.deep_view().subrange(from as int, i as int));
            assert(upto.last().scopes == rules[i as int].scopes.deep_view());
        }
        i += 1;
    }
    all
}

/// A node of the trie: the state after a prefix of the input has been read.
pub struct Node {
    /// Scopes to apply when a traversal passes this node.
    scopes: Vec<Scope>,
    /// The next node for each possible next byte of the input.
    next: Vec<Option<Box<Node>>>,
    /// The node to go to when the input ends here.
    end: Option<Box<Node>>,
}

/// What an optional node holds.
spec fn node_view(node: Option<Node>) -> Option<NodeView> {
    match node {
        Some(node) => Some(node@),
        None => None,
    }
}

/// What the slot for the end of the input holds.
spec fn end_view(slot: Option<Box<Node>>) -> Option<Box<NodeView>> {
    match slot {
        Some(node) => Some(Box::new(node@)),
        None => None,
    }
}

/// What a slot for a child holds.
spec fn slot_view(slot: Option<Box<Node>>) -> Option<NodeView> {
    match slot {
        Some(node) => Some(node@),
        None => None,
    }
}

/// As many empty slots as there are bytes.
fn empty_slots() -> (slots: Vec<Option<Box<Node>>>)
    ensures
        slots.len() == 256,
        forall|i: int| 0 <= i < 256 ==> slots[i] is None,
{
    let mut slots: Vec<Option<Box<Node>>> = Vec::new();
    while slots.len() < 256
        invariant
            slots.len() <= 256,
            forall|i: int| 0 <= i < slots.len() ==> slots[i] is None,
        decreases 256 - slots.len(),
    {
        slots.push(None);
    }
    slots
}

impl View for Node {
    type V = NodeView;

    closed spec fn view(&self) -> NodeView {
        self.model()
    }
}

impl Node {
    /// A node has one slot for each byte.
    #[verifier::type_invariant]
    spec fn has_all_slots(self) -> bool {
        self.next.len() == 256
    }

    /// What the node holds, and below it what its children hold.
    spec fn model(&self) -> NodeView
        decreases self,
    {
        NodeView {
            scopes: self.scopes.deep_view(),
            next: Map::new(
                |b: u8| b < self.next.len() && self.next[b as int] is Some,
                |b: u8|
                    if b < self.next.len() {
                        match self.next[b as int] {
                            Some(node) => node.model(),
                            None => leaf(Seq::empty()),
                        }
                    } else {
                        leaf(Seq::empty())
                    },
            ),
            end: match self.end {
                Some(node) => Some(Box::new(node.model())),
                None => None,
            },
        }
    }

    /// A node without scopes and without children.
    pub fn new() -> (node: Node)
        ensures
            node@ == leaf(Seq::empty()),
    {
        let scopes: Vec<Scope> = Vec::new();
        assert(scopes.deep_view() =~= Seq::<Seq<u8>>::empty());
        Node::leaf(scopes)
    }

    /// A node without children that implies the given scopes.
    pub fn leaf(scopes: Vec<Scope>) -> (node: Node)
        ensures
            node@ == leaf(scopes.deep_view()),
    {
        let node = Node { scopes, next: empty_slots(), end: None };
        assert(node@.next =~= Map::empty());
        node
    }

    /// The node at depth `k` for the rules of one node: sorted rules whose
    /// patterns agree on their first `k` bytes.
    fn gen(rules: &[Rule], k: usize, Ghost(bound): Ghost<nat>) -> (node: Node)
        requires
            grouped(rules.deep_view(), k as int),
            forall|i: int| 0 <= i < rules.len() ==> rules.deep_view()[i].pattern.len() <= bound,
        ensures
            node@ == compile(rules.deep_view(), k as int),
        decreases bound - k,
    {
        let ghost rs = rules.deep_view();
        let ghost d = k as int;
        let n = rules.len();
        let mut scopes: Vec<Scope> = Vec::new();
        let mut end: Option<Box<Node>> = None;
        let mut next = empty_slots();
        let mut star: Option<Node> = None;
        let mut j: usize = 0;
        proof {
            assert(rs.take(0) =~= Seq::<RuleView>::empty());
            assert(scopes.deep_view() =~= Seq::<Seq<u8>>::empty());
        }
        while j < n
            invariant
                n == rules.len(),
                rs == rules.deep_view(),
                forall|i: int| 0 <= i < n ==> (#[trigger] rules[i])@ == rs[i],
                d == k,
                j <= n,
                grouped(rs, d),
                forall|i: int| 0 <= i < rs.len() ==> rs[i].pattern.len() <= bound,
                next.len() == 256,
                scopes.deep_view() == last_scopes(part_of(rs.take(j as int), d, Part::Wildcard)),
                end_view(end) == end_node(part_of(rs.take(j as int), d, Part::End)),
                forall|b: u8|
                    b != WILDCARD ==> slot_view(#[trigger] next[b as int]) == branch_node(
                        rs.take(j as int),
                        d,
                        b,
                    ),
                next[WILDCARD as int] is None,
                node_view(star) == branch_node(rs.take(j as int), d, WILDCARD),
                separated(rs, d, j as int),
            decreases n - j,
        {
            let rule = &rules[j];
            let seg = j;
            if k == rule.pattern.len() {
                end = Some(Box::new(Node::leaf(clone_scopes(&rule.scopes))));
                j += 1;
                proof {
                    lemma_step_single(rs, d, seg as int);
                }
            } else {
                let current = rule.pattern.byte(k);
                if current == WILDCARD && rule.pattern.len() - k == 1 {
                    scopes = clone_scopes(&rule.scopes);
                    j += 1;
                    proof {
                        lemma_step_single(rs, d, seg as int);
                    }
                } else {
                    proof {
                        lemma_after_branch(rs, d, seg as int);
                    }
                    j += 1;
                    while j < n && rules[j].pattern.byte(k) == current
                        invariant
                            n == rules.len(),
                            rs == rules.deep_view(),
                            forall|i: int| 0 <= i < n ==> (#[trigger] rules[i])@ == rs[i],
                            d == k,
                            seg < j <= n,
                            current == rs[seg as int].pattern[d],
                            forall|i: int| seg <= i < n ==> branches_at(#[trigger] rs[i], d),
                            forall|i: int|
                                seg <= i < j ==> (#[trigger] rs[i]).pattern[d] == current,
                        decreases n - j,
                    {
                        j += 1;
                    }
                    let run = slice_subrange(rules, seg, j);
                    proof {
                        assert(run.deep_view() =~= rs.subrange(seg as int, j as int));
                        lemma_step_run(rs, d, seg as int, j as int);
                    }
                    let child = Node::gen(run, k + 1, Ghost(bound));
                    if current == WILDCARD {
                        star = Some(child);
                    } else {
                        next.set(current as usize, Some(Box::new(child)));
                    }
                }
            }
        }
        assert(rs.take(n as int) =~= rs);
        let mut i: usize = 0;
        while i < n && rules[i].pattern.len() - k == 1 && rules[i].pattern.byte(k) == WILDCARD
            invariant
                n == rules.len(),
                rs == rules.deep_view(),
                forall|i: int| 0 <= i < n ==> (#[trigger] rules[i])@ == rs[i],
                d == k,
                i <= n,
                grouped(rs, d),
                forall|t: int| 0 <= t < i ==> stars_at(#[trigger] rs[t], d),
            decreases n - i,
        {
            i += 1;
        }
        proof {
            lemma_remainder(rs, d, i as int);
        }
        let ghost grown_star = star;
        if i < n {
            let all = gather(rules, i);
            let merged = match star {
                Some(child) => {
                    proof {
                        use_type_invariant(&child);
                    }
                    Node { scopes: all, next: child.next, end: child.end }
                },
                None => Node::leaf(all),
            };
            next.set(WILDCARD as usize, Some(Box::new(merged)));
        }
        let node = Node { scopes, next, end };
        proof {
            reveal(compile);
            let goal = compile(rs, d);
            assert forall|b: u8| node@.next.contains_key(b) == goal.next.contains_key(b) && (
            node@.next.contains_key(b) ==> node@.next[b] == goal.next[b]) by {
                if b != WILDCARD {
                    assert(slot_view(node.next[b as int]) == branch_node(rs, d, b));
                }
            }
            assert(node@.next =~= goal.next);
        }
        node
    }

    /// The root of the trie for rules that are sorted by pattern.  The scopes
    /// of each rule are sorted and normalized first.
    pub fn build_sorted(rules: Vec<Rule>) -> (node: Node)
        requires
            rules_sorted(rules.deep_view()),
        ensures
            node@ == compile(prepared_all(rules.deep_view()), 0),
    {
        let mut ready: Vec<Rule> = Vec::new();
        let mut i: usize = 0;
        while i < rules.len()
            invariant
                i <= rules.len(),
                ready.len() == i,
                forall|t: int| 0 <= t < i ==> (#[trigger] ready[t])@ == prepared(rules[t]@),
            decreases rules.len() - i,
        {
            let mut scopes = clone_scopes(&rules[i].scopes);
            sort_scopes(&mut scopes);
            let scopes = normalize(scopes);
            ready.push(Rule { pattern: rules[i].pattern.clone(), scopes });
            i += 1;
        }
        let slice = ready.as_slice();
        proof {
            let rs = prepared_all(rules.deep_view());
            assert(slice.deep_view() =~= rs);
            assert forall|i: int, j: int|
                #![trigger rs[i], rs[j]]
                0 <= i < j < rs.len() implies !precedes(rs[j].pattern, rs[i].pattern) by {
                assert(!precedes(rules.deep_view()[j].pattern, rules.deep_view()[i].pattern));
            }
            assert(grouped(rs, 0));
            lemma_part_of(rs, 0, Part::End);
        }
        Node::gen(slice, 0, Ghost(longest(slice.deep_view())))
    }

    /// The root of the trie for the rules.  They are sorted by pattern
    /// first; where several rules have one pattern, their order is open.
    pub fn build(rules: Vec<Rule>) -> (node: Node)
        ensures
            exists|arranged: Seq<RuleView>|
                arranges(arranged, rules.deep_view()) && node@ == compile(
                    prepared_all(arranged),
                    0,
                ),
    {
        let mut sorted = rules;
        sort_rules(&mut sorted);
        assert(arranges(sorted.deep_view(), rules.deep_view()));
        Node::build_sorted(sorted)
    }

    /// The scopes to apply when a traversal passes this node.
    pub fn scopes(&self) -> (scopes: &Vec<Scope>)
        ensures
            scopes.deep_view() == self@.scopes,
    {
        &self.scopes
    }

    /// The node that follows this one on the given byte, if there is one.
    pub fn child(&self, byte: u8) -> (child: Option<&Node>)
        ensures
            match child {
                Some(node) => self@.next.contains_key(byte) && self@.next[byte] == node@,
                None => !self@.next.contains_key(byte),
            },
    {
        proof {
            use_type_invariant(self);
        }
        match &self.next[byte as usize] {
            Some(node) => Some(&**node),
            None => None,
        }
    }

    /// The node that follows this one when the input ends, if there is one.
    pub fn end(&self) -> (end: Option<&Node>)
        ensures
            match end {
                Some(node) => self@.end == Some(Box::new(node@)),
                None => self@.end is None,
            },
    {
        match &self.end {
            Some(node) => Some(&**node),
            None => None,
        }
    }
}

/// A trie that holds, for every input, the scopes that the rules matching
/// it imply.
pub struct Trie {
    start: Node,
}

impl View for Trie {
    type V = NodeView;

    closed spec fn view(&self) -> NodeView {
        self.start@
    }
}

impl Trie {
    /// Compiles the rules into a trie.
    pub fn new(rules: Vec<Rule>) -> (trie: Trie)
        ensures
            exists|arranged: Seq<RuleView>|
                arranges(arranged, rules.deep_view()) && trie@ == compile(
                    prepared_all(arranged),
                    0,
                ),
    {
        Trie { start: Node::build(rules) }
    }

    /// Compiles rules that are sorted by pattern into a trie.
    pub fn from_sorted(rules: Vec<Rule>) -> (trie: Trie)
        requires
            rules_sorted(rules.deep_view()),
        ensures
            trie@ == compile(prepared_all(rules.deep_view()), 0),
    {
        Trie { start: Node::build_sorted(rules) }
    }

    /// The node at which a traversal starts.
    pub fn start(&self) -> (node: &Node)
        ensures
            node@ == self@,
    {
        &self.start
    }
}

} // verus!
