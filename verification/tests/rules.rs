use scope_trie::rules::Rule;
use scope_trie::scopes::Scope;
use scope_trie::sorting::sort_rules;
use std::cmp::Ordering;

fn mkscope(scope: &[u8]) -> Scope {
    scope.to_vec().into()
}

#[test]
fn test_sorting() {
    let mut rules: Vec<Rule> = vec![
        Rule {
            pattern: mkscope(b"def"),
            scopes: vec![mkscope(b"123")],
        },
        Rule {
            pattern: mkscope(b"abc"),
            scopes: vec![],
        },
        Rule {
            pattern: mkscope(b"def*"),
            scopes: vec![],
        },
    ];
    sort_rules(&mut rules);
    assert_eq!(rules[0].pattern, mkscope(b"abc"));
    assert_eq!(rules[1].pattern, mkscope(b"def*"));
    assert_eq!(rules[2].pattern, mkscope(b"def"));
    assert_eq!(rules[2].scopes, vec![mkscope(b"123")]);
}

#[test]
fn rules_compare_by_pattern_only() {
    let a = Rule { pattern: mkscope(b"abc"), scopes: vec![mkscope(b"x")] };
    let b = Rule { pattern: mkscope(b"abc"), scopes: vec![mkscope(b"y")] };
    let c = Rule { pattern: mkscope(b"abc*"), scopes: vec![] };
    assert_eq!(a.cmp(&b), Ordering::Equal);
    assert_eq!(a.partial_cmp(&b), Some(Ordering::Equal));
    assert_eq!(c.cmp(&a), Ordering::Less);
    assert_eq!(a.cmp(&c), Ordering::Greater);
    assert!(c < a);
    assert!(a != b);
    assert!(a == a.clone());
}
