use scope_trie::scopes::{normalize, Scope};
use scope_trie::sorting::sort_scopes;
use std::cmp::Ordering;

fn mkscope(scope: &[u8]) -> Scope {
    scope.to_vec().into()
}

fn test_total_order(scopes: Vec<Scope>) {
    for (i, a) in scopes.iter().enumerate() {
        for (j, b) in scopes.iter().enumerate() {
            let exp = i.cmp(&j);
            println!("{:?} {:?} {:?}", a, exp, b);
            assert_eq!(a.cmp(b), exp);
            assert_eq!(a.partial_cmp(b), Some(exp));
            assert_eq!(a.precedes(b), exp == Ordering::Less);
            assert_eq!(a == b, exp == Ordering::Equal);
            assert_eq!(a < b, exp == Ordering::Less);
        }
    }
}

#[test]
fn test_stars() {
    test_total_order(vec![
        mkscope(b"*"),
        mkscope(b""),
        mkscope(b"**"),
        mkscope(b"***"),
        mkscope(b"****"),
        mkscope(b"aaa*"),
        mkscope(b"aaa"),
        mkscope(b"aaa**"),
        mkscope(b"aaa***"),
        mkscope(b"aaa****"),
        mkscope(b"aaa*****"),
    ]);
}

#[test]
fn test_all_char_combos() {
    test_total_order(vec![
        mkscope(b"x*"),
        mkscope(b"x"),
        mkscope(b"x%*"),
        mkscope(b"x%"),
        mkscope(b"x%%"),
        mkscope(b"x%a"),
        mkscope(b"x**"),
        mkscope(b"x*%"),
        mkscope(b"x*a"),
        mkscope(b"xa*"),
        mkscope(b"xa"),
        mkscope(b"xa%"),
        mkscope(b"xaa"),
    ]);
}

#[test]
fn total_order_of_short_ranks() {
    test_total_order(vec![
        mkscope(b"*"),
        mkscope(b""),
        mkscope(b"**"),
        mkscope(b"***"),
        mkscope(b"aaa*"),
        mkscope(b"aaa"),
        mkscope(b"aaa**"),
    ]);
}

#[test]
fn sort_star_ordering() {
    let mut scopes: Vec<Scope> = vec![
        mkscope(b"abc"),
        mkscope(b"abc%d"),
        mkscope(b"abc*"),
        mkscope(b"abc*d"),
        mkscope(b"ab"),
        mkscope(b"abcd"),
    ];
    sort_scopes(&mut scopes);
    let expected: Vec<Scope> = vec![
        mkscope(b"ab"),
        mkscope(b"abc*"),
        mkscope(b"abc"),
        mkscope(b"abc%d"),
        mkscope(b"abc*d"),
        mkscope(b"abcd"),
    ];
    assert_eq!(scopes, expected);
}

#[test]
fn sort_with_std_and_library_comparison() {
    let mut scopes: Vec<Scope> = vec![
        mkscope(b"abc"),
        mkscope(b"abc%d"),
        mkscope(b"abc*"),
        mkscope(b"abc*d"),
        mkscope(b"ab"),
        mkscope(b"abcd"),
    ];
    scopes.sort_unstable_by(|a, b| a.cmp(b));
    let expected: Vec<Scope> = vec![
        mkscope(b"ab"),
        mkscope(b"abc*"),
        mkscope(b"abc"),
        mkscope(b"abc%d"),
        mkscope(b"abc*d"),
        mkscope(b"abcd"),
    ];
    assert_eq!(scopes, expected);
}

#[test]
fn sort_keeps_repeated_scopes() {
    let mut scopes: Vec<Scope> = vec![mkscope(b"b"), mkscope(b"a"), mkscope(b"b"), mkscope(b"a*")];
    sort_scopes(&mut scopes);
    let expected: Vec<Scope> = vec![mkscope(b"a*"), mkscope(b"a"), mkscope(b"b"), mkscope(b"b")];
    assert_eq!(scopes, expected);
}

#[test]
fn normalize_dupes() {
    let scopes: Vec<Scope> = vec![
        mkscope(b"aa"),
        mkscope(b"ab"),
        mkscope(b"ab"),
        mkscope(b"abc"),
        mkscope(b"abc*d"),
    ];
    let expected: Vec<Scope> = vec![
        mkscope(b"aa"),
        mkscope(b"ab"),
        mkscope(b"abc"),
        mkscope(b"abc*d"),
    ];
    let got = normalize(scopes);
    assert_eq!(got, expected);
}

#[test]
fn normalize_stars() {
    let scopes: Vec<Scope> = vec![
        mkscope(b"a*"),
        mkscope(b"ab*"),
        mkscope(b"abcd"),
        mkscope(b"def*"),
        mkscope(b"def"),
        mkscope(b"defghi"),
    ];
    let expected: Vec<Scope> = vec![mkscope(b"a*"), mkscope(b"def*")];
    let got = normalize(scopes);
    assert_eq!(got, expected);
}

#[test]
fn normalize_is_idempotent() {
    let inputs: Vec<Vec<&[u8]>> = vec![
        vec![],
        vec![b"a"],
        vec![b"aa", b"ab", b"ab", b"abc", b"abc*d"],
        vec![b"a*", b"ab*", b"abcd", b"def*", b"def", b"defghi"],
        vec![b"*", b"", b"x"],
        vec![b"a", b"a", b"a*", b"a"],
    ];
    for input in inputs {
        let scopes: Vec<Scope> = input.iter().map(|s| mkscope(s)).collect();
        let once = normalize(scopes);
        let twice = normalize(once.clone());
        assert_eq!(once, twice);
    }
}

#[test]
fn normalize_empty_and_single() {
    assert_eq!(normalize(vec![]), Vec::<Scope>::new());
    assert_eq!(normalize(vec![mkscope(b"a*")]), vec![mkscope(b"a*")]);
}

#[test]
fn normalize_star_covers_everything() {
    let scopes = vec![mkscope(b"*"), mkscope(b""), mkscope(b"a"), mkscope(b"b*")];
    assert_eq!(normalize(scopes), vec![mkscope(b"*")]);
}

#[test]
fn normalize_pattern_covers_its_own_stem() {
    let scopes = vec![mkscope(b"ab*"), mkscope(b"ab"), mkscope(b"abc"), mkscope(b"ac")];
    assert_eq!(normalize(scopes), vec![mkscope(b"ab*"), mkscope(b"ac")]);
}

#[test]
fn wildcard_sorts_before_literal() {
    let prefixes: Vec<&[u8]> = vec![b"", b"a", b"abc", b"a*b", b"x%"];
    for p in prefixes {
        let literal = mkscope(p);
        let mut with_star = p.to_vec();
        with_star.push(b'*');
        let pattern = mkscope(&with_star);
        assert_eq!(pattern.cmp(&literal), Ordering::Less);
        assert_eq!(literal.cmp(&pattern), Ordering::Greater);
        for extra in [b'!', b'%', b'+', b'a', b'~'] {
            let mut longer = p.to_vec();
            longer.push(extra);
            assert_eq!(literal.cmp(&mkscope(&longer)), Ordering::Less);
        }
    }
}

#[test]
fn scope_accessors() {
    let scope = Scope::new(b"ab*".to_vec());
    assert_eq!(scope.len(), 3);
    assert_eq!(scope.byte(0), b'a');
    assert_eq!(scope.byte(2), b'*');
    assert_eq!(scope.as_bytes(), &b"ab*".to_vec());
    assert!(scope.is_pattern());
    assert_eq!(scope.stem_len(), 2);
    let literal = Scope::new(b"ab".to_vec());
    assert!(!literal.is_pattern());
    assert_eq!(literal.stem_len(), 2);
    let empty = Scope::new(Vec::new());
    assert_eq!(empty.len(), 0);
    assert!(!empty.is_pattern());
    assert_eq!(scope.clone(), scope);
    assert_ne!(scope, literal);
}

#[test]
fn covers_follows_the_kept_pattern() {
    assert!(mkscope(b"a*").covers(&mkscope(b"a")));
    assert!(mkscope(b"a*").covers(&mkscope(b"abc")));
    assert!(mkscope(b"a*").covers(&mkscope(b"a*")));
    assert!(mkscope(b"*").covers(&mkscope(b"")));
    assert!(mkscope(b"ab").covers(&mkscope(b"ab")));
    assert!(!mkscope(b"ab").covers(&mkscope(b"abc")));
    assert!(!mkscope(b"ab*").covers(&mkscope(b"a")));
    assert!(!mkscope(b"ab*").covers(&mkscope(b"ac")));
}

#[test]
fn normalize_of_sorted_leaves_nothing_covered() {
    let mut scopes: Vec<Scope> = vec![
        mkscope(b"queue:*"),
        mkscope(b"queue:create:a"),
        mkscope(b"queue"),
        mkscope(b"auth:x"),
        mkscope(b"auth:x"),
        mkscope(b"auth:*x"),
        mkscope(b"auth:"),
        mkscope(b"auth:**"),
        mkscope(b"auth:*"),
        mkscope(b"b"),
    ];
    sort_scopes(&mut scopes);
    let kept = normalize(scopes.clone());
    assert_eq!(
        kept,
        vec![mkscope(b"auth:*"), mkscope(b"b"), mkscope(b"queue"), mkscope(b"queue:*")]
    );
    for i in 0..kept.len() {
        for j in (i + 1)..kept.len() {
            assert!(kept[i].precedes(&kept[j]));
            assert!(!kept[i].covers(&kept[j]));
        }
    }
    for scope in &scopes {
        assert!(kept.iter().any(|k| k.covers(scope)));
    }
}
