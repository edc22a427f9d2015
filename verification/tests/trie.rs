use scope_trie::render::{decimal, heading, key_label, scopes_debug};
use scope_trie::rules::Rule;
use scope_trie::scopes::Scope;
use scope_trie::trie::{Node, Trie};

fn mkscope(scope: &[u8]) -> Scope {
    scope.to_vec().into()
}

fn mkrule(pattern: &[u8], scopes: &[&[u8]]) -> Rule {
    Rule { pattern: mkscope(pattern), scopes: scopes.iter().map(|s| mkscope(s)).collect() }
}

fn scopes_of(node: &Node) -> Vec<Vec<u8>> {
    node.scopes().iter().map(|s| s.as_bytes().clone()).collect()
}

fn bytes(scopes: &[&[u8]]) -> Vec<Vec<u8>> {
    scopes.iter().map(|s| s.to_vec()).collect()
}

fn children_of(node: &Node) -> Vec<u8> {
    (0..=255u8).filter(|b| node.child(*b).is_some()).collect()
}

fn is_leaf(node: &Node) -> bool {
    children_of(node).is_empty() && node.end().is_none()
}

#[test]
fn constructor() {
    let rules: Vec<Rule> = vec![
        Rule {
            pattern: mkscope(b"a"),
            scopes: vec![mkscope(b"x"), mkscope(b"y")],
        },
    ];
    assert_eq!(
        Trie::new(rules).debug_string().unwrap(),
        r###"Trie {
  start:
    Node {
      scopes: [],
      next["*"]:
        Node {
          scopes: [b"x", b"y"]
        },
      next["a"]:
        Node {
          scopes: [],
          next["*"]:
            Node {
              scopes: [b"x", b"y"]
            },
          end:
            Node {
              scopes: [b"x", b"y"]
            }
        }
    }
}"###
    );
}

#[test]
fn single_rule_structure() {
    let trie = Trie::new(vec![mkrule(b"a", &[b"x", b"y"])]);
    let root = trie.start();
    assert!(scopes_of(root).is_empty());
    assert!(root.end().is_none());
    assert_eq!(children_of(root), vec![b'*', b'a']);
    let star = root.child(b'*').unwrap();
    assert_eq!(scopes_of(star), bytes(&[b"x", b"y"]));
    assert!(is_leaf(star));
    let a = root.child(b'a').unwrap();
    assert!(scopes_of(a).is_empty());
    assert_eq!(children_of(a), vec![b'*']);
    let a_star = a.child(b'*').unwrap();
    assert_eq!(scopes_of(a_star), bytes(&[b"x", b"y"]));
    assert!(is_leaf(a_star));
    let a_end = a.end().unwrap();
    assert_eq!(scopes_of(a_end), bytes(&[b"x", b"y"]));
    assert!(is_leaf(a_end));
}

#[test]
fn empty_rule_set() {
    let trie = Trie::new(vec![]);
    assert!(scopes_of(trie.start()).is_empty());
    assert!(is_leaf(trie.start()));
    assert_eq!(
        trie.debug_string().unwrap(),
        "Trie {\n  start:\n    Node {\n      scopes: []\n    }\n}"
    );
}

#[test]
fn new_node_is_empty() {
    let node = Node::new();
    assert!(scopes_of(&node).is_empty());
    assert!(is_leaf(&node));
    assert_eq!(node.debug_fmt("").unwrap(), "Node {\n  scopes: []\n}");
    let leaf = Node::leaf(vec![mkscope(b"q")]);
    assert_eq!(scopes_of(&leaf), bytes(&[b"q"]));
    assert!(is_leaf(&leaf));
}

#[test]
fn terminal_wildcard_sets_scopes_of_the_node() {
    let trie = Trie::new(vec![mkrule(b"ab*", &[b"s"])]);
    let root = trie.start();
    assert_eq!(children_of(root), vec![b'*', b'a']);
    assert_eq!(scopes_of(root.child(b'*').unwrap()), bytes(&[b"s"]));
    let a = root.child(b'a').unwrap();
    assert_eq!(children_of(a), vec![b'*', b'b']);
    assert_eq!(scopes_of(a.child(b'*').unwrap()), bytes(&[b"s"]));
    let ab = a.child(b'b').unwrap();
    assert_eq!(scopes_of(ab), bytes(&[b"s"]));
    assert!(is_leaf(ab));
}

#[test]
fn rules_are_sorted_and_scopes_normalized() {
    let trie = Trie::new(vec![
        mkrule(b"b", &[b"z", b"y*", b"yy", b"z"]),
        mkrule(b"a", &[b"k"]),
    ]);
    let root = trie.start();
    assert_eq!(children_of(root), vec![b'*', b'a', b'b']);
    assert_eq!(scopes_of(root.child(b'*').unwrap()), bytes(&[b"k", b"y*", b"z"]));
    let a = root.child(b'a').unwrap();
    assert_eq!(scopes_of(a.end().unwrap()), bytes(&[b"k"]));
    assert_eq!(scopes_of(a.child(b'*').unwrap()), bytes(&[b"k"]));
    let b = root.child(b'b').unwrap();
    assert_eq!(scopes_of(b.end().unwrap()), bytes(&[b"y*", b"z"]));
    assert_eq!(scopes_of(b.child(b'*').unwrap()), bytes(&[b"y*", b"z"]));
}

#[test]
fn from_sorted_agrees_with_new() {
    let sorted = vec![
        mkrule(b"a*", &[b"1"]),
        mkrule(b"a", &[b"2"]),
        mkrule(b"a*b", &[b"3"]),
        mkrule(b"ab", &[b"4"]),
    ];
    let shuffled = vec![
        mkrule(b"ab", &[b"4"]),
        mkrule(b"a", &[b"2"]),
        mkrule(b"a*b", &[b"3"]),
        mkrule(b"a*", &[b"1"]),
    ];
    let expected = Trie::from_sorted(sorted).debug_string().unwrap();
    assert_eq!(Trie::new(shuffled).debug_string().unwrap(), expected);
    assert_eq!(Node::build(vec![mkrule(b"a", &[b"x"])]).debug_fmt("").unwrap(),
        Node::build_sorted(vec![mkrule(b"a", &[b"x"])]).debug_fmt("").unwrap());
}

#[test]
fn literal_star_child_takes_the_remainder() {
    let trie = Trie::from_sorted(vec![
        mkrule(b"a*", &[b"1"]),
        mkrule(b"a", &[b"2"]),
        mkrule(b"a*b", &[b"3"]),
        mkrule(b"ab", &[b"4"]),
    ]);
    let root = trie.start();
    assert_eq!(children_of(root), vec![b'*', b'a']);
    assert_eq!(scopes_of(root.child(b'*').unwrap()), bytes(&[b"1", b"2", b"3", b"4"]));
    let a = root.child(b'a').unwrap();
    assert_eq!(scopes_of(a), bytes(&[b"1"]));
    assert_eq!(scopes_of(a.end().unwrap()), bytes(&[b"2"]));
    assert_eq!(children_of(a), vec![b'*', b'b']);
    let a_star = a.child(b'*').unwrap();
    assert_eq!(scopes_of(a_star), bytes(&[b"2", b"3", b"4"]));
    assert_eq!(children_of(a_star), vec![b'*', b'b']);
    assert!(a_star.end().is_none());
    let a_star_b = a_star.child(b'b').unwrap();
    assert_eq!(scopes_of(a_star_b.end().unwrap()), bytes(&[b"3"]));
    assert_eq!(scopes_of(a_star.child(b'*').unwrap()), bytes(&[b"3"]));
    let ab = a.child(b'b').unwrap();
    assert_eq!(scopes_of(ab.end().unwrap()), bytes(&[b"4"]));
    assert_eq!(scopes_of(ab.child(b'*').unwrap()), bytes(&[b"4"]));
}

#[test]
fn later_rule_with_the_same_pattern_wins() {
    let trie = Trie::from_sorted(vec![mkrule(b"a", &[b"1"]), mkrule(b"a", &[b"2"])]);
    let a = trie.start().child(b'a').unwrap();
    assert_eq!(scopes_of(a.end().unwrap()), bytes(&[b"2"]));
    assert_eq!(scopes_of(a.child(b'*').unwrap()), bytes(&[b"1", b"2"]));
    let trie = Trie::from_sorted(vec![mkrule(b"a*", &[b"1"]), mkrule(b"a*", &[b"2"])]);
    let a = trie.start().child(b'a').unwrap();
    assert_eq!(scopes_of(a), bytes(&[b"2"]));
    assert!(is_leaf(a));
}

#[test]
fn only_wildcard_rule_has_no_remainder() {
    let trie = Trie::new(vec![mkrule(b"*", &[b"all"])]);
    let root = trie.start();
    assert_eq!(scopes_of(root), bytes(&[b"all"]));
    assert!(is_leaf(root));
}

#[test]
fn empty_pattern_ends_at_the_root() {
    let trie = Trie::new(vec![mkrule(b"", &[b"e"])]);
    let root = trie.start();
    assert_eq!(scopes_of(root.end().unwrap()), bytes(&[b"e"]));
    assert_eq!(children_of(root), vec![b'*']);
    assert_eq!(scopes_of(root.child(b'*').unwrap()), bytes(&[b"e"]));
}

#[test]
fn text_needs_utf8() {
    assert_eq!(mkscope(b"abc").debug_string(), Some("b\"abc\"".to_string()));
    assert_eq!(mkscope(b"").debug_string(), Some("b\"\"".to_string()));
    assert_eq!(mkscope(&[0xc3, 0xa9]).debug_string(), Some("b\"\u{e9}\"".to_string()));
    assert_eq!(mkscope(&[0xff]).debug_string(), None);
    assert_eq!(scopes_debug(&vec![mkscope(b"a"), mkscope(&[0x80])]), None);
    assert_eq!(scopes_debug(&vec![]), Some("[]".to_string()));
    assert_eq!(scopes_debug(&vec![mkscope(b"a")]), Some("[b\"a\"]".to_string()));
    assert_eq!(Trie::new(vec![mkrule(b"a", &[&[0xff]])]).debug_string(), None);
    assert_eq!(Node::leaf(vec![mkscope(&[0xfe])]).debug_fmt("  "), None);
}

#[test]
fn keys_are_quoted_or_numbered() {
    assert_eq!(key_label(b'a'), "\"a\"");
    assert_eq!(key_label(b'*'), "\"*\"");
    assert_eq!(key_label(b'"'), "\"\\\"\"");
    assert_eq!(key_label(127), format!("{:?}", "\u{7f}"));
    assert_eq!(key_label(128), "128");
    assert_eq!(key_label(255), "255");
    assert_eq!(decimal(0), "0");
    assert_eq!(decimal(9), "9");
    assert_eq!(decimal(10), "10");
    assert_eq!(decimal(99), "99");
    assert_eq!(decimal(100), "100");
    assert_eq!(decimal(207), "207");
    assert_eq!(heading("  ", "\"a\""), ",\n    next[\"a\"]:\n");
}

#[test]
fn child_beyond_ascii_is_numbered() {
    let trie = Trie::new(vec![mkrule(&[0xe9], &[b"x"])]);
    assert_eq!(
        trie.start().debug_fmt("").unwrap(),
        "Node {\n  scopes: [],\n  next[\"*\"]:\n    Node {\n      scopes: [b\"x\"]\n    },\n  next[233]:\n    Node {\n      scopes: [],\n      next[\"*\"]:\n        Node {\n          scopes: [b\"x\"]\n        },\n      end:\n        Node {\n          scopes: [b\"x\"]\n        }\n    }\n}"
    );
}
