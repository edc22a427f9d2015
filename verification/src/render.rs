//! Text forms of scopes, nodes and tries, for people to read.
use vstd::prelude::*;
use vstd::string::*;
use vstd::utf8::{decode_utf8, valid_utf8};
use crate::scopes::Scope;
use crate::trie::{Node, NodeView, Trie};

verus! {

/// The text that std's `Debug` for `str` gives for a text: the text between
/// double quotes, with the characters escaped that `Debug` escapes.
pub uninterp spec fn debug_quoted(text: Seq<char>) -> Seq<char>;

/// The digit `d` as text.
pub open spec fn digit_text(d: nat) -> Seq<char> {
    if d == 0 {
        "0"@
    } else if d == 1 {
        "1"@
    } else if d == 2 {
        "2"@
    } else if d == 3 {
        "3"@
    } else if d == 4 {
        "4"@
    } else if d == 5 {
        "5"@
    } else if d == 6 {
        "6"@
    } else if d == 7 {
        "7"@
    } else if d == 8 {
        "8"@
    } else {
        "9"@
    }
}

/// The number `n` in decimal digits.
pub open spec fn decimal_text(n: nat) -> Seq<char>
    decreases n,
{
    if n < 10 {
        digit_text(n)
    } else {
        decimal_text(n / 10) + digit_text(n % 10)
    }
}

/// How a byte is shown as the key of a child: between quotes where the byte
/// alone is a character, as a number where it is not.
pub open spec fn key_text(byte: u8) -> Seq<char> {
    if valid_utf8(seq![byte]) {
        debug_quoted(decode_utf8(seq![byte]))
    } else {
        decimal_text(byte as nat)
    }
}

/// How a scope is shown: its characters between `b"` and `"`.
pub open spec fn scope_text(scope: Seq<u8>) -> Seq<char> {
    "b\""@ + decode_utf8(scope) + "\""@
}

/// The scopes as shown, with `, ` between them.
pub open spec fn items_text(scopes: Seq<Seq<u8>>) -> Seq<char>
    decreases scopes.len(),
{
    if scopes.len() == 0 {
        Seq::empty()
    } else if scopes.len() == 1 {
        scope_text(scopes[0])
    } else {
        items_text(scopes.drop_last()) + ", "@ + scope_text(scopes.last())
    }
}

/// How a list of scopes is shown.
pub open spec fn scopes_text(scopes: Seq<Seq<u8>>) -> Seq<char> {
    "["@ + items_text(scopes) + "]"@
}

/// Every scope of the list is valid UTF-8.
pub open spec fn all_utf8(scopes: Seq<Seq<u8>>) -> bool {
    forall|i: int| 0 <= i < scopes.len() ==> valid_utf8(#[trigger] scopes[i])
}

/// Every scope in the node and below it is valid UTF-8.
pub open spec fn node_utf8(node: NodeView) -> bool
    decreases node,
{
    &&& all_utf8(node.scopes)
    &&& forall|b: u8| node.next.contains_key(b) ==> node_utf8(#[trigger] node.next[b])
    &&& match node.end {
        Some(end) => node_utf8(*end),
        None => true,
    }
}

/// The line that leads to the child with the given key.
pub open spec fn child_heading(indent: Seq<char>, key: Seq<char>) -> Seq<char> {
    ",\n"@ + indent + "  next["@ + key + "]:\n"@
}

/// How a node is shown, every line after `indent`.
pub open spec fn node_text(node: NodeView, indent: Seq<char>) -> Seq<char>
    decreases node, 257nat,
{
    indent + "Node {\n"@ + indent + "  scopes: "@ + scopes_text(node.scopes) + children_text(
        node,
        indent,
        256,
    ) + (match node.end {
        Some(end) => ",\n"@ + indent + "  end:\n"@ + node_text(*end, indent + "    "@),
        None => Seq::empty(),
    }) + "\n"@ + indent + "}"@
}

/// How the children for the bytes below `upto` are shown, in the order of their bytes.
pub open spec fn children_text(node: NodeView, indent: Seq<char>, upto: nat) -> Seq<char>
    decreases node, upto,
{
    if upto == 0 || upto > 256 {
        Seq::empty()
    } else {
        let byte = (upto - 1) as u8;
        children_text(node, indent, (upto - 1) as nat) + if node.next.contains_key(byte) {
            child_heading(indent, key_text(byte)) + node_text(node.next[byte], indent + "    "@)
        } else {
            Seq::empty()
        }
    }
}

/// How a trie with the given root is shown.
pub open spec fn trie_text(start: NodeView) -> Seq<char> {
    "Trie {\n  start:\n"@ + node_text(start, "    "@) + "\n}"@
}

/// Calls `std::str::from_utf8`.  Believed of it: it gives a text exactly
/// where the bytes are valid UTF-8, and the text is then made of the
/// characters that the bytes encode.
#[verifier::external_body]
fn utf8_text(bytes: &Vec<u8>) -> (text: Option<&str>)
    ensures
        match text {
            Some(text) => valid_utf8(bytes@) && text@ == decode_utf8(bytes@),
            None => !valid_utf8(bytes@),
        },
{
    std::str::from_utf8(bytes).ok()
}

/// Formats a text with std's `Debug` for `str`.  Believed of it: the result
/// depends on the characters of the text alone.
#[verifier::external_body]
fn quote(text: &str) -> (quoted: String)
    ensures
        quoted@ == debug_quoted(text@),
{
    format!("{:?}", text)
}

/// The digit as text.
fn digit(d: u8) -> (text: &'static str)
    requires
        d < 10,
    ensures
        text@ == digit_text(d as nat),
{
    if d == 0 {
        "0"
    } else if d == 1 {
        "1"
    } else if d == 2 {
        "2"
    } else if d == 3 {
        "3"
    } else if d == 4 {
        "4"
    } else if d == 5 {
        "5"
    } else if d == 6 {
        "6"
    } else if d == 7 {
        "7"
    } else if d == 8 {
        "8"
    } else {
        "9"
    }
}

/// The number in decimal digits.
pub fn decimal(n: u8) -> (text: String)
    ensures
        text@ == decimal_text(n as nat),
{
    if n < 10 {
        String::from_str(digit(n))
    } else if n < 100 {
        let mut text = String::from_str(digit(n / 10));
        text.append(digit(n % 10));
        assert(decimal_text(n as nat) == decimal_text((n / 10) as nat) + digit_text(
            (n % 10) as nat,
        ));
        text
    } else {
        let mut text = String::from_str(digit(n / 100));
        text.append(digit((n / 10) % 10));
        text.append(digit(n % 10));
        assert(decimal_text((n / 10) as nat) == decimal_text((n / 100) as nat) + digit_text(
            ((n / 10) % 10) as nat,
        ));
        assert(decimal_text(n as nat) == decimal_text((n / 10) as nat) + digit_text(
            (n % 10) as nat,
        ));
        text
    }
}

/// The key under which the child for a byte is shown.
pub fn key_label(byte: u8) -> (label: String)
    ensures
        label@ == key_text(byte),
{
    let mut one: Vec<u8> = Vec::new();
    one.push(byte);
    assert(one@ =~= seq![byte]);
    match utf8_text(&one) {
        Some(text) => quote(text),
        None => decimal(byte),
    }
}

/// The line that leads to the child that is shown under `key`.
pub fn heading(indent: &str, key: &str) -> (line: String)
    ensures
        line@ == child_heading(indent@, key@),
{
    let mut line = String::from_str(",\n");
    line.append(indent);
    line.append("  next[");
    line.append(key);
    line.append("]:\n");
    line
}

/// The scopes as text, where each of them is valid UTF-8.
pub fn scopes_debug(scopes: &Vec<Scope>) -> (shown: Option<String>)
    ensures
        match shown {
            Some(text) => all_utf8(scopes.deep_view()) && text@ == scopes_text(scopes.deep_view()),
            None => !all_utf8(scopes.deep_view()),
        },
{
    let ghost all = scopes.deep_view();
    let mut out = String::from_str("[");
    let mut i: usize = 0;
    assert(all.take(0) =~= Seq::<Seq<u8>>::empty());
    assert("["@ + items_text(all.take(0)) =~= "["@);
    while i < scopes.len()
        invariant
            i <= scopes.len(),
            all == scopes.deep_view(),
            all_utf8(all.take(i as int)),
            out@ == "["@ + items_text(all.take(i as int)),
        decreases scopes.len() - i,
    {
        let ghost before = all.take(i as int);
        let ghost upto = all.take(i + 1);
        assert(upto.drop_last() =~= before);
        assert(upto.last() == scopes[i as int]@);
        match scopes[i].debug_string() {
            None => {
                assert(!valid_utf8(all[i as int]));
                return None;
            },
            Some(text) => {
                if i > 0 {
                    out.append(", ");
                }
                out.append(text.as_str());
                assert(out@ =~= "["@ + items_text(upto));
            },
        }
        assert forall|t: int| 0 <= t < upto.len() implies valid_utf8(#[trigger] upto[t]) by {
            if t < i {
                assert(upto[t] == before[t]);
            }
        }
        i += 1;
    }
    assert(all.take(i as int) =~= all);
    out.append("]");
    Some(out)
}

impl Scope {
    /// The scope as text, where it is valid UTF-8.
    pub fn debug_string(&self) -> (shown: Option<String>)
        ensures
            match shown {
                Some(text) => valid_utf8(self@) && text@ == scope_text(self@),
                None => !valid_utf8(self@),
            },
    {
        match utf8_text(self.as_bytes()) {
            Some(text) => {
                let mut out = String::from_str("b\"");
                out.append(text);
                out.append("\"");
                Some(out)
            },
            None => None,
        }
    }
}

impl Node {
    /// The node as text, every line after `indent`, where every scope in it
    /// and below it is valid UTF-8.
    pub fn debug_fmt(&self, indent: &str) -> (shown: Option<String>)
        ensures
            match shown {
                Some(text) => node_utf8(self@) && text@ == node_text(self@, indent@),
                None => !node_utf8(self@),
            },
        decreases self@,
    {
        let mut out = String::from_str(indent);
        out.append("Node {\n");
        out.append(indent);
        out.append("  scopes: ");
        match scopes_debug(self.scopes()) {
            None => {
                return None;
            },
            Some(text) => {
                out.append(text.as_str());
            },
        }
        let mut deeper = String::from_str(indent);
        deeper.append("    ");
        let ghost head = out@;
        let mut b: usize = 0;
        assert(out@ =~= head + children_text(self@, indent@, 0));
        while b < 256
            invariant
                b <= 256,
                deeper@ == indent@ + "    "@,
                out@ == head + children_text(self@, indent@, b as nat),
                forall|c: u8|
                    c < b && self@.next.contains_key(c) ==> node_utf8(#[trigger] self@.next[c]),
            decreases 256 - b,
        {
            let byte = b as u8;
            let ghost before = children_text(self@, indent@, b as nat);
            match self.child(byte) {
                Some(child) => {
                    let key = key_label(byte);
                    let line = heading(indent, key.as_str());
                    match child.debug_fmt(deeper.as_str()) {
                        None => {
                            return None;
                        },
                        Some(text) => {
                            out.append(line.as_str());
                            out.append(text.as_str());
                            assert(out@ =~= head + (before + (line@ + text@)));
                        },
                    }
                },
                None => {
                    assert(out@ =~= head + (before + Seq::<char>::empty()));
                },
            }
            b += 1;
        }
        match self.end() {
            Some(end) => {
                assert(match self@.end {
                    Some(below) => *below == end@,
                    None => false,
                });
                match end.debug_fmt(deeper.as_str()) {
                    None => {
                        return None;
                    },
                    Some(text) => {
                        out.append(",\n");
                        out.append(indent);
                        out.append("  end:\n");
                        out.append(text.as_str());
                        assert(out@ =~= head + children_text(self@, indent@, 256) + (",\n"@
                            + indent@ + "  end:\n"@ + text@));
                    },
                }
            },
            None => {
                assert(out@ =~= head + children_text(self@, indent@, 256) + Seq::<char>::empty());
            },
        }
        out.append("\n");
        out.append(indent);
        out.append("}");
        Some(out)
    }
}

impl Trie {
    /// The trie as text, where every scope in it is valid UTF-8.
    pub fn debug_string(&self) -> (shown: Option<String>)
        ensures
            match shown {
                Some(text) => node_utf8(self@) && text@ == trie_text(self@),
                None => !node_utf8(self@),
            },
    {
        match self.start().debug_fmt("    ") {
            Some(text) => {
                let mut out = String::from_str("Trie {\n  start:\n");
                out.append(text.as_str());
                out.append("\n}");
                Some(out)
            },
            None => None,
        }
    }
}

} // verus!
