//! Writing a tree back as save text.

use crate::lexer::{CLOSE, EQUALS, OPEN, SPACE};
use crate::tree::{lemma_array_view, lemma_object_view, member_views, node_views, Node, Tree};
use vstd::prelude::*;

verus! {

/// The raw token texts that a node is written as: a scalar as itself, a
/// group as its content between braces.
pub open spec fn lexemes(t: Tree) -> Seq<Seq<u8>>
    decreases t,
{
    match t {
        Tree::Scalar(raw) => seq![raw],
        Tree::Object(entries) => seq![seq![OPEN]] + member_lexemes(entries) + seq![seq![CLOSE]],
        Tree::Array(elements) => seq![seq![OPEN]] + item_lexemes(elements) + seq![seq![CLOSE]],
    }
}

/// The raw token texts of the members of an object: a member with a key as
/// the key, `=` and the value, a member without one as the value alone.
pub open spec fn member_lexemes(entries: Seq<(Seq<u8>, Tree)>) -> Seq<Seq<u8>>
    decreases entries,
{
    if entries.len() == 0 {
        Seq::empty()
    } else {
        key_lexemes(entries[0].0) + lexemes(entries[0].1) + member_lexemes(entries.skip(1))
    }
}

/// The raw token texts that introduce a member: the key and `=`, or nothing
/// for the empty key.
pub open spec fn key_lexemes(key: Seq<u8>) -> Seq<Seq<u8>> {
    if key.len() > 0 {
        seq![key, seq![EQUALS]]
    } else {
        Seq::empty()
    }
}

/// The raw token texts of the items of an array.
pub open spec fn item_lexemes(elements: Seq<Tree>) -> Seq<Seq<u8>>
    decreases elements,
{
    if elements.len() == 0 {
        Seq::empty()
    } else {
        lexemes(elements[0]) + item_lexemes(elements.skip(1))
    }
}

/// The raw token texts of a root node, which stands without braces.
pub open spec fn root_lexemes(t: Tree) -> Seq<Seq<u8>> {
    match t {
        Tree::Scalar(raw) => seq![raw],
        Tree::Object(entries) => member_lexemes(entries),
        Tree::Array(elements) => item_lexemes(elements),
    }
}

/// The text of a sequence of tokens: each followed by one space.
pub open spec fn print(texts: Seq<Seq<u8>>) -> Seq<u8>
    decreases texts.len(),
{
    if texts.len() == 0 {
        Seq::empty()
    } else {
        texts[0] + seq![SPACE] + print(texts.skip(1))
    }
}

/// The save text of a root node.
pub open spec fn encode(t: Tree) -> Seq<u8> {
    print(root_lexemes(t))
}

/// The text of two token sequences in a row is their texts in a row.
pub proof fn lemma_print_concat(a: Seq<Seq<u8>>, b: Seq<Seq<u8>>)
    ensures
        print(a + b) == print(a) + print(b),
    decreases a.len(),
{
    if a.len() == 0 {
        assert(a + b == b);
    } else {
        lemma_print_concat(a.skip(1), b);
        assert((a + b).skip(1) == a.skip(1) + b);
        assert((a + b)[0] == a[0]);
    }
}

/// Appends bytes to a buffer.
pub fn push_all(out: &mut Vec<u8>, bytes: &[u8])
    ensures
        final(out)@ == old(out)@ + bytes@,
{
    let mut i: usize = 0;
    while i < bytes.len()
        invariant
            i <= bytes.len(),
            out@ == old(out)@ + bytes@.take(i as int),
        decreases bytes.len() - i,
    {
        out.push(bytes[i]);
        assert(bytes@.take(i + 1) == bytes@.take(i as int).push(bytes@[i as int]));
        i += 1;
    }
    assert(bytes@.take(bytes@.len() as int) == bytes@);
}

/// Appends one token and the space behind it.
fn write_raw(out: &mut Vec<u8>, raw: &[u8])
    ensures
        final(out)@ == old(out)@ + print(seq![raw@]),
{
    push_all(out, raw);
    out.push(SPACE);
    proof {
        let one = seq![raw@];
        assert(one[0] == raw@);
        assert(one.skip(1).len() == 0);
        assert(print(one.skip(1)) == Seq::<u8>::empty());
        assert(print(one) == raw@ + seq![SPACE] + Seq::<u8>::empty());
    }
}

/// The raw token texts of a node, with the braces of a group or without.
pub open spec fn node_lexemes(t: Tree, braces: bool) -> Seq<Seq<u8>> {
    if braces {
        lexemes(t)
    } else {
        root_lexemes(t)
    }
}

/// Appends the text of a node. A group is written between braces if `braces`
/// is set, else as its bare content.
pub fn write_node(node: &Node, out: &mut Vec<u8>, braces: bool)
    ensures
        final(out)@ == old(out)@ + print(node_lexemes(node@, braces)),
    decreases node,
{
    let ghost start = out@;
    match node {
        Node::Scalar(raw) => {
            write_raw(out, raw.as_slice());
        },
        Node::Object(entries) => {
            let ghost views = member_views(entries@);
            let ghost inner = member_lexemes(views);
            proof {
                lemma_object_view(*node);
                lemma_print_concat(seq![seq![OPEN]] + inner, seq![seq![CLOSE]]);
                lemma_print_concat(seq![seq![OPEN]], inner);
            }
            if braces {
                let open: [u8; 1] = [OPEN];
                assert(open@ == seq![OPEN]);
                write_raw(out, open.as_slice());
            }
            let ghost opened = out@;
            let n: usize = entries.len();
            let mut i: usize = 0;
            assert(views.skip(0) == views);
            while i < n
                invariant
                    i <= n,
                    n == entries.len(),
                    *node == Node::Object(*entries),
                    views == member_views(entries@),
                    opened + print(member_lexemes(views)) == out@ + print(
                        member_lexemes(views.skip(i as int)),
                    ),
                decreases n - i,
            {
                let ghost before = out@;
                let ghost rest = views.skip(i as int);
                proof {
                    assert(rest[0] == views[i as int]);
                    assert(rest.skip(1) == views.skip(i + 1));
                    lemma_print_concat(
                        key_lexemes(rest[0].0) + lexemes(rest[0].1),
                        member_lexemes(rest.skip(1)),
                    );
                    lemma_print_concat(key_lexemes(rest[0].0), lexemes(rest[0].1));
                }
                if entries[i].0.len() > 0 {
                    proof {
                        let key = rest[0].0;
                        lemma_print_concat(seq![key], seq![seq![EQUALS]]);
                        assert(seq![key] + seq![seq![EQUALS]] == key_lexemes(key));
                    }
                    write_raw(out, entries[i].0.as_slice());
                    let eq: [u8; 1] = [EQUALS];
                    assert(eq@ == seq![EQUALS]);
                    write_raw(out, eq.as_slice());
                } else {
                    assert(print(key_lexemes(rest[0].0)) == Seq::<u8>::empty());
                }
                assert(node->Object_0 == *entries);
                write_node(&entries[i].1, out, true);
                assert(out@ == before + print(key_lexemes(rest[0].0)) + print(
                    lexemes(rest[0].1),
                ));
                i += 1;
            }
            assert(views.skip(n as int).len() == 0);
            assert(out@ == opened + print(inner));
            if braces {
                let close: [u8; 1] = [CLOSE];
                assert(close@ == seq![CLOSE]);
                write_raw(out, close.as_slice());
            }
        },
        Node::Array(elements) => {
            let ghost views = node_views(elements@);
            let ghost inner = item_lexemes(views);
            proof {
                lemma_array_view(*node);
                lemma_print_concat(seq![seq![OPEN]] + inner, seq![seq![CLOSE]]);
                lemma_print_concat(seq![seq![OPEN]], inner);
            }
            if braces {
                let open: [u8; 1] = [OPEN];
                assert(open@ == seq![OPEN]);
                write_raw(out, open.as_slice());
            }
            let ghost opened = out@;
            let n: usize = elements.len();
            let mut i: usize = 0;
            assert(views.skip(0) == views);
            while i < n
                invariant
                    i <= n,
                    n == elements.len(),
                    *node == Node::Array(*elements),
                    views == node_views(elements@),
                    opened + print(item_lexemes(views)) == out@ + print(
                        item_lexemes(views.skip(i as int)),
                    ),
                decreases n - i,
            {
                let ghost rest = views.skip(i as int);
                proof {
                    assert(rest[0] == views[i as int]);
                    assert(rest.skip(1) == views.skip(i + 1));
                    lemma_print_concat(lexemes(rest[0]), item_lexemes(rest.skip(1)));
                }
                assert(node->Array_0 == *elements);
                write_node(&elements[i], out, true);
                i += 1;
            }
            assert(views.skip(n as int).len() == 0);
            assert(out@ == opened + print(inner));
            if braces {
                let close: [u8; 1] = [CLOSE];
                assert(close@ == seq![CLOSE]);
                write_raw(out, close.as_slice());
            }
        },
    }
}

/// Writes a root node as save text: its members or items, one token after
/// the other, each followed by a space.
pub fn serialize(node: &Node) -> (r: Vec<u8>)
    ensures
        r@ == encode(node@),
{
    let mut out: Vec<u8> = Vec::new();
    write_node(node, &mut out, false);
    out
}

} // verus!
