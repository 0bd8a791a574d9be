//! Looking keys up among the members of an object.

use crate::error::Field;
use crate::lexer::QUOTE;
use crate::tree::{lemma_array_view, lemma_object_view, member_views, Node, Tree};
use vstd::prelude::*;
use vstd::slice::slice_subrange;

verus! {

/// Whether the raw text stands between double quotes.
pub open spec fn has_quotes(raw: Seq<u8>) -> bool {
    raw.len() >= 2 && raw[0] == QUOTE && raw[raw.len() - 1] == QUOTE
}

/// The text that a raw token text stands for: what is between the quotes of
/// a quoted string, any other text as it is.
pub open spec fn text_of(raw: Seq<u8>) -> Seq<u8> {
    if has_quotes(raw) {
        raw.subrange(1, raw.len() - 1)
    } else {
        raw
    }
}

/// Takes the quotes off a raw token text.
pub fn unquote(raw: &[u8]) -> (r: &[u8])
    ensures
        r@ == text_of(raw@),
{
    let n: usize = raw.len();
    if n >= 2 && raw[0] == QUOTE && raw[n - 1] == QUOTE {
        slice_subrange(raw, 1, n - 1)
    } else {
        raw
    }
}

/// Whether two byte strings are equal.
pub fn bytes_eq(a: &[u8], b: &[u8]) -> (r: bool)
    ensures
        r == (a@ == b@),
{
    if a.len() != b.len() {
        return false;
    }
    let mut i: usize = 0;
    while i < a.len()
        invariant
            i <= a.len(),
            a.len() == b.len(),
            forall|k: int| 0 <= k < i ==> a@[k] == b@[k],
        decreases a.len() - i,
    {
        if a[i] != b[i] {
            return false;
        }
        i += 1;
    }
    assert(a@ =~= b@);
    true
}

/// The values of the members whose key reads `name`, in order.
pub open spec fn values_of(entries: Seq<(Seq<u8>, Tree)>, name: Seq<u8>) -> Seq<Tree>
    decreases entries.len(),
{
    if entries.len() == 0 {
        Seq::empty()
    } else if entries[0].0.len() > 0 && text_of(entries[0].0) == name {
        seq![entries[0].1] + values_of(entries.skip(1), name)
    } else {
        values_of(entries.skip(1), name)
    }
}

/// The views of a sequence of borrowed nodes, in order.
pub open spec fn borrowed_views(nodes: Seq<&Node>) -> Seq<Tree> {
    Seq::new(nodes.len(), |i: int| nodes[i]@)
}

/// Collects the values of the members whose key reads `name`.
pub fn collect_values<'a>(entries: &'a Vec<(Vec<u8>, Node)>, name: &[u8]) -> (r: Vec<&'a Node>)
    ensures
        borrowed_views(r@) == values_of(member_views(entries@), name@),
{
    let ghost all = member_views(entries@);
    let mut out: Vec<&'a Node> = Vec::new();
    let mut i: usize = 0;
    assert(all.skip(0) == all);
    assert(borrowed_views(out@) + values_of(all, name@) == values_of(all, name@));
    while i < entries.len()
        invariant
            i <= entries.len(),
            all == member_views(entries@),
            values_of(all, name@) == borrowed_views(out@) + values_of(all.skip(i as int), name@),
        decreases entries.len() - i,
    {
        let ghost before = borrowed_views(out@);
        let ghost rest = all.skip(i as int);
        assert(rest[0] == all[i as int]);
        assert(rest.skip(1) == all.skip(i + 1));
        let key: &[u8] = entries[i].0.as_slice();
        if key.len() > 0 && bytes_eq(unquote(key), name) {
            out.push(&entries[i].1);
            assert(borrowed_views(out@) == before + seq![rest[0].1]);
            assert(before + (seq![rest[0].1] + values_of(rest.skip(1), name@)) == borrowed_views(
                out@,
            ) + values_of(rest.skip(1), name@));
        }
        i += 1;
    }
    assert(all.skip(entries.len() as int).len() == 0);
    assert(borrowed_views(out@) + Seq::<Tree>::empty() == borrowed_views(out@));
    out
}

/// How often a key stands among the members of an object, and with what
/// value where it stands once.
pub enum Occurrence {
    Absent,
    One(Tree),
    Repeated,
}

/// How often the key `name` stands among the members.
pub open spec fn occurrence(entries: Seq<(Seq<u8>, Tree)>, name: Seq<u8>) -> Occurrence {
    let found = values_of(entries, name);
    if found.len() == 0 {
        Occurrence::Absent
    } else if found.len() == 1 {
        Occurrence::One(found[0])
    } else {
        Occurrence::Repeated
    }
}

/// What a lookup of one key among the members of an object finds.
pub enum Found<'a> {
    Absent,
    One(&'a Node),
    Repeated,
}

/// Looks one field up among the members of an object.
pub fn find_field<'a>(entries: &'a Vec<(Vec<u8>, Node)>, field: Field) -> (r: Found<'a>)
    ensures
        match occurrence(member_views(entries@), field.key()) {
            Occurrence::Absent => r is Absent,
            Occurrence::One(t) => r matches Found::One(node) && node@ == t,
            Occurrence::Repeated => r is Repeated,
        },
{
    let found: Vec<&'a Node> = collect_values(entries, field.name().as_bytes());
    if found.len() == 0 {
        Found::Absent
    } else if found.len() == 1 {
        assert(borrowed_views(found@)[0] == found@[0]@);
        Found::One(found[0])
    } else {
        Found::Repeated
    }
}

/// The members of a node that is an object. A group without content counts
/// as an object without members.
pub open spec fn members_of(t: Tree) -> Option<Seq<(Seq<u8>, Tree)>> {
    match t {
        Tree::Object(entries) => Some(entries),
        Tree::Array(elements) => if elements.len() == 0 {
            Some(Seq::empty())
        } else {
            None
        },
        Tree::Scalar(_) => None,
    }
}

/// The members of a node that is an object, or `None` for any other node.
/// `empty` stands in for the members of a group without content.
pub(crate) fn node_members<'a>(node: &'a Node, empty: &'a Vec<(Vec<u8>, Node)>) -> (r: Option<
    &'a Vec<(Vec<u8>, Node)>,
>)
    requires
        empty@.len() == 0,
    ensures
        match members_of(node@) {
            Some(entries) => r matches Some(found) && member_views(found@) == entries,
            None => r is None,
        },
{
    match node {
        Node::Object(entries) => {
            proof {
                lemma_object_view(*node);
            }
            Some(entries)
        },
        Node::Array(elements) => {
            proof {
                lemma_array_view(*node);
            }
            if elements.len() == 0 {
                assert(member_views(empty@) =~= Seq::empty());
                Some(empty)
            } else {
                None
            }
        },
        Node::Scalar(_) => None,
    }
}

} // verus!
