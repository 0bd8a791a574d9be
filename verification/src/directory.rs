//! The character directory: display names by character number.
//!
//! A save keeps the names of its characters in a database of its own, apart
//! from the records that refer to a character by number. The directory is
//! built once, by a scan of the whole tree, and only read after that.

use crate::error::Field;
use crate::model::opt_text;
use crate::schema::convert::{as_integer, as_text, node_integer, node_text};
use crate::schema::lookup::{
    bytes_eq, find_field, members_of, node_members, occurrence, text_of, unquote, Found,
    Occurrence,
};
use crate::tree::{lemma_array_view, lemma_object_view, member_views, node_views, Node, Tree};
use std::collections::HashMap;
use vstd::prelude::*;
use vstd::slice::slice_to_vec;
use vstd::std_specs::hash::*;

verus! {

broadcast use group_hash_axioms;

/// Display names of characters, by character number.
pub struct CharacterDirectory {
    names: HashMap<i32, Vec<u8>>,
}

impl View for CharacterDirectory {
    type V = Map<i32, Seq<u8>>;

    closed spec fn view(&self) -> Map<i32, Seq<u8>> {
        Map::new(|id: i32| self.names@.contains_key(id), |id: i32| self.names@[id]@)
    }
}

impl CharacterDirectory {
    /// A directory that knows no character.
    pub fn new() -> (r: CharacterDirectory)
        ensures
            r@ == Map::<i32, Seq<u8>>::empty(),
    {
        let r = CharacterDirectory { names: HashMap::new() };
        assert(r@ =~= Map::<i32, Seq<u8>>::empty());
        r
    }

    /// Records the name of a character. A name recorded before for the same
    /// number is replaced.
    pub fn insert(&mut self, id: i32, name: Vec<u8>)
        ensures
            final(self)@ == old(self)@.insert(id, name@),
    {
        self.names.insert(id, name);
        assert(self@ =~= old(self)@.insert(id, name@));
    }

    /// The name of a character, or `None` where the directory does not know
    /// the number.
    pub fn lookup(&self, id: i32) -> (r: Option<Vec<u8>>)
        ensures
            opt_text(r) == if self@.contains_key(id) {
                Some(self@[id])
            } else {
                None::<Seq<u8>>
            },
    {
        match self.names.get(&id) {
            Some(name) => Some(slice_to_vec(name.as_slice())),
            None => None,
        }
    }

    /// Whether the directory knows the number.
    pub fn contains(&self, id: i32) -> (r: bool)
        ensures
            r == self@.contains_key(id),
    {
        self.names.contains_key(&id)
    }

    /// The number of characters that the directory knows.
    pub fn len(&self) -> (r: usize)
        ensures
            r == self@.dom().len(),
    {
        assert(self@.dom() =~= self.names@.dom());
        self.names.len()
    }
}

/// The number and the name of a character that an entry of the database
/// holds: the entry is an object whose `id` is an object with a whole number
/// `id`, and whose `name` is a text. Any other node holds none.
pub open spec fn database_entry(t: Tree) -> Option<(i32, Seq<u8>)> {
    match members_of(t) {
        None => None,
        Some(entries) => match (
            occurrence(entries, Field::Id.key()),
            occurrence(entries, Field::Name.key()),
        ) {
            (Occurrence::One(id), Occurrence::One(name)) => match (members_of(id), as_text(name)) {
                (Some(inner), Some(text)) => match occurrence(inner, Field::Id.key()) {
                    Occurrence::One(number) => match as_integer(number) {
                        Some(n) => Some((n, text)),
                        None => None,
                    },
                    _ => None,
                },
                _ => None,
            },
            _ => None,
        },
    }
}

/// The directory after a scan of a node and all that is below it, started
/// with the directory `known`. Every member with the key `character` that is
/// an entry of the database is recorded, in the order of the save; a later
/// entry for a number replaces an earlier one.
pub open spec fn scanned(t: Tree, known: Map<i32, Seq<u8>>) -> Map<i32, Seq<u8>>
    decreases t,
{
    match t {
        Tree::Scalar(_) => known,
        Tree::Array(elements) => scanned_items(elements, known),
        Tree::Object(entries) => scanned_members(entries, known),
    }
}

/// The directory after a scan of the items of an array.
pub open spec fn scanned_items(elements: Seq<Tree>, known: Map<i32, Seq<u8>>) -> Map<
    i32,
    Seq<u8>,
>
    decreases elements,
{
    if elements.len() == 0 {
        known
    } else {
        scanned_items(elements.skip(1), scanned(elements[0], known))
    }
}

/// The directory after one member has been looked at, before the scan goes
/// below it.
pub open spec fn recorded(entry: (Seq<u8>, Tree), known: Map<i32, Seq<u8>>) -> Map<i32, Seq<u8>> {
    if entry.0.len() > 0 && text_of(entry.0) == Field::Character.key() {
        match database_entry(entry.1) {
            Some((id, name)) => known.insert(id, name),
            None => known,
        }
    } else {
        known
    }
}

/// The directory after a scan of the members of an object.
pub open spec fn scanned_members(entries: Seq<(Seq<u8>, Tree)>, known: Map<i32, Seq<u8>>) -> Map<
    i32,
    Seq<u8>,
>
    decreases entries,
{
    if entries.len() == 0 {
        known
    } else {
        scanned_members(entries.skip(1), scanned(entries[0].1, recorded(entries[0], known)))
    }
}

/// Reads a node as an entry of the character database.
pub fn read_database_entry(node: &Node) -> (r: Option<(i32, Vec<u8>)>)
    ensures
        match database_entry(node@) {
            Some((id, name)) => r matches Some(found) && found.0 == id && found.1@ == name,
            None => r is None,
        },
{
    let empty: Vec<(Vec<u8>, Node)> = Vec::new();
    let entries: &Vec<(Vec<u8>, Node)> = match node_members(node, &empty) {
        None => {
            return None;
        },
        Some(entries) => entries,
    };
    let id: &Node = match find_field(entries, Field::Id) {
        Found::One(id) => id,
        _ => {
            return None;
        },
    };
    let name: &Node = match find_field(entries, Field::Name) {
        Found::One(name) => name,
        _ => {
            return None;
        },
    };
    let inner: &Vec<(Vec<u8>, Node)> = match node_members(id, &empty) {
        None => {
            return None;
        },
        Some(inner) => inner,
    };
    let text: Vec<u8> = match node_text(name) {
        None => {
            return None;
        },
        Some(text) => text,
    };
    let number: &Node = match find_field(inner, Field::Id) {
        Found::One(number) => number,
        _ => {
            return None;
        },
    };
    match node_integer(number) {
        Some(n) => Some((n, text)),
        None => None,
    }
}

/// Scans a node and all that is below it for entries of the character
/// database, and records them in the directory.
pub fn scan_characters(node: &Node, directory: &mut CharacterDirectory)
    ensures
        final(directory)@ == scanned(node@, old(directory)@),
    decreases node,
{
    match node {
        Node::Scalar(_) => {},
        Node::Array(elements) => {
            let ghost all = node_views(elements@);
            proof {
                lemma_array_view(*node);
            }
            let mut i: usize = 0;
            assert(all.skip(0) == all);
            while i < elements.len()
                invariant
                    i <= elements.len(),
                    *node == Node::Array(*elements),
                    all == node_views(elements@),
                    scanned_items(all, old(directory)@) == scanned_items(
                        all.skip(i as int),
                        directory@,
                    ),
                decreases elements.len() - i,
            {
                let ghost rest = all.skip(i as int);
                assert(rest[0] == all[i as int]);
                assert(rest.skip(1) == all.skip(i + 1));
                assert(node->Array_0 == *elements);
                scan_characters(&elements[i], directory);
                i += 1;
            }
            assert(all.skip(elements.len() as int).len() == 0);
        },
        Node::Object(entries) => {
            let ghost all = member_views(entries@);
            proof {
                lemma_object_view(*node);
            }
            let mut i: usize = 0;
            assert(all.skip(0) == all);
            while i < entries.len()
                invariant
                    i <= entries.len(),
                    *node == Node::Object(*entries),
                    all == member_views(entries@),
                    scanned_members(all, old(directory)@) == scanned_members(
                        all.skip(i as int),
                        directory@,
                    ),
                decreases entries.len() - i,
            {
                let ghost rest = all.skip(i as int);
                assert(rest[0] == all[i as int]);
                assert(rest.skip(1) == all.skip(i + 1));
                assert(node->Object_0 == *entries);
                let key: &[u8] = entries[i].0.as_slice();
                if key.len() > 0 && bytes_eq(unquote(key), Field::Character.name().as_bytes()) {
                    match read_database_entry(&entries[i].1) {
                        Some((id, name)) => {
                            directory.insert(id, name);
                        },
                        None => {},
                    }
                }
                scan_characters(&entries[i].1, directory);
                i += 1;
            }
            assert(all.skip(entries.len() as int).len() == 0);
        },
    }
}

/// Builds the character directory of a save from its root node.
pub fn build_directory(root: &Node) -> (r: CharacterDirectory)
    ensures
        r@ == scanned(root@, Map::empty()),
{
    let mut directory = CharacterDirectory::new();
    scan_characters(root, &mut directory);
    directory
}

} // verus!
