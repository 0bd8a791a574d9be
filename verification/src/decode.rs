//! Decoding save bytes in one step: tokens first, then the tree.

use crate::builder::{build, build_spec, DEFAULT_DEPTH_LIMIT};
use crate::error::DecodeError;
use crate::lexer::{tokenize, tokenize_spec};
use crate::directory::{build_directory, scanned, CharacterDirectory};
use crate::model::{EnhancedHoi4Save, EnhancedHoi4SaveView, tags_of};
use crate::reconcile::{attach_names, named_save};
use crate::schema::fields::{agrees};
use crate::schema::records::{resolve_save, save_spec};
use crate::tree::{Node, Tree};
use vstd::prelude::*;
use vstd::string::StringSliceAdditionalSpecFns;

verus! {

/// The tree that an input decodes to, or the first error: a lexical error
/// before an unbalanced brace, and that before a group nested too deep.
pub open spec fn decode_spec(input: Seq<u8>, limit: int) -> Result<Tree, DecodeError> {
    match tokenize_spec(input) {
        Err(error) => Err(error),
        Ok(tokens) => build_spec(tokens, limit),
    }
}

/// Decodes save bytes into a tree, allowing groups nested up to `limit` deep.
pub fn parse_with_limit(input: &[u8], limit: usize) -> (r: Result<Node, DecodeError>)
    ensures
        match decode_spec(input@, limit as int) {
            Ok(tree) => r matches Ok(node) && node@ == tree,
            Err(error) => r matches Err(e) && e == error,
        },
{
    match tokenize(input) {
        Err(error) => Err(error),
        Ok(tokens) => build(&tokens, limit),
    }
}

/// Decodes save bytes into a tree, allowing groups nested up to 512 deep.
pub fn parse(input: &[u8]) -> (r: Result<Node, DecodeError>)
    ensures
        match decode_spec(input@, DEFAULT_DEPTH_LIMIT as int) {
            Ok(tree) => r matches Ok(node) && node@ == tree,
            Err(error) => r matches Err(e) && e == error,
        },
{
    parse_with_limit(input, DEFAULT_DEPTH_LIMIT)
}

/// The save that an input decodes to: its tree, resolved into typed
/// records, every character with the name that the character database of the
/// same tree knows for its number.
pub open spec fn decoded_save(input: Seq<u8>, limit: int) -> Result<
    EnhancedHoi4SaveView,
    DecodeError,
> {
    match decode_spec(input, limit) {
        Err(error) => Err(error),
        Ok(tree) => match save_spec(tree) {
            Err(error) => Err(error),
            Ok(save) => Ok(named_save(save, scanned(tree, Map::empty()))),
        },
    }
}

/// Attaching names keeps a save well formed.
pub proof fn lemma_named_save_wf(save: EnhancedHoi4SaveView, names: Map<i32, Seq<u8>>)
    requires
        save.wf(),
    ensures
        named_save(save, names).wf(),
{
    let named = named_save(save, names);
    assert(tags_of(named.countries) =~= tags_of(save.countries));
    assert forall|i: int| 0 <= i < named.countries.len() implies (
    #[trigger] named.countries[i]).0.wf() && named.countries[i].1.wf() by {
        assert(save.countries[i].0.wf() && save.countries[i].1.wf());
    }
}

/// Decodes a save in one pass: tokens, tree, typed records, and the names
/// of the characters. Groups may be nested up to `limit` deep. Any error is
/// fatal for this input and no part of a save is given back.
pub fn decode_save_with_limit(input: &[u8], limit: usize) -> (r: Result<
    EnhancedHoi4Save,
    DecodeError,
>)
    ensures
        agrees(r, decoded_save(input@, limit as int)),
        r matches Ok(save) ==> save@.wf(),
{
    let root: Node = match parse_with_limit(input, limit) {
        Err(error) => {
            return Err(error);
        },
        Ok(root) => root,
    };
    let save: EnhancedHoi4Save = match resolve_save(&root) {
        Err(error) => {
            return Err(error);
        },
        Ok(save) => save,
    };
    let directory: CharacterDirectory = build_directory(&root);
    proof {
        lemma_named_save_wf(save@, directory@);
    }
    Ok(attach_names(save, &directory))
}

/// Decodes a save in one pass, allowing groups nested up to 512 deep.
pub fn decode_save(input: &[u8]) -> (r: Result<EnhancedHoi4Save, DecodeError>)
    ensures
        agrees(r, decoded_save(input@, DEFAULT_DEPTH_LIMIT as int)),
        r matches Ok(save) ==> save@.wf(),
{
    decode_save_with_limit(input, DEFAULT_DEPTH_LIMIT)
}

/// How a save file is encoded.
#[derive(Clone, Copy, Debug, PartialEq, Eq, Structural)]
pub enum Encoding {
    /// Text, which this crate decodes.
    Plaintext,
    /// The binary format of the game.
    Binary,
}

/// Whether the data begins with the given bytes.
pub open spec fn has_prefix(data: Seq<u8>, prefix: Seq<u8>) -> bool {
    data.len() >= prefix.len() && data.subrange(0, prefix.len() as int) == prefix
}

/// The encoding that the head of a save file names: text where the file
/// begins with `HOI4txt`, binary where it begins with `HOI4bin`, and none
/// for any other file.
pub open spec fn encoding_of(data: Seq<u8>) -> Option<Encoding> {
    if has_prefix(data, "HOI4txt".spec_bytes()) {
        Some(Encoding::Plaintext)
    } else if has_prefix(data, "HOI4bin".spec_bytes()) {
        Some(Encoding::Binary)
    } else {
        None
    }
}

/// Calls `hoi4save::Hoi4File::from_slice` and asks the file it gives for its
/// encoding. `from_slice` reads the first seven bytes alone: it takes
/// `HOI4txt` for a text save and `HOI4bin` for a binary one, and fails on
/// anything else, a shorter input included.
#[verifier::external_body]
fn file_encoding(data: &[u8]) -> (r: Option<Encoding>)
    ensures
        r == encoding_of(data@),
{
    match hoi4save::Hoi4File::from_slice(data) {
        Ok(file) => match file.encoding() {
            hoi4save::Encoding::Plaintext => Some(Encoding::Plaintext),
            hoi4save::Encoding::Binary => Some(Encoding::Binary),
        },
        Err(_) => None,
    }
}

/// Decodes a save file that its head names a text save. `None` where the
/// file does not begin with `HOI4txt`, and so is a binary save or no save at
/// all; else the outcome of decoding the whole file, its head included.
pub fn decode_text_save(data: &[u8]) -> (r: Option<Result<EnhancedHoi4Save, DecodeError>>)
    ensures
        match encoding_of(data@) {
            Some(Encoding::Plaintext) => r matches Some(outcome) && agrees(
                outcome,
                decoded_save(data@, DEFAULT_DEPTH_LIMIT as int),
            ) && (outcome matches Ok(save) ==> save@.wf()),
            _ => r is None,
        },
{
    match file_encoding(data) {
        Some(Encoding::Plaintext) => Some(decode_save(data)),
        _ => None,
    }
}

} // verus!
