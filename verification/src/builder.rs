//! The structure builder: a token sequence to one root node.
//!
//! Braces delimit groups. Inside a group, and at the top level, a scalar
//! followed by `=` and a value is a member with a key; anything else is a
//! member without one. A group that holds at least one key is an object, any
//! other is an array. Nothing of the token sequence is dropped or merged.

use crate::error::DecodeError;
use crate::lexer::{is_punct, raws, token_views, Token, TokenView, CLOSE, EQUALS, OPEN};
use crate::tree::{lemma_array_view, lemma_object_view, member_views, node_views, Node, Tree};
use vstd::prelude::*;
use vstd::slice::slice_to_vec;

verus! {

/// The nesting depth that [`crate::decode::parse`] allows.
pub const DEFAULT_DEPTH_LIMIT: usize = 512;

/// The raw texts of a sequence of tokens, in order.
pub open spec fn token_raws(tokens: Seq<Token>) -> Seq<Seq<u8>> {
    Seq::new(tokens.len(), |i: int| tokens[i].raw@)
}

/// The raw texts of tokens are the raw texts of their views.
pub proof fn lemma_token_raws(tokens: Seq<Token>)
    ensures
        raws(token_views(tokens)) == token_raws(tokens),
{
    assert(raws(token_views(tokens)) =~= token_raws(tokens));
}

/// Whether the raw text is `{`.
pub open spec fn is_open(raw: Seq<u8>) -> bool {
    raw.len() == 1 && raw[0] == OPEN
}

/// Whether the raw text is `}`.
pub open spec fn is_close(raw: Seq<u8>) -> bool {
    raw.len() == 1 && raw[0] == CLOSE
}

/// Whether the raw text is `=`.
pub open spec fn is_equals(raw: Seq<u8>) -> bool {
    raw.len() == 1 && raw[0] == EQUALS
}

/// Whether the raw text is one of `=`, `{`, `}`.
pub open spec fn is_mark(raw: Seq<u8>) -> bool {
    raw.len() == 1 && is_punct(raw[0])
}

/// What a token does to the nesting depth.
pub open spec fn step(raw: Seq<u8>) -> int {
    if is_open(raw) {
        1
    } else if is_close(raw) {
        -1
    } else {
        0
    }
}

/// The number of `{` less the number of `}` among the tokens from `lo` up to,
/// not including, `hi`.
pub open spec fn net(raws: Seq<Seq<u8>>, lo: int, hi: int) -> int
    decreases hi - lo,
{
    if lo >= hi {
        0
    } else {
        net(raws, lo, hi - 1) + step(raws[hi - 1])
    }
}

/// Every `}` closes a group that is open, and at the end none is left open.
pub open spec fn balanced(raws: Seq<Seq<u8>>) -> bool {
    &&& forall|j: int| 0 <= j <= raws.len() ==> net(raws, 0, j) >= 0
    &&& net(raws, 0, raws.len() as int) == 0
}

/// Token `k` is the first brace without a partner: either a `}` that closes
/// nothing, or, where there is no such `}`, the outermost `{` that is still
/// open at the end.
pub open spec fn is_first_unmatched(raws: Seq<Seq<u8>>, k: int) -> bool {
    &&& 0 <= k < raws.len()
    &&& forall|j: int| 0 <= j <= k ==> net(raws, 0, j) >= 0
    &&& {
        ||| net(raws, 0, k + 1) < 0
        ||| {
            &&& net(raws, 0, k) == 0
            &&& forall|j: int| k < j <= raws.len() ==> net(raws, 0, j) > 0
        }
    }
}

/// The index of the first brace without a partner.
pub open spec fn first_unmatched(raws: Seq<Seq<u8>>) -> int {
    choose|k: int| is_first_unmatched(raws, k)
}

/// Some group is nested deeper than `limit`.
pub open spec fn too_deep(raws: Seq<Seq<u8>>, limit: int) -> bool {
    exists|j: int| 0 <= j <= raws.len() && net(raws, 0, j) > limit
}

/// Token `k` is the first `{` that opens a group nested deeper than `limit`.
pub open spec fn is_first_too_deep(raws: Seq<Seq<u8>>, limit: int, k: int) -> bool {
    &&& 0 <= k < raws.len()
    &&& net(raws, 0, k + 1) > limit
    &&& forall|j: int| 0 <= j <= k ==> net(raws, 0, j) <= limit
}

/// The index of the first `{` that opens a group nested deeper than `limit`.
pub open spec fn first_too_deep(raws: Seq<Seq<u8>>, limit: int) -> int {
    choose|k: int| is_first_too_deep(raws, limit, k)
}

/// What is wrong with the braces of a token sequence, if anything: a brace
/// without a partner comes before a group that is nested too deep.
pub open spec fn brace_error(tokens: Seq<TokenView>, limit: int) -> Option<DecodeError> {
    let texts = raws(tokens);
    if !balanced(texts) {
        Some(
            DecodeError::UnbalancedBraces {
                offset: tokens[first_unmatched(texts)].offset as usize,
            },
        )
    } else if too_deep(texts, limit) {
        Some(
            DecodeError::DepthExceeded {
                offset: tokens[first_too_deep(texts, limit)].offset as usize,
            },
        )
    } else {
        None
    }
}

/// The first position at or after `j` by which as many groups have been
/// closed as were opened from `open` on, or the number of tokens if there is
/// none.
pub open spec fn close_from(raws: Seq<Seq<u8>>, open: int, j: int) -> int
    decreases raws.len() - j,
{
    if j < 0 || j >= raws.len() {
        raws.len() as int
    } else if net(raws, open, j + 1) <= 0 {
        j
    } else {
        close_from(raws, open, j + 1)
    }
}

/// The position of the `}` that closes the `{` at position `open`.
pub open spec fn matching_close(raws: Seq<Seq<u8>>, open: int) -> int {
    close_from(raws, open, open + 1)
}

/// Whether the item can be the key of a member: a scalar other than
/// punctuation.
pub open spec fn is_key(t: Tree) -> bool {
    t matches Tree::Scalar(raw) && raw.len() > 0 && !is_mark(raw)
}

/// Whether the item is a lone `=`.
pub open spec fn is_eq(t: Tree) -> bool {
    t matches Tree::Scalar(raw) && is_equals(raw)
}

/// Whether the item can be the value of a member: a group, or a scalar other
/// than punctuation.
pub open spec fn is_value(t: Tree) -> bool {
    !(t matches Tree::Scalar(raw) && is_mark(raw))
}

/// Whether the items begin with a key, a `=` and a value.
pub open spec fn starts_pair(flat: Seq<Tree>) -> bool {
    flat.len() >= 3 && is_key(flat[0]) && is_eq(flat[1]) && is_value(flat[2])
}

/// The members that a sequence of items makes, pairing greedily from the
/// left. A member without a key carries the empty key.
pub open spec fn members(flat: Seq<Tree>) -> Seq<(Seq<u8>, Tree)>
    decreases flat.len(),
{
    if flat.len() == 0 {
        Seq::empty()
    } else if starts_pair(flat) {
        seq![(flat[0]->Scalar_0, flat[2])] + members(flat.skip(3))
    } else {
        seq![(Seq::empty(), flat[0])] + members(flat.skip(1))
    }
}

/// Whether some member carries a key.
pub open spec fn has_key(entries: Seq<(Seq<u8>, Tree)>) -> bool {
    exists|k: int| 0 <= k < entries.len() && (#[trigger] entries[k]).0.len() > 0
}

/// The node that a group with these items is: an object if any member has a
/// key, else an array.
pub open spec fn group(flat: Seq<Tree>) -> Tree {
    if has_key(members(flat)) {
        Tree::Object(members(flat))
    } else {
        Tree::Array(flat)
    }
}

/// The items that the tokens from `lo` up to, not including, `hi` make: each
/// scalar token is an item, and so is each braced group.
pub open spec fn items(raws: Seq<Seq<u8>>, lo: int, hi: int) -> Seq<Tree>
    decreases hi - lo,
{
    if lo >= hi {
        Seq::empty()
    } else if is_open(raws[lo]) {
        let close = matching_close(raws, lo);
        if lo < close < hi {
            seq![group(items(raws, lo + 1, close))] + items(raws, close + 1, hi)
        } else {
            seq![group(items(raws, lo + 1, hi))]
        }
    } else {
        seq![Tree::Scalar(raws[lo])] + items(raws, lo + 1, hi)
    }
}

/// The root node of a token sequence.
pub open spec fn root(raws: Seq<Seq<u8>>) -> Tree {
    group(items(raws, 0, raws.len() as int))
}

/// The outcome of building a token sequence with a depth limit.
pub open spec fn build_spec(tokens: Seq<TokenView>, limit: int) -> Result<Tree, DecodeError> {
    match brace_error(tokens, limit) {
        Some(error) => Err(error),
        None => Ok(root(raws(tokens))),
    }
}

/// At most one token is the first brace without a partner.
pub proof fn lemma_first_unmatched_unique(raws: Seq<Seq<u8>>, a: int, b: int)
    requires
        is_first_unmatched(raws, a),
        is_first_unmatched(raws, b),
    ensures
        a == b,
{
    if a < b {
        assert(net(raws, 0, a + 1) >= 0);
        assert(net(raws, 0, b) > 0);
    } else if b < a {
        assert(net(raws, 0, b + 1) >= 0);
        assert(net(raws, 0, a) > 0);
    }
}

/// A sequence with a brace that has no partner is not balanced, and that
/// brace is the one [`first_unmatched`] names.
pub proof fn lemma_first_unmatched(raws: Seq<Seq<u8>>, k: int)
    requires
        is_first_unmatched(raws, k),
    ensures
        !balanced(raws),
        first_unmatched(raws) == k,
{
    lemma_first_unmatched_unique(raws, k, first_unmatched(raws));
    if net(raws, 0, k + 1) >= 0 {
        assert(net(raws, 0, raws.len() as int) > 0);
    }
}

/// A sequence with a group that is nested too deep is too deep, and the brace
/// that opens the group is the one [`first_too_deep`] names.
pub proof fn lemma_first_too_deep(raws: Seq<Seq<u8>>, limit: int, k: int)
    requires
        is_first_too_deep(raws, limit, k),
    ensures
        too_deep(raws, limit),
        first_too_deep(raws, limit) == k,
{
    let other = first_too_deep(raws, limit);
    if other < k {
        assert(net(raws, 0, other + 1) <= limit);
    } else if k < other {
        assert(net(raws, 0, k + 1) <= limit);
    }
}

/// Whether the token is `{`.
pub fn token_is_open(token: &Token) -> (r: bool)
    ensures
        r == is_open(token.raw@),
{
    token.raw.len() == 1 && token.raw[0] == OPEN
}

/// Whether the token is `}`.
pub fn token_is_close(token: &Token) -> (r: bool)
    ensures
        r == is_close(token.raw@),
{
    token.raw.len() == 1 && token.raw[0] == CLOSE
}

/// Checks the braces of a token sequence: each must have its partner, and no
/// group may be nested deeper than `limit`.
pub fn check_braces(tokens: &Vec<Token>, limit: usize) -> (r: Option<DecodeError>)
    ensures
        r == brace_error(token_views(tokens@), limit as int),
{
    let n: usize = tokens.len();
    let ghost raws = token_raws(tokens@);
    proof {
        lemma_token_raws(tokens@);
    }
    let mut depth: usize = 0;
    let mut outer: usize = 0;
    let mut i: usize = 0;
    while i < n
        invariant
            i <= n,
            n == tokens.len(),
            raws == token_raws(tokens@),
            depth == net(raws, 0, i as int),
            depth <= i,
            forall|j: int| 0 <= j <= i ==> net(raws, 0, j) >= 0,
            depth > 0 ==> outer < i && net(raws, 0, outer as int) == 0 && forall|j: int|
                outer < j <= i ==> net(raws, 0, j) > 0,
        decreases n - i,
    {
        assert(raws[i as int] == tokens[i as int].raw@);
        if token_is_open(&tokens[i]) {
            if depth == 0 {
                outer = i;
            }
            depth += 1;
        } else if token_is_close(&tokens[i]) {
            if depth == 0 {
                proof {
                    lemma_first_unmatched(raws, i as int);
                    lemma_token_raws(tokens@);
                    assert(token_views(tokens@)[i as int] == tokens@[i as int]@);
                }
                return Some(DecodeError::UnbalancedBraces { offset: tokens[i].offset });
            }
            depth -= 1;
        }
        i += 1;
    }
    if depth > 0 {
        proof {
            lemma_first_unmatched(raws, outer as int);
            assert(token_views(tokens@)[outer as int] == tokens@[outer as int]@);
        }
        return Some(DecodeError::UnbalancedBraces { offset: tokens[outer].offset });
    }
    assert(balanced(raws));
    depth = 0;
    i = 0;
    while i < n
        invariant
            i <= n,
            n == tokens.len(),
            raws == token_raws(tokens@),
            balanced(raws),
            depth == net(raws, 0, i as int),
            depth <= i,
            forall|j: int| 0 <= j <= i ==> net(raws, 0, j) <= limit,
        decreases n - i,
    {
        assert(raws[i as int] == tokens[i as int].raw@);
        assert(net(raws, 0, i + 1) >= 0);
        if token_is_open(&tokens[i]) {
            if depth >= limit {
                proof {
                    lemma_first_too_deep(raws, limit as int, i as int);
                    lemma_token_raws(tokens@);
                    assert(token_views(tokens@)[i as int] == tokens@[i as int]@);
                }
                return Some(DecodeError::DepthExceeded { offset: tokens[i].offset });
            }
            depth += 1;
        } else if token_is_close(&tokens[i]) {
            depth -= 1;
        }
        i += 1;
    }
    None
}

/// Finds the `}` that closes the `{` at position `open`, or the number of
/// tokens if it is never closed.
pub fn find_close(tokens: &Vec<Token>, open: usize) -> (r: usize)
    requires
        open < tokens.len(),
        is_open(tokens[open as int].raw@),
    ensures
        r == matching_close(token_raws(tokens@), open as int),
        open < r <= tokens.len(),
{
    let n: usize = tokens.len();
    let ghost raws = token_raws(tokens@);
    let mut depth: usize = 1;
    let mut j: usize = open + 1;
    assert(net(raws, open as int, open as int) == 0);
    while j < n
        invariant
            open < j <= n,
            n == tokens.len(),
            raws == token_raws(tokens@),
            depth >= 1,
            depth <= j - open,
            depth == net(raws, open as int, j as int),
            matching_close(raws, open as int) == close_from(raws, open as int, j as int),
        decreases n - j,
    {
        assert(raws[j as int] == tokens[j as int].raw@);
        if token_is_open(&tokens[j]) {
            depth += 1;
        } else if token_is_close(&tokens[j]) {
            depth -= 1;
            if depth == 0 {
                return j;
            }
        }
        j += 1;
    }
    n
}

/// Whether the node can be the key of a member.
pub fn node_is_key(node: &Node) -> (r: bool)
    ensures
        r == is_key(node@),
{
    match node {
        Node::Scalar(raw) => raw.len() > 0 && !(raw.len() == 1 && (raw[0] == EQUALS || raw[0]
            == OPEN || raw[0] == CLOSE)),
        _ => false,
    }
}

/// Whether the node is a lone `=`.
pub fn node_is_eq(node: &Node) -> (r: bool)
    ensures
        r == is_eq(node@),
{
    match node {
        Node::Scalar(raw) => raw.len() == 1 && raw[0] == EQUALS,
        _ => false,
    }
}

/// Whether the node can be the value of a member.
pub fn node_is_value(node: &Node) -> (r: bool)
    ensures
        r == is_value(node@),
{
    match node {
        Node::Scalar(raw) => !(raw.len() == 1 && (raw[0] == EQUALS || raw[0] == OPEN || raw[0]
            == CLOSE)),
        _ => true,
    }
}

/// Whether a key, a `=` and a value stand at position `i` of the items.
fn pair_at(flat: &Vec<Node>, i: usize) -> (r: bool)
    requires
        i <= flat.len(),
    ensures
        r == starts_pair(node_views(flat@).skip(i as int)),
{
    let n: usize = flat.len();
    if n - i < 3 {
        return false;
    }
    proof {
        let rest = node_views(flat@).skip(i as int);
        assert(rest[0] == flat@[i as int]@);
        assert(rest[1] == flat@[i + 1]@);
        assert(rest[2] == flat@[i + 2]@);
    }
    node_is_key(&flat[i]) && node_is_eq(&flat[i + 1]) && node_is_value(&flat[i + 2])
}

/// Members without a key in front do not change whether a key is there.
proof fn lemma_has_key_skip(flat: Seq<Tree>)
    requires
        flat.len() > 0,
        !starts_pair(flat),
    ensures
        has_key(members(flat)) == has_key(members(flat.skip(1))),
{
    let all = members(flat);
    let rest = members(flat.skip(1));
    assert(all == seq![(Seq::<u8>::empty(), flat[0])] + rest);
    if has_key(rest) {
        let k = choose|k: int| 0 <= k < rest.len() && (#[trigger] rest[k]).0.len() > 0;
        assert(all[k + 1] == rest[k]);
    }
    if has_key(all) {
        let k = choose|k: int| 0 <= k < all.len() && (#[trigger] all[k]).0.len() > 0;
        assert(k > 0);
        assert(all[k] == rest[k - 1]);
    }
}

/// Makes the node of a group from its items.
pub fn group_nodes(flat: Vec<Node>) -> (r: Node)
    ensures
        r@ == group(node_views(flat@)),
{
    let mut flat = flat;
    let ghost orig = node_views(flat@);
    let n: usize = flat.len();
    let mut keyed: bool = false;
    let mut i: usize = 0;
    assert(orig.skip(0) == orig);
    while i < n && !keyed
        invariant
            i <= n,
            n == flat.len(),
            orig == node_views(flat@),
            !keyed ==> has_key(members(orig)) == has_key(members(orig.skip(i as int))),
            keyed ==> has_key(members(orig)),
        decreases n - i + (if keyed { 0int } else { 1int }),
    {
        if pair_at(&flat, i) {
            proof {
                let rest = orig.skip(i as int);
                assert(members(rest)[0].0.len() > 0);
                if i > 0 {
                    assert(has_key(members(rest)));
                }
            }
            keyed = true;
        } else {
            proof {
                lemma_has_key_skip(orig.skip(i as int));
                assert(orig.skip(i as int).skip(1) == orig.skip(i + 1));
            }
            i += 1;
        }
    }
    if !keyed {
        proof {
            assert(orig.skip(n as int).len() == 0);
            assert(!has_key(members(orig.skip(n as int))));
            lemma_array_view(Node::Array(flat));
        }
        return Node::Array(flat);
    }
    let mut out: Vec<(Vec<u8>, Node)> = Vec::new();
    i = 0;
    assert(member_views(out@) + members(orig) == members(orig));
    while i < n
        invariant
            i <= n,
            n == flat.len(),
            orig.len() == n,
            forall|j: int| i <= j < n ==> flat@[j]@ == orig[j],
            members(orig) == member_views(out@) + members(orig.skip(i as int)),
        decreases n - i,
    {
        let ghost rest = orig.skip(i as int);
        let ghost before = member_views(out@);
        assert(rest.len() == n - i);
        if n - i >= 3 && node_is_key(&flat[i]) && node_is_eq(&flat[i + 1]) && node_is_value(
            &flat[i + 2],
        ) {
            assert(rest[0] == orig[i as int] && rest[1] == orig[i + 1] && rest[2] == orig[i + 2]);
            assert(starts_pair(rest));
            let mut key_node: Node = Node::Scalar(Vec::new());
            flat.set_and_swap(i, &mut key_node);
            let mut value: Node = Node::Scalar(Vec::new());
            flat.set_and_swap(i + 2, &mut value);
            let key: Vec<u8> = match key_node {
                Node::Scalar(raw) => raw,
                _ => Vec::new(),
            };
            assert(key@ == rest[0]->Scalar_0);
            out.push((key, value));
            proof {
                assert(rest.skip(3) == orig.skip(i + 3));
                assert(member_views(out@) == before + seq![(rest[0]->Scalar_0, rest[2])]);
                assert(before + (seq![(rest[0]->Scalar_0, rest[2])] + members(rest.skip(3)))
                    == member_views(out@) + members(orig.skip(i + 3)));
            }
            i += 3;
        } else {
            assert(rest[0] == orig[i as int]);
            if n - i >= 3 {
                assert(rest[1] == orig[i + 1] && rest[2] == orig[i + 2]);
            }
            assert(!starts_pair(rest));
            let mut value: Node = Node::Scalar(Vec::new());
            flat.set_and_swap(i, &mut value);
            out.push((Vec::new(), value));
            proof {
                assert(rest.skip(1) == orig.skip(i + 1));
                assert(member_views(out@) == before + seq![(Seq::<u8>::empty(), rest[0])]);
                assert(before + (seq![(Seq::<u8>::empty(), rest[0])] + members(rest.skip(1)))
                    == member_views(out@) + members(orig.skip(i + 1)));
            }
            i += 1;
        }
    }
    proof {
        assert(orig.skip(n as int).len() == 0);
        assert(member_views(out@) + members(orig.skip(n as int)) == member_views(out@));
        lemma_object_view(Node::Object(out));
    }
    Node::Object(out)
}

/// Builds the items that the tokens from `lo` up to, not including, `hi`
/// make.
pub fn build_items(tokens: &Vec<Token>, lo: usize, hi: usize) -> (r: Vec<Node>)
    requires
        lo <= hi <= tokens.len(),
    ensures
        node_views(r@) == items(token_raws(tokens@), lo as int, hi as int),
    decreases hi - lo, 0int,
{
    let ghost raws = token_raws(tokens@);
    let mut out: Vec<Node> = Vec::new();
    let mut p: usize = lo;
    while p < hi
        invariant
            lo <= p <= hi <= tokens.len(),
            raws == token_raws(tokens@),
            items(raws, lo as int, hi as int) == node_views(out@) + items(
                raws,
                p as int,
                hi as int,
            ),
        decreases hi - p,
    {
        let ghost before = node_views(out@);
        assert(raws[p as int] == tokens[p as int].raw@);
        if token_is_open(&tokens[p]) {
            let close: usize = find_close(tokens, p);
            let end: usize = if close < hi {
                close
            } else {
                hi
            };
            let inner: Node = build_group(tokens, p + 1, end);
            out.push(inner);
            proof {
                let next: int = if close < hi {
                    close + 1
                } else {
                    hi as int
                };
                assert(items(raws, next, hi as int) =~= if close < hi {
                    items(raws, close + 1, hi as int)
                } else {
                    Seq::empty()
                });
                assert(node_views(out@) == before + seq![inner@]);
                assert(before + (seq![inner@] + items(raws, next, hi as int)) == node_views(out@)
                    + items(raws, next, hi as int));
            }
            p = if close < hi {
                close + 1
            } else {
                hi
            };
        } else {
            let raw: Vec<u8> = slice_to_vec(tokens[p].raw.as_slice());
            let node: Node = Node::Scalar(raw);
            out.push(node);
            proof {
                assert(node_views(out@) == before + seq![Tree::Scalar(raws[p as int])]);
                assert(before + (seq![Tree::Scalar(raws[p as int])] + items(
                    raws,
                    p + 1,
                    hi as int,
                )) == node_views(out@) + items(raws, p + 1, hi as int));
            }
            p += 1;
        }
    }
    assert(node_views(out@) + Seq::<Tree>::empty() == node_views(out@));
    out
}

/// Builds the node of the group whose content is the tokens from `lo` up to,
/// not including, `hi`.
pub fn build_group(tokens: &Vec<Token>, lo: usize, hi: usize) -> (r: Node)
    requires
        lo <= hi <= tokens.len(),
    ensures
        r@ == group(items(token_raws(tokens@), lo as int, hi as int)),
    decreases hi - lo, 1int,
{
    let flat: Vec<Node> = build_items(tokens, lo, hi);
    group_nodes(flat)
}

/// Builds the root node of a token sequence. Fails with `UnbalancedBraces`
/// where a brace has no partner, else with `DepthExceeded` where a group is
/// nested deeper than `limit`.
pub fn build(tokens: &Vec<Token>, limit: usize) -> (r: Result<Node, DecodeError>)
    ensures
        match build_spec(token_views(tokens@), limit as int) {
            Ok(tree) => r matches Ok(node) && node@ == tree,
            Err(error) => r matches Err(e) && e == error,
        },
{
    proof {
        lemma_token_raws(tokens@);
    }
    match check_braces(tokens, limit) {
        Some(error) => Err(error),
        None => Ok(build_group(tokens, 0, tokens.len())),
    }
}

} // verus!
