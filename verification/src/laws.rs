//! Theorems about the decoder as a whole.

use crate::builder::{
    balanced, build_spec, close_from, group, is_close, is_mark, is_open, items, matching_close,
    members, net, root, starts_pair, step,
};
use crate::decode::decode_spec;
use crate::encode::{
    encode, item_lexemes, key_lexemes, lexemes, member_lexemes, print, root_lexemes,
};
use crate::error::DecodeError;
use crate::lexer::{
    blank_end, is_punct, is_space, lemma_blank_end_bounds, lemma_quote_end_bounds,
    lemma_token_at_bounds, lemma_word_end_bounds, quote_end, raws, token_at, tokenize_spec,
    tokens_from, word_end, Lexed, TokenView, HASH, QUOTE, SPACE,
};
use crate::activity::active_spec;
use crate::model::{tags_of, CountryTag, EnhancedCountryView};
use crate::reconcile::{completed_countries, completed_of};
use crate::scan::{
    brace_close, first_occurrence, focus_block, is_first_occurrence, occurs_at, section_end,
    FOCUS_MARK,
};
use crate::schema::convert::{tag_of};
use crate::schema::lookup::text_of;
use crate::schema::records::{countries_from, country_spec};
use crate::tree::Tree;
use vstd::prelude::*;
use vstd::string::StringSliceAdditionalSpecFns;
use vstd::utf8::valid_utf8;

verus! {

/// Whether the text is a bare word: not empty, free of whitespace and
/// punctuation, and not starting like a quoted string or a comment.
pub open spec fn is_word(raw: Seq<u8>) -> bool {
    &&& raw.len() > 0
    &&& raw[0] != QUOTE
    &&& raw[0] != HASH
    &&& forall|k: int| 0 <= k < raw.len() ==> !is_space(#[trigger] raw[k]) && !is_punct(raw[k])
}

/// Whether the text is a quoted string: it starts and ends with a double
/// quote and holds none in between.
pub open spec fn is_quoted(raw: Seq<u8>) -> bool {
    &&& raw.len() >= 2
    &&& raw[0] == QUOTE
    &&& raw[raw.len() - 1] == QUOTE
    &&& forall|k: int| 1 <= k < raw.len() - 1 ==> #[trigger] raw[k] != QUOTE
}

/// Whether the text is that of one token.
pub open spec fn token_ok(raw: Seq<u8>) -> bool {
    is_mark(raw) || (valid_utf8(raw) && (is_quoted(raw) || is_word(raw)))
}

/// Whether each text is that of one token.
pub open spec fn all_ok(texts: Seq<Seq<u8>>) -> bool {
    forall|k: int| 0 <= k < texts.len() ==> token_ok(#[trigger] texts[k])
}

/// The token found at a position has the text of one token.
proof fn lemma_token_at_ok(s: Seq<u8>, i: int)
    requires
        0 <= i <= s.len(),
    ensures
        token_at(s, i) matches Lexed::Item { token, next } ==> token_ok(token.raw),
{
    let j = blank_end(s, i, false);
    lemma_blank_end_bounds(s, i, false);
    if j < s.len() {
        if is_punct(s[j]) {
        } else if s[j] == QUOTE {
            lemma_quote_end_bounds(s, j + 1);
        } else {
            lemma_word_end_bounds(s, j);
        }
    }
}

/// Every token that the tokenizer gives has the text of one token.
pub proof fn lemma_tokens_ok(s: Seq<u8>, i: int)
    requires
        0 <= i <= s.len(),
        tokens_from(s, i) is Ok,
    ensures
        all_ok(raws(tokens_from(s, i)->Ok_0)),
    decreases s.len() - i,
{
    lemma_token_at_bounds(s, i);
    lemma_token_at_ok(s, i);
    match token_at(s, i) {
        Lexed::Item { token, next } => {
            lemma_tokens_ok(s, next);
            let rest = tokens_from(s, next)->Ok_0;
            let all = tokens_from(s, i)->Ok_0;
            assert(all == seq![token] + rest);
            assert forall|k: int| 0 <= k < raws(all).len() implies token_ok(
                #[trigger] raws(all)[k],
            ) by {
                if k > 0 {
                    assert(raws(all)[k] == raws(rest)[k - 1]);
                }
            }
        },
        _ => {},
    }
}

/// Whether a token lies in the input at or behind position `from`: its raw
/// value is not empty and is the text of the input at the token's offset.
pub open spec fn lies_in(s: Seq<u8>, t: TokenView, from: int) -> bool {
    &&& from <= t.offset
    &&& t.raw.len() > 0
    &&& t.offset + t.raw.len() <= s.len()
    &&& t.raw == s.subrange(t.offset, t.offset + t.raw.len())
}

/// Whether each token but the first starts at or behind the end of the one
/// before it.
pub open spec fn in_order(tokens: Seq<TokenView>) -> bool {
    forall|k: int|
        0 < k < tokens.len() ==> tokens[k - 1].offset + tokens[k - 1].raw.len() <= (
        #[trigger] tokens[k]).offset
}

/// Tokens lie in the input: each token's raw value is the text of the input
/// at the token's offset, no token starts before the position where reading
/// began, and the tokens follow each other without overlap.
pub proof fn theorem_tokens_in_input(s: Seq<u8>, i: int)
    requires
        0 <= i <= s.len(),
        tokens_from(s, i) is Ok,
    ensures
        forall|k: int|
            0 <= k < tokens_from(s, i)->Ok_0.len() ==> lies_in(
                s,
                #[trigger] tokens_from(s, i)->Ok_0[k],
                i,
            ),
        in_order(tokens_from(s, i)->Ok_0),
    decreases s.len() - i,
{
    lemma_token_at_bounds(s, i);
    match token_at(s, i) {
        Lexed::Item { token, next } => {
            theorem_tokens_in_input(s, next);
            let rest = tokens_from(s, next)->Ok_0;
            let all = tokens_from(s, i)->Ok_0;
            assert(all == seq![token] + rest);
            assert(token.raw.len() == next - token.offset);
            assert(lies_in(s, token, i));
            assert forall|k: int| 0 <= k < all.len() implies lies_in(s, #[trigger] all[k], i) by {
                if k > 0 {
                    assert(all[k] == rest[k - 1]);
                    assert(lies_in(s, rest[k - 1], next));
                }
            }
            assert forall|k: int| 0 < k < all.len() implies all[k - 1].offset + all[k
                - 1].raw.len() <= (#[trigger] all[k]).offset by {
                assert(all[k] == rest[k - 1]);
                assert(lies_in(s, rest[k - 1], next));
                if k > 1 {
                    assert(all[k - 1] == rest[k - 2]);
                }
            }
        },
        _ => {},
    }
}

/// A bare word that is followed by whitespace or punctuation ends there.
proof fn lemma_word_end_at(s: Seq<u8>, i: int, end: int)
    requires
        0 <= i <= end < s.len(),
        forall|k: int| i <= k < end ==> !is_space(#[trigger] s[k]) && !is_punct(s[k]),
        is_space(s[end]) || is_punct(s[end]),
    ensures
        word_end(s, i) == end,
    decreases end - i,
{
    if i < end {
        lemma_word_end_at(s, i + 1, end);
    }
}

/// A run without a double quote that is followed by one ends there.
proof fn lemma_quote_end_at(s: Seq<u8>, i: int, end: int)
    requires
        0 <= i <= end < s.len(),
        forall|k: int| i <= k < end ==> #[trigger] s[k] != QUOTE,
        s[end] == QUOTE,
    ensures
        quote_end(s, i) == end,
    decreases end - i,
{
    if i < end {
        lemma_quote_end_at(s, i + 1, end);
    }
}

/// A token's text that stands in the input, followed by whitespace, is read
/// as that token.
proof fn lemma_scan_text(s: Seq<u8>, j: int, t: Seq<u8>)
    requires
        0 <= j,
        j + t.len() < s.len(),
        s.subrange(j, j + t.len()) == t,
        is_space(s[j + t.len()]),
        token_ok(t),
    ensures
        token_at(s, j) matches Lexed::Item { token, next } && token.raw == t && next == j
            + t.len(),
{
    let n = t.len() as int;
    assert forall|k: int| 0 <= k < n implies s[j + k] == #[trigger] t[k] by {
        assert(s.subrange(j, j + n)[k] == s[j + k]);
    }
    assert(s[j] == t[0]);
    assert(blank_end(s, j, false) == j);
    if is_mark(t) {
        assert(s.subrange(j, j + 1) =~= t);
    } else if is_quoted(t) {
        assert forall|k: int| j + 1 <= k < j + n - 1 implies #[trigger] s[k] != QUOTE by {
            assert(s[k] == t[k - j]);
        }
        assert(s[j + n - 1] == t[n - 1]);
        lemma_quote_end_at(s, j + 1, j + n - 1);
    } else {
        assert forall|k: int| j <= k < j + n implies !is_space(#[trigger] s[k]) && !is_punct(
            s[k],
        ) by {
            assert(s[k] == t[k - j]);
        }
        lemma_word_end_at(s, j, j + n);
    }
}

/// Whitespace in front of a position does not change the tokens read.
proof fn lemma_tokens_after_space(s: Seq<u8>, i: int)
    requires
        0 <= i < s.len(),
        is_space(s[i]),
    ensures
        tokens_from(s, i) == tokens_from(s, i + 1),
{
    assert(blank_end(s, i, false) == blank_end(s, i + 1, false));
    assert(token_at(s, i) == token_at(s, i + 1));
    lemma_token_at_bounds(s, i);
    lemma_token_at_bounds(s, i + 1);
}

/// Tokenizing the text of a token sequence gives that sequence back: the
/// tokens read behind `pre` in `pre + print(texts)` have the raw texts
/// `texts`.
pub proof fn lemma_tokenize_print(pre: Seq<u8>, texts: Seq<Seq<u8>>)
    requires
        all_ok(texts),
    ensures
        tokens_from(pre + print(texts), pre.len() as int) is Ok,
        raws(tokens_from(pre + print(texts), pre.len() as int)->Ok_0) == texts,
    decreases texts.len(),
{
    let s = pre + print(texts);
    let j = pre.len() as int;
    if texts.len() == 0 {
        assert(s =~= pre);
        assert(blank_end(s, j, false) == j);
        assert(raws(Seq::<TokenView>::empty()) =~= texts);
    } else {
        let t = texts[0];
        let rest = texts.skip(1);
        let n = t.len() as int;
        assert(token_ok(t));
        let pre2 = pre + t + seq![SPACE];
        assert(s =~= pre2 + print(rest));
        assert(s.subrange(j, j + n) =~= t);
        assert(s[j + n] == SPACE);
        lemma_scan_text(s, j, t);
        assert forall|k: int| 0 <= k < rest.len() implies token_ok(#[trigger] rest[k]) by {
            assert(rest[k] == texts[k + 1]);
        }
        lemma_tokenize_print(pre2, rest);
        lemma_tokens_after_space(s, j + n);
        let token = token_at(s, j)->token;
        let tail = tokens_from(s, j + n + 1)->Ok_0;
        assert(tokens_from(s, j) == Ok::<Seq<TokenView>, DecodeError>(seq![token] + tail));
        assert(raws(seq![token] + tail) =~= seq![t] + raws(tail));
        assert(seq![t] + rest =~= texts);
    }
}

/// The net count of a range is the sum of the net counts of its two parts.
pub proof fn lemma_net_split(raws: Seq<Seq<u8>>, a: int, b: int, c: int)
    requires
        a <= b <= c,
    ensures
        net(raws, a, c) == net(raws, a, b) + net(raws, b, c),
    decreases c - b,
{
    if b < c {
        lemma_net_split(raws, a, b, c - 1);
    }
}

/// Where the closing brace is found, and what holds before it.
proof fn lemma_close_from(raws: Seq<Seq<u8>>, open: int, j: int)
    requires
        0 <= j <= raws.len(),
    ensures
        j <= close_from(raws, open, j) <= raws.len(),
        close_from(raws, open, j) < raws.len() ==> net(raws, open, close_from(raws, open, j) + 1)
            <= 0,
        forall|k: int| j < k <= close_from(raws, open, j) ==> #[trigger] net(raws, open, k) > 0,
    decreases raws.len() - j,
{
    if j < raws.len() && net(raws, open, j + 1) > 0 {
        lemma_close_from(raws, open, j + 1);
    }
}

/// The token texts of an item in front of others.
proof fn lemma_item_lexemes_cons(first: Tree, rest: Seq<Tree>)
    ensures
        item_lexemes(seq![first] + rest) == lexemes(first) + item_lexemes(rest),
{
    let all = seq![first] + rest;
    assert(all[0] == first);
    assert(all.skip(1) == rest);
}

/// The token texts of a sequence of items that is not empty.
proof fn lemma_item_lexemes_first(flat: Seq<Tree>)
    requires
        flat.len() > 0,
    ensures
        item_lexemes(flat) == lexemes(flat[0]) + item_lexemes(flat.skip(1)),
{
}

/// The token texts of a member in front of others.
proof fn lemma_member_lexemes_cons(key: Seq<u8>, value: Tree, rest: Seq<(Seq<u8>, Tree)>)
    ensures
        member_lexemes(seq![(key, value)] + rest) == key_lexemes(key) + lexemes(value)
            + member_lexemes(rest),
{
    let all = seq![(key, value)] + rest;
    assert(all[0] == (key, value));
    assert(all.skip(1) == rest);
}

/// Pairing items into members changes nothing of their token texts.
proof fn lemma_members_lexemes(flat: Seq<Tree>)
    ensures
        member_lexemes(members(flat)) == item_lexemes(flat),
    decreases flat.len(),
{
    if flat.len() == 0 {
    } else if starts_pair(flat) {
        let key = flat[0]->Scalar_0;
        lemma_members_lexemes(flat.skip(3));
        lemma_member_lexemes_cons(key, flat[2], members(flat.skip(3)));
        lemma_item_lexemes_first(flat);
        lemma_item_lexemes_first(flat.skip(1));
        lemma_item_lexemes_first(flat.skip(2));
        assert(flat.skip(1)[0] == flat[1]);
        assert(flat.skip(1).skip(1) == flat.skip(2));
        assert(flat.skip(2)[0] == flat[2]);
        assert(flat.skip(2).skip(1) == flat.skip(3));
        assert(flat[1]->Scalar_0 =~= seq![crate::lexer::EQUALS]);
        assert(lexemes(flat[0]) == seq![key]);
        assert(lexemes(flat[1]) == seq![seq![crate::lexer::EQUALS]]);
        assert(key_lexemes(key) =~= seq![key] + seq![seq![crate::lexer::EQUALS]]);
        assert(seq![key] + (seq![seq![crate::lexer::EQUALS]] + (lexemes(flat[2]) + item_lexemes(
            flat.skip(3),
        ))) =~= seq![key] + seq![seq![crate::lexer::EQUALS]] + lexemes(flat[2]) + item_lexemes(
            flat.skip(3),
        ));
    } else {
        lemma_members_lexemes(flat.skip(1));
        lemma_member_lexemes_cons(Seq::empty(), flat[0], members(flat.skip(1)));
        lemma_item_lexemes_first(flat);
        assert(key_lexemes(Seq::<u8>::empty()) + lexemes(flat[0]) =~= lexemes(flat[0]));
    }
}

/// A group is written as its items between braces, and a root as its items.
pub proof fn lemma_group_lexemes(flat: Seq<Tree>)
    ensures
        root_lexemes(group(flat)) == item_lexemes(flat),
        lexemes(group(flat)) == seq![seq![crate::lexer::OPEN]] + item_lexemes(flat) + seq![
            seq![crate::lexer::CLOSE],
        ],
{
    lemma_members_lexemes(flat);
}

/// The items of a range in which every brace has its partner are written as
/// the tokens of that range: building drops nothing and adds nothing.
pub proof fn lemma_items_lexemes(raws: Seq<Seq<u8>>, lo: int, hi: int)
    requires
        0 <= lo <= hi <= raws.len(),
        net(raws, lo, hi) == 0,
        forall|j: int| lo <= j <= hi ==> net(raws, lo, j) >= 0,
    ensures
        item_lexemes(items(raws, lo, hi)) == raws.subrange(lo, hi),
    decreases hi - lo,
{
    if lo >= hi {
        assert(raws.subrange(lo, hi) =~= Seq::<Seq<u8>>::empty());
    } else {
        assert(net(raws, lo, lo) == 0);
        assert(net(raws, lo, lo + 1) == step(raws[lo]));
        assert(net(raws, lo, lo + 1) >= 0);
        if is_open(raws[lo]) {
            let close = matching_close(raws, lo);
            lemma_close_from(raws, lo, lo + 1);
            // The group is closed within the range.
            assert(close < hi) by {
                if close >= hi {
                    assert(net(raws, lo, hi) > 0);
                }
            }
            assert(net(raws, lo, close + 1) >= 0);
            assert(net(raws, lo, close + 1) == 0);
            assert(net(raws, lo, close) >= 1);
            assert(is_close(raws[close]));
            assert(net(raws, lo, close) == 1);
            // The content of the group.
            lemma_net_split(raws, lo, lo + 1, close);
            let first = lo + 1;
            assert forall|j: int| first <= j <= close implies #[trigger] net(raws, first, j)
                >= 0 by {
                lemma_net_split(raws, lo, lo + 1, j);
                if j > lo + 1 {
                    assert(net(raws, lo, j) > 0);
                }
            }
            lemma_items_lexemes(raws, lo + 1, close);
            // What follows the group.
            lemma_net_split(raws, lo, close + 1, hi);
            let next = close + 1;
            assert forall|j: int| next <= j <= hi implies #[trigger] net(raws, next, j) >= 0 by {
                lemma_net_split(raws, lo, close + 1, j);
            }
            lemma_items_lexemes(raws, close + 1, hi);
            let inner = items(raws, lo + 1, close);
            let after = items(raws, close + 1, hi);
            lemma_group_lexemes(inner);
            lemma_item_lexemes_cons(group(inner), after);
            assert(raws[lo] =~= seq![crate::lexer::OPEN]);
            assert(raws[close] =~= seq![crate::lexer::CLOSE]);
            assert(seq![raws[lo]] + raws.subrange(lo + 1, close) + seq![raws[close]]
                + raws.subrange(close + 1, hi) =~= raws.subrange(lo, hi));
        } else {
            assert(!is_close(raws[lo]));
            let first = lo + 1;
            assert forall|j: int| first <= j <= hi implies #[trigger] net(raws, first, j) >= 0 by {
                lemma_net_split(raws, lo, lo + 1, j);
            }
            lemma_net_split(raws, lo, lo + 1, hi);
            lemma_items_lexemes(raws, lo + 1, hi);
            lemma_item_lexemes_cons(Tree::Scalar(raws[lo]), items(raws, lo + 1, hi));
            assert(seq![raws[lo]] + raws.subrange(lo + 1, hi) =~= raws.subrange(lo, hi));
        }
    }
}

/// Building loses nothing: the root of a balanced token sequence is written
/// as exactly that sequence.
pub proof fn theorem_lossless(raws: Seq<Seq<u8>>)
    requires
        balanced(raws),
    ensures
        root_lexemes(root(raws)) == raws,
{
    lemma_items_lexemes(raws, 0, raws.len() as int);
    lemma_group_lexemes(items(raws, 0, raws.len() as int));
    assert(raws.subrange(0, raws.len() as int) =~= raws);
}

/// Round trip: a tree that was decoded from some input, written back as text
/// and decoded again, is the same tree.
pub proof fn theorem_round_trip(input: Seq<u8>, limit: int)
    requires
        decode_spec(input, limit) is Ok,
    ensures
        decode_spec(encode(decode_spec(input, limit)->Ok_0), limit) == decode_spec(input, limit),
{
    let tokens = tokenize_spec(input)->Ok_0;
    let texts = raws(tokens);
    let tree = root(texts);
    assert(decode_spec(input, limit) == Ok::<Tree, DecodeError>(tree));
    lemma_tokens_ok(input, 0);
    theorem_lossless(texts);
    lemma_tokenize_print(Seq::empty(), texts);
    assert(Seq::<u8>::empty() + print(texts) =~= print(texts));
}

/// The number of `{` among the first `n` tokens.
pub open spec fn count_open(raws: Seq<Seq<u8>>, n: int) -> int
    decreases n,
{
    if n <= 0 {
        0
    } else {
        count_open(raws, n - 1) + if is_open(raws[n - 1]) {
            1int
        } else {
            0int
        }
    }
}

/// The number of `}` among the first `n` tokens.
pub open spec fn count_close(raws: Seq<Seq<u8>>, n: int) -> int
    decreases n,
{
    if n <= 0 {
        0
    } else {
        count_close(raws, n - 1) + if is_close(raws[n - 1]) {
            1int
        } else {
            0int
        }
    }
}

/// The net count is the number of `{` less the number of `}`.
pub proof fn lemma_net_counts(raws: Seq<Seq<u8>>, n: int)
    requires
        0 <= n,
    ensures
        net(raws, 0, n) == count_open(raws, n) - count_close(raws, n),
    decreases n,
{
    if n > 0 {
        lemma_net_counts(raws, n - 1);
    }
}

/// Brace balance: a token sequence with unequal numbers of `{` and `}` is
/// never built into a tree. It fails with `UnbalancedBraces`, whatever the
/// depth limit.
pub proof fn theorem_unequal_braces(tokens: Seq<TokenView>, limit: int)
    requires
        count_open(raws(tokens), tokens.len() as int) != count_close(
            raws(tokens),
            tokens.len() as int,
        ),
    ensures
        build_spec(tokens, limit) matches Err(error) && error is UnbalancedBraces,
{
    lemma_net_counts(raws(tokens), tokens.len() as int);
}

/// Brace balance, from the bytes: an input that tokenizes, with unequal
/// numbers of `{` and `}` tokens, fails with `UnbalancedBraces`.
pub proof fn theorem_unequal_braces_in_input(input: Seq<u8>, limit: int)
    requires
        tokenize_spec(input) matches Ok(tokens) && count_open(raws(tokens), tokens.len() as int)
            != count_close(raws(tokens), tokens.len() as int),
    ensures
        decode_spec(input, limit) matches Err(error) && error is UnbalancedBraces,
{
    theorem_unequal_braces(tokenize_spec(input)->Ok_0, limit);
}

/// The texts of the keys of the members that have a key, in order.
pub open spec fn keyed_texts(entries: Seq<(Seq<u8>, Tree)>) -> Seq<Seq<u8>>
    decreases entries.len(),
{
    if entries.len() == 0 {
        Seq::empty()
    } else if entries[0].0.len() == 0 {
        keyed_texts(entries.skip(1))
    } else {
        seq![text_of(entries[0].0)] + keyed_texts(entries.skip(1))
    }
}

/// The values of the members that have a key, in order.
pub open spec fn keyed_values(entries: Seq<(Seq<u8>, Tree)>) -> Seq<Tree>
    decreases entries.len(),
{
    if entries.len() == 0 {
        Seq::empty()
    } else if entries[0].0.len() == 0 {
        keyed_values(entries.skip(1))
    } else {
        seq![entries[0].1] + keyed_values(entries.skip(1))
    }
}

/// The bytes of the tags of a sequence of countries, in order.
pub open spec fn tag_texts(countries: Seq<(CountryTag, EnhancedCountryView)>) -> Seq<Seq<u8>> {
    Seq::new(countries.len(), |i: int| countries[i].0.bytes())
}

/// What the countries resolved from the members of a countries root are.
proof fn lemma_countries_from(entries: Seq<(Seq<u8>, Tree)>, seen: Seq<CountryTag>)
    requires
        countries_from(entries, seen) is Ok,
    ensures
        ({
            let found = countries_from(entries, seen)->Ok_0;
            &&& tag_texts(found) == keyed_texts(entries)
            &&& found.len() == keyed_values(entries).len()
            &&& tags_of(found).no_duplicates()
            &&& forall|i: int| 0 <= i < found.len() ==> !seen.contains(#[trigger] found[i].0)
            &&& forall|i: int|
                0 <= i < found.len() ==> country_spec(#[trigger] keyed_values(entries)[i]) == Ok::<
                    EnhancedCountryView,
                    DecodeError,
                >(found[i].1)
        }),
    decreases entries.len(),
{
    let found = countries_from(entries, seen)->Ok_0;
    if entries.len() == 0 {
        assert(tag_texts(found) =~= keyed_texts(entries));
    } else if entries[0].0.len() == 0 {
        lemma_countries_from(entries.skip(1), seen);
    } else {
        let text = text_of(entries[0].0);
        let tag = tag_of(text)->Some_0;
        let country = country_spec(entries[0].1)->Ok_0;
        let later = seen.push(tag);
        lemma_countries_from(entries.skip(1), later);
        let tail = countries_from(entries.skip(1), later)->Ok_0;
        assert(found == seq![(tag, country)] + tail);
        assert(tag.bytes() =~= text);
        assert(tag_texts(found) =~= seq![text] + keyed_texts(entries.skip(1))) by {
            assert forall|i: int| 0 <= i < found.len() implies tag_texts(found)[i] == (seq![text]
                + tag_texts(tail))[i] by {
                if i > 0 {
                    assert(found[i] == tail[i - 1]);
                }
            }
        }
        assert forall|i: int| 0 <= i < found.len() implies !seen.contains(
            #[trigger] found[i].0,
        ) by {
            if i > 0 {
                assert(found[i] == tail[i - 1]);
                assert(!later.contains(tail[i - 1].0));
                if seen.contains(found[i].0) {
                    let k = choose|k: int| 0 <= k < seen.len() && seen[k] == found[i].0;
                    assert(later[k] == found[i].0);
                }
            }
        }
        assert(tags_of(found).no_duplicates()) by {
            assert forall|i: int, j: int|
                0 <= i < found.len() && 0 <= j < found.len() && i != j implies tags_of(found)[i]
                != tags_of(found)[j] by {
                if i > 0 && j > 0 {
                    assert(tags_of(tail)[i - 1] != tags_of(tail)[j - 1]);
                } else if i == 0 {
                    assert(found[j] == tail[j - 1]);
                    assert(!later.contains(tail[j - 1].0));
                    assert(later[seen.len() as int] == tag);
                } else {
                    assert(found[i] == tail[i - 1]);
                    assert(!later.contains(tail[i - 1].0));
                    assert(later[seen.len() as int] == tag);
                }
            }
        }
        let values = keyed_values(entries);
        assert(values == seq![entries[0].1] + keyed_values(entries.skip(1)));
        assert forall|i: int| 0 <= i < found.len() implies country_spec(#[trigger] values[i])
            == Ok::<EnhancedCountryView, DecodeError>(found[i].1) by {
            if i > 0 {
                assert(found[i] == tail[i - 1]);
                assert(values[i] == keyed_values(entries.skip(1))[i - 1]);
            }
        }
    }
}

/// Country count: where the members of a countries root resolve, there is
/// one country for each member with a key, in the order of the save; their
/// tags are the keys, no tag stands twice, and so there are as many
/// countries as distinct tags. Each country is resolved from the value of
/// its own member and from nothing else.
pub proof fn theorem_country_count(entries: Seq<(Seq<u8>, Tree)>)
    requires
        countries_from(entries, Seq::empty()) is Ok,
    ensures
        ({
            let found = countries_from(entries, Seq::empty())->Ok_0;
            &&& tag_texts(found) == keyed_texts(entries)
            &&& keyed_texts(entries).no_duplicates()
            &&& found.len() == keyed_texts(entries).to_set().len()
            &&& found.len() == keyed_values(entries).len()
            &&& forall|i: int|
                0 <= i < found.len() ==> country_spec(#[trigger] keyed_values(entries)[i]) == Ok::<
                    EnhancedCountryView,
                    DecodeError,
                >(found[i].1)
        }),
{
    let found = countries_from(entries, Seq::empty())->Ok_0;
    lemma_countries_from(entries, Seq::empty());
    let texts = keyed_texts(entries);
    assert(texts.no_duplicates()) by {
        assert forall|i: int, j: int|
            0 <= i < texts.len() && 0 <= j < texts.len() && i != j implies texts[i]
            != texts[j] by {
            let a = found[i].0;
            let b = found[j].0;
            assert(tags_of(found)[i] != tags_of(found)[j]);
            assert(tag_texts(found)[i] == a.bytes());
            assert(tag_texts(found)[j] == b.bytes());
            if a.bytes() == b.bytes() {
                assert(a.bytes()[0] == b.bytes()[0]);
                assert(a.bytes()[1] == b.bytes()[1]);
                assert(a.bytes()[2] == b.bytes()[2]);
            }
        }
    }
    texts.unique_seq_to_set();
}

/// Sentinel: a country whose stability and war support are both exactly one
/// half is inactive, whatever else it holds.
pub proof fn theorem_sentinel_inactive(country: EnhancedCountryView)
    requires
        country.stability.is_half_spec(),
        country.war_support.is_half_spec(),
    ensures
        !active_spec(country),
{
}

/// Focus scoping: the completed focuses that a country gets depend on the
/// lists gathered for its own tag alone. Two collections of lists that agree
/// on one tag give the country with that tag the same result, whatever they
/// hold for other tags.
pub proof fn theorem_focus_scoped(
    countries: Seq<(CountryTag, EnhancedCountryView)>,
    first: Seq<(CountryTag, Seq<Seq<u8>>)>,
    second: Seq<(CountryTag, Seq<Seq<u8>>)>,
    i: int,
)
    requires
        0 <= i < countries.len(),
        completed_of(first, countries[i].0) == completed_of(second, countries[i].0),
    ensures
        completed_countries(countries, first)[i] == completed_countries(countries, second)[i],
{
}

/// Focus scoping: a list gathered for a tag is what completed_of gives for
/// that tag only where no later list for the same tag follows, and a list
/// gathered for another tag is never given.
pub proof fn theorem_completed_own(lists: Seq<(CountryTag, Seq<Seq<u8>>)>, tag: CountryTag)
    ensures
        completed_of(lists, tag) matches Some(list) ==> exists|k: int|
            0 <= k < lists.len() && (#[trigger] lists[k]).0 == tag && lists[k].1 == list,
        completed_of(lists, tag) is None ==> forall|k: int|
            0 <= k < lists.len() ==> (#[trigger] lists[k]).0 != tag,
    decreases lists.len(),
{
    if lists.len() > 0 {
        if lists.last().0 == tag {
            assert(lists[lists.len() - 1].0 == tag);
        } else {
            theorem_completed_own(lists.drop_last(), tag);
            if completed_of(lists, tag) is Some {
                let k = choose|k: int|
                    0 <= k < lists.drop_last().len() && (#[trigger] lists.drop_last()[k]).0 == tag
                        && lists.drop_last()[k].1 == completed_of(lists, tag)->Some_0;
                assert(lists[k] == lists.drop_last()[k]);
            } else {
                assert forall|k: int| 0 <= k < lists.len() implies (#[trigger] lists[k]).0
                    != tag by {
                    if k < lists.len() - 1 {
                        assert(lists[k] == lists.drop_last()[k]);
                    }
                }
            }
        }
    }
}

/// Where a text stands in another at all, it stands there a first time, and
/// that is no later than any place at which it stands.
pub proof fn lemma_first_occurrence(haystack: Seq<u8>, needle: Seq<u8>, k: int)
    requires
        occurs_at(haystack, needle, k),
    ensures
        first_occurrence(haystack, needle) matches Some(first) && is_first_occurrence(
            haystack,
            needle,
            first,
        ) && first <= k,
    decreases k,
{
    if exists|j: int| 0 <= j < k && occurs_at(haystack, needle, j) {
        let j = choose|j: int| 0 <= j < k && occurs_at(haystack, needle, j);
        lemma_first_occurrence(haystack, needle, j);
    } else {
        assert(is_first_occurrence(haystack, needle, k));
        let first = choose|j: int| is_first_occurrence(haystack, needle, j);
        if first > k {
            assert(!occurs_at(haystack, needle, k));
        }
    }
}

/// A closing brace is never found before the place where the search starts.
proof fn lemma_brace_close_bounds(s: Seq<u8>, i: int, depth: int)
    requires
        0 <= i <= s.len(),
    ensures
        i <= brace_close(s, i, depth) <= s.len(),
    decreases s.len() - i,
{
    if i < s.len() {
        if s[i] == crate::lexer::OPEN {
            lemma_brace_close_bounds(s, i + 1, depth + 1);
        } else if s[i] == crate::lexer::CLOSE {
            if depth > 1 {
                lemma_brace_close_bounds(s, i + 1, depth - 1);
            }
        } else {
            lemma_brace_close_bounds(s, i + 1, depth);
        }
    }
}

/// Focus scoping in the raw text: the focus block that is found for a
/// country lies within that country's own section, which ends at the brace
/// that closes it. Nothing behind that brace is ever searched for the
/// country's completed focuses.
pub proof fn theorem_focus_block_in_section(s: Seq<u8>, start: int, tag_len: int)
    requires
        0 <= start,
        0 <= tag_len,
        focus_block(s, start, tag_len) is Some,
    ensures
        ({
            let (lo, hi) = focus_block(s, start, tag_len)->Some_0;
            let section_start = start + 1;
            let content_start = section_start + tag_len + 2;
            section_start <= lo <= hi <= section_end(s, content_start) <= s.len()
        }),
{
    let section_start = start + 1;
    let content_start = section_start + tag_len + 2;
    lemma_brace_close_bounds(s, content_start, 1);
    let end = section_end(s, content_start);
    let section = s.subrange(section_start, end);
    let mark = FOCUS_MARK.spec_bytes();
    let at = first_occurrence(section, mark)->Some_0;
    let k = choose|k: int| occurs_at(section, mark, k);
    lemma_first_occurrence(section, mark, k);
    let block_start = at + mark.len();
    lemma_brace_close_bounds(section, block_start, 1);
}

/// The number of times the byte `b` stands in `s` from `lo` up to, not
/// including, `hi`.
pub open spec fn byte_count(s: Seq<u8>, b: u8, lo: int, hi: int) -> int
    decreases hi - lo,
{
    if lo >= hi {
        0
    } else {
        byte_count(s, b, lo, hi - 1) + if s[hi - 1] == b {
            1int
        } else {
            0int
        }
    }
}

/// The count over a range is the sum of the counts over its two parts.
proof fn lemma_byte_count_split(s: Seq<u8>, b: u8, lo: int, mid: int, hi: int)
    requires
        lo <= mid <= hi,
    ensures
        byte_count(s, b, lo, hi) == byte_count(s, b, lo, mid) + byte_count(s, b, mid, hi),
    decreases hi - mid,
{
    if mid < hi {
        lemma_byte_count_split(s, b, lo, mid, hi - 1);
    }
}

/// A range in which the byte does not stand counts none.
proof fn lemma_byte_count_none(s: Seq<u8>, b: u8, lo: int, hi: int)
    requires
        forall|k: int| lo <= k < hi ==> #[trigger] s[k] != b,
    ensures
        byte_count(s, b, lo, hi) == 0,
    decreases hi - lo,
{
    if lo < hi {
        lemma_byte_count_none(s, b, lo, hi - 1);
    }
}

/// Where no comment can start, what is skipped in front of a token is
/// whitespace.
proof fn lemma_blank_is_space(s: Seq<u8>, i: int)
    requires
        0 <= i <= s.len(),
        forall|k: int| 0 <= k < s.len() ==> #[trigger] s[k] != HASH,
    ensures
        forall|k: int| i <= k < blank_end(s, i, false) ==> is_space(#[trigger] s[k]),
    decreases s.len() - i,
{
    if i < s.len() && is_space(s[i]) {
        lemma_blank_is_space(s, i + 1);
    }
}

/// The number of `{` with one token put in front.
proof fn lemma_count_open_cons(first: Seq<u8>, rest: Seq<Seq<u8>>, n: int)
    requires
        0 <= n <= rest.len(),
    ensures
        count_open(seq![first] + rest, n + 1) == count_open(rest, n) + if is_open(first) {
            1int
        } else {
            0int
        },
    decreases n,
{
    let all = seq![first] + rest;
    if n > 0 {
        lemma_count_open_cons(first, rest, n - 1);
        assert(all[n] == rest[n - 1]);
    } else {
        assert(all[0] == first);
        assert(count_open(all, 0) == 0);
    }
}

/// The number of `}` with one token put in front.
proof fn lemma_count_close_cons(first: Seq<u8>, rest: Seq<Seq<u8>>, n: int)
    requires
        0 <= n <= rest.len(),
    ensures
        count_close(seq![first] + rest, n + 1) == count_close(rest, n) + if is_close(first) {
            1int
        } else {
            0int
        },
    decreases n,
{
    let all = seq![first] + rest;
    if n > 0 {
        lemma_count_close_cons(first, rest, n - 1);
        assert(all[n] == rest[n - 1]);
    } else {
        assert(all[0] == first);
        assert(count_close(all, 0) == 0);
    }
}

/// In a text without quotes and comments every brace is a token: from any
/// position on there are as many `{` and `}` tokens as bytes.
proof fn lemma_brace_bytes_are_tokens(s: Seq<u8>, i: int)
    requires
        0 <= i <= s.len(),
        tokens_from(s, i) is Ok,
        forall|k: int| 0 <= k < s.len() ==> #[trigger] s[k] != QUOTE && s[k] != HASH,
    ensures
        ({
            let texts = raws(tokens_from(s, i)->Ok_0);
            &&& count_open(texts, texts.len() as int) == byte_count(
                s,
                crate::lexer::OPEN,
                i,
                s.len() as int,
            )
            &&& count_close(texts, texts.len() as int) == byte_count(
                s,
                crate::lexer::CLOSE,
                i,
                s.len() as int,
            )
        }),
    decreases s.len() - i,
{
    let open = crate::lexer::OPEN;
    let close = crate::lexer::CLOSE;
    let n = s.len() as int;
    let j = blank_end(s, i, false);
    lemma_blank_end_bounds(s, i, false);
    lemma_blank_is_space(s, i);
    lemma_token_at_bounds(s, i);
    assert forall|k: int| i <= k < j implies #[trigger] s[k] != open && s[k] != close by {
        assert(is_space(s[k]));
    }
    lemma_byte_count_none(s, open, i, j);
    lemma_byte_count_none(s, close, i, j);
    lemma_byte_count_split(s, open, i, j, n);
    lemma_byte_count_split(s, close, i, j, n);
    match token_at(s, i) {
        Lexed::Item { token, next } => {
            lemma_brace_bytes_are_tokens(s, next);
            let rest = tokens_from(s, next)->Ok_0;
            let all = tokens_from(s, i)->Ok_0;
            assert(all == seq![token] + rest);
            assert(raws(all) =~= seq![token.raw] + raws(rest));
            lemma_count_open_cons(token.raw, raws(rest), rest.len() as int);
            lemma_count_close_cons(token.raw, raws(rest), rest.len() as int);
            lemma_byte_count_split(s, open, j, next, n);
            lemma_byte_count_split(s, close, j, next, n);
            if is_punct(s[j]) {
                assert(token.raw[0] == s[j]);
                assert(byte_count(s, open, j, j) == 0);
                assert(byte_count(s, close, j, j) == 0);
            } else {
                lemma_word_end_bounds(s, j);
                assert forall|k: int| j <= k < next implies #[trigger] s[k] != open && s[k]
                    != close by {
                    assert(!is_punct(s[k]));
                }
                lemma_byte_count_none(s, open, j, next);
                lemma_byte_count_none(s, close, j, next);
                assert(token.raw[0] == s[j]);
            }
        },
        _ => {
            assert(byte_count(s, open, n, n) == 0);
            assert(byte_count(s, close, n, n) == 0);
        },
    }
}

/// Brace balance, from the bytes: an input without quotes and comments that
/// holds unequal numbers of `{` and `}` bytes never decodes to a tree. Where
/// it tokenizes, it fails with `UnbalancedBraces`.
pub proof fn theorem_unequal_brace_bytes(input: Seq<u8>, limit: int)
    requires
        tokenize_spec(input) is Ok,
        forall|k: int| 0 <= k < input.len() ==> #[trigger] input[k] != QUOTE && input[k] != HASH,
        byte_count(input, crate::lexer::OPEN, 0, input.len() as int) != byte_count(
            input,
            crate::lexer::CLOSE,
            0,
            input.len() as int,
        ),
    ensures
        decode_spec(input, limit) matches Err(error) && error is UnbalancedBraces,
{
    lemma_brace_bytes_are_tokens(input, 0);
    theorem_unequal_braces_in_input(input, limit);
}

} // verus!
