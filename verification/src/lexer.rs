//! The tokenizer: raw save bytes to a flat sequence of tokens.
//!
//! Whitespace and `#` comments separate tokens and are dropped. `=`, `{` and
//! `}` are tokens of one byte. A quoted string runs to the next `"`. Anything
//! else is a bare word, which ends at whitespace or punctuation. A token's raw
//! value is its text in the source, quotes included.

use crate::error::DecodeError;
use vstd::prelude::*;
use vstd::slice::{slice_subrange, slice_to_vec};
use vstd::utf8::valid_utf8;

verus! {

/// The tab character.
pub const TAB: u8 = 0x09;

/// The line feed, which ends a comment.
pub const NEWLINE: u8 = 0x0a;

/// The carriage return.
pub const RETURN: u8 = 0x0d;

/// The space.
pub const SPACE: u8 = 0x20;

/// The double quote `"`, which opens and closes a quoted string.
pub const QUOTE: u8 = 0x22;

/// The hash `#`, which opens a comment.
pub const HASH: u8 = 0x23;

/// The minus sign `-`.
pub const MINUS: u8 = 0x2d;

/// The dot `.`.
pub const DOT: u8 = 0x2e;

/// The equals sign `=`.
pub const EQUALS: u8 = 0x3d;

/// The opening brace `{`.
pub const OPEN: u8 = 0x7b;

/// The closing brace `}`.
pub const CLOSE: u8 = 0x7d;

/// The lexical class of a token.
#[derive(Clone, Copy, Debug, PartialEq, Eq, Structural)]
pub enum TokenKind {
    /// A bare word that is neither a number nor a date.
    Identifier,
    /// A string between double quotes.
    Quoted,
    /// An optional `-`, digits, and optionally `.` and more digits.
    Number,
    /// One of `=`, `{`, `}`.
    Punctuation,
    /// Three or four groups of digits joined by `.`.
    Date,
}

/// One lexical token: its class, its text in the source, and where it starts.
#[derive(Clone, Debug, PartialEq, Eq)]
pub struct Token {
    pub kind: TokenKind,
    pub raw: Vec<u8>,
    pub offset: usize,
}

/// The mathematical value of a [`Token`].
pub struct TokenView {
    pub kind: TokenKind,
    pub raw: Seq<u8>,
    pub offset: int,
}

impl View for Token {
    type V = TokenView;

    open spec fn view(&self) -> TokenView {
        TokenView { kind: self.kind, raw: self.raw@, offset: self.offset as int }
    }
}

/// The views of a sequence of tokens, in order.
pub open spec fn token_views(tokens: Seq<Token>) -> Seq<TokenView> {
    tokens.map_values(|t: Token| t@)
}

/// The raw texts of a sequence of tokens, in order.
pub open spec fn raws(tokens: Seq<TokenView>) -> Seq<Seq<u8>> {
    tokens.map_values(|t: TokenView| t.raw)
}

/// Whether the byte is whitespace: a space, a tab, a line feed or a carriage
/// return.
pub open spec fn is_space(b: u8) -> bool {
    b == SPACE || b == TAB || b == NEWLINE || b == RETURN
}

/// Whether the byte is punctuation: `=`, `{` or `}`.
pub open spec fn is_punct(b: u8) -> bool {
    b == EQUALS || b == OPEN || b == CLOSE
}

/// Whether the byte is an ASCII digit.
pub open spec fn is_digit(b: u8) -> bool {
    0x30 <= b <= 0x39
}

/// The first position at or after `i` that is neither whitespace nor inside a
/// comment, or the length of `s` if there is none. `in_comment` says whether
/// position `i` already lies inside a comment.
pub open spec fn blank_end(s: Seq<u8>, i: int, in_comment: bool) -> int
    decreases s.len() - i,
{
    if i < 0 || i >= s.len() {
        s.len() as int
    } else if in_comment {
        blank_end(s, i + 1, s[i] != NEWLINE)
    } else if is_space(s[i]) {
        blank_end(s, i + 1, false)
    } else if s[i] == HASH {
        blank_end(s, i + 1, true)
    } else {
        i
    }
}

/// The first position at or after `i` that holds whitespace or punctuation,
/// or the length of `s` if there is none.
pub open spec fn word_end(s: Seq<u8>, i: int) -> int
    decreases s.len() - i,
{
    if i < 0 || i >= s.len() {
        s.len() as int
    } else if is_space(s[i]) || is_punct(s[i]) {
        i
    } else {
        word_end(s, i + 1)
    }
}

/// The first position at or after `i` that holds a double quote, or the
/// length of `s` if there is none.
pub open spec fn quote_end(s: Seq<u8>, i: int) -> int
    decreases s.len() - i,
{
    if i < 0 || i >= s.len() {
        s.len() as int
    } else if s[i] == QUOTE {
        i
    } else {
        quote_end(s, i + 1)
    }
}

/// The first position at or after `i` that holds no digit, or the length of
/// `s` if there is none.
pub open spec fn digit_end(s: Seq<u8>, i: int) -> int
    decreases s.len() - i,
{
    if i < 0 || i >= s.len() {
        s.len() as int
    } else if !is_digit(s[i]) {
        i
    } else {
        digit_end(s, i + 1)
    }
}

/// Whether the word is a number: an optional `-`, one or more digits, and
/// optionally a `.` followed by one or more digits.
pub open spec fn is_number(w: Seq<u8>) -> bool {
    let start: int = if w.len() > 0 && w[0] == MINUS {
        1
    } else {
        0
    };
    let whole = digit_end(w, start);
    let frac = digit_end(w, whole + 1);
    &&& start < whole
    &&& (whole == w.len() || (w[whole] == DOT && whole + 1 < frac && frac == w.len()))
}

/// Whether the word is a date: three or four groups of one or more digits,
/// joined by `.`.
pub open spec fn is_date(w: Seq<u8>) -> bool {
    let a = digit_end(w, 0);
    let b = digit_end(w, a + 1);
    let c = digit_end(w, b + 1);
    let d = digit_end(w, c + 1);
    &&& 0 < a < w.len() && w[a] == DOT
    &&& a + 1 < b < w.len() && w[b] == DOT
    &&& b + 1 < c
    &&& (c == w.len() || (w[c] == DOT && c + 1 < d && d == w.len()))
}

/// The class of a bare word.
pub open spec fn word_kind(w: Seq<u8>) -> TokenKind {
    if is_number(w) {
        TokenKind::Number
    } else if is_date(w) {
        TokenKind::Date
    } else {
        TokenKind::Identifier
    }
}

/// What stands at a position of the input: nothing more, a token and the
/// position after it, or a lexical error.
pub enum Lexed {
    End,
    Item { token: TokenView, next: int },
    Fail { error: DecodeError },
}

/// The token that starts at position `j`, which holds neither whitespace nor
/// the start of a comment.
pub open spec fn scan_token(s: Seq<u8>, j: int) -> Lexed {
    if is_punct(s[j]) {
        Lexed::Item {
            token: TokenView {
                kind: TokenKind::Punctuation,
                raw: s.subrange(j, j + 1),
                offset: j,
            },
            next: j + 1,
        }
    } else if s[j] == QUOTE {
        let end = quote_end(s, j + 1);
        if end >= s.len() {
            Lexed::Fail { error: DecodeError::UnterminatedString { offset: j as usize } }
        } else if !valid_utf8(s.subrange(j, end + 1)) {
            Lexed::Fail { error: DecodeError::MalformedEncoding { offset: j as usize } }
        } else {
            Lexed::Item {
                token: TokenView {
                    kind: TokenKind::Quoted,
                    raw: s.subrange(j, end + 1),
                    offset: j,
                },
                next: end + 1,
            }
        }
    } else {
        let end = word_end(s, j);
        if !valid_utf8(s.subrange(j, end)) {
            Lexed::Fail { error: DecodeError::MalformedEncoding { offset: j as usize } }
        } else {
            Lexed::Item {
                token: TokenView {
                    kind: word_kind(s.subrange(j, end)),
                    raw: s.subrange(j, end),
                    offset: j,
                },
                next: end,
            }
        }
    }
}

/// The first token at or after position `i`.
pub open spec fn token_at(s: Seq<u8>, i: int) -> Lexed {
    let j = blank_end(s, i, false);
    if j >= s.len() {
        Lexed::End
    } else {
        scan_token(s, j)
    }
}

/// Tokens put in front of the outcome of reading what follows them.
pub open spec fn prepend(head: Seq<TokenView>, tail: Result<Seq<TokenView>, DecodeError>) -> Result<
    Seq<TokenView>,
    DecodeError,
> {
    match tail {
        Ok(rest) => Ok(head + rest),
        Err(e) => Err(e),
    }
}

/// All tokens from position `i` to the end of the input, or the first
/// lexical error met on the way.
pub open spec fn tokens_from(s: Seq<u8>, i: int) -> Result<Seq<TokenView>, DecodeError>
    decreases s.len() - i,
    when 0 <= i <= s.len()
    via tokens_from_decreases
{
    match token_at(s, i) {
        Lexed::End => Ok(Seq::empty()),
        Lexed::Fail { error } => Err(error),
        Lexed::Item { token, next } => prepend(seq![token], tokens_from(s, next)),
    }
}

/// Each token ends behind the position at which the search for it began.
#[via_fn]
proof fn tokens_from_decreases(s: Seq<u8>, i: int) {
    lemma_token_at_bounds(s, i);
}

/// The tokens of a whole input.
pub open spec fn tokenize_spec(s: Seq<u8>) -> Result<Seq<TokenView>, DecodeError> {
    tokens_from(s, 0)
}

/// Where blank space ends, and that a token starts there.
pub proof fn lemma_blank_end_bounds(s: Seq<u8>, i: int, in_comment: bool)
    requires
        0 <= i <= s.len(),
    ensures
        i <= blank_end(s, i, in_comment) <= s.len(),
        blank_end(s, i, in_comment) < s.len() ==> {
            let j = blank_end(s, i, in_comment);
            !is_space(s[j]) && s[j] != HASH
        },
    decreases s.len() - i,
{
    if i < s.len() {
        if in_comment {
            lemma_blank_end_bounds(s, i + 1, s[i] != NEWLINE);
        } else if is_space(s[i]) {
            lemma_blank_end_bounds(s, i + 1, false);
        } else if s[i] == HASH {
            lemma_blank_end_bounds(s, i + 1, true);
        }
    }
}

/// Where a bare word ends, and that it holds no whitespace or punctuation.
pub proof fn lemma_word_end_bounds(s: Seq<u8>, i: int)
    requires
        0 <= i <= s.len(),
    ensures
        i <= word_end(s, i) <= s.len(),
        word_end(s, i) < s.len() ==> is_space(s[word_end(s, i)]) || is_punct(s[word_end(s, i)]),
        forall|k: int| i <= k < word_end(s, i) ==> !is_space(#[trigger] s[k]) && !is_punct(s[k]),
    decreases s.len() - i,
{
    if i < s.len() && !(is_space(s[i]) || is_punct(s[i])) {
        lemma_word_end_bounds(s, i + 1);
    }
}

/// Where the next double quote stands, and that none stands before it.
pub proof fn lemma_quote_end_bounds(s: Seq<u8>, i: int)
    requires
        0 <= i <= s.len(),
    ensures
        i <= quote_end(s, i) <= s.len(),
        quote_end(s, i) < s.len() ==> s[quote_end(s, i)] == QUOTE,
        forall|k: int| i <= k < quote_end(s, i) ==> #[trigger] s[k] != QUOTE,
    decreases s.len() - i,
{
    if i < s.len() && s[i] != QUOTE {
        lemma_quote_end_bounds(s, i + 1);
    }
}

/// A token lies within the input and is followed by a later position.
pub proof fn lemma_token_at_bounds(s: Seq<u8>, i: int)
    requires
        0 <= i <= s.len(),
    ensures
        token_at(s, i) matches Lexed::Item { token, next } ==> i < next <= s.len() && i
            <= token.offset < next && token.raw == s.subrange(token.offset, next),
{
    let j = blank_end(s, i, false);
    lemma_blank_end_bounds(s, i, false);
    if j < s.len() {
        if is_punct(s[j]) {
        } else if s[j] == QUOTE {
            lemma_quote_end_bounds(s, j + 1);
        } else {
            lemma_word_end_bounds(s, j);
        }
    }
}

/// The error of `std::str::from_utf8`, of which nothing is read.
#[verifier::external_type_specification]
#[verifier::external_body]
pub struct ExUtf8Error(std::str::Utf8Error);

/// `std::str::from_utf8` succeeds exactly on the byte slices that are valid
/// UTF-8. Nothing is claimed of the string or of the error it returns.
pub assume_specification[ std::str::from_utf8 ](v: &[u8]) -> (r: Result<&str, std::str::Utf8Error>)
    ensures
        r is Ok <==> valid_utf8(v@),
;

/// Whether the bytes are valid UTF-8.
pub fn is_text(bytes: &[u8]) -> (r: bool)
    ensures
        r == valid_utf8(bytes@),
{
    match std::str::from_utf8(bytes) {
        Ok(_) => true,
        Err(_) => false,
    }
}

/// Whether the byte is whitespace.
pub fn byte_is_space(b: u8) -> (r: bool)
    ensures
        r == is_space(b),
{
    b == SPACE || b == TAB || b == NEWLINE || b == RETURN
}

/// Whether the byte is punctuation.
pub fn byte_is_punct(b: u8) -> (r: bool)
    ensures
        r == is_punct(b),
{
    b == EQUALS || b == OPEN || b == CLOSE
}

/// Whether the byte is an ASCII digit.
pub fn byte_is_digit(b: u8) -> (r: bool)
    ensures
        r == is_digit(b),
{
    0x30 <= b && b <= 0x39
}

/// Skips whitespace and comments from `start` on.
pub fn skip_blank(input: &[u8], start: usize) -> (r: usize)
    requires
        start <= input.len(),
    ensures
        r == blank_end(input@, start as int, false),
        start <= r <= input.len(),
{
    let mut i: usize = start;
    let mut in_comment: bool = false;
    while i < input.len()
        invariant
            start <= i <= input.len(),
            blank_end(input@, start as int, false) == blank_end(input@, i as int, in_comment),
        decreases input.len() - i,
    {
        let b: u8 = input[i];
        if in_comment {
            in_comment = b != NEWLINE;
        } else if byte_is_space(b) {
        } else if b == HASH {
            in_comment = true;
        } else {
            return i;
        }
        i += 1;
    }
    i
}

/// Finds where the bare word that starts at `start` ends.
pub fn find_word_end(input: &[u8], start: usize) -> (r: usize)
    requires
        start <= input.len(),
    ensures
        r == word_end(input@, start as int),
        start <= r <= input.len(),
{
    let mut i: usize = start;
    while i < input.len()
        invariant
            start <= i <= input.len(),
            word_end(input@, start as int) == word_end(input@, i as int),
        decreases input.len() - i,
    {
        let b: u8 = input[i];
        if byte_is_space(b) || byte_is_punct(b) {
            return i;
        }
        i += 1;
    }
    i
}

/// Finds the next double quote at or after `start`.
pub fn find_quote_end(input: &[u8], start: usize) -> (r: usize)
    requires
        start <= input.len(),
    ensures
        r == quote_end(input@, start as int),
        start <= r <= input.len(),
{
    let mut i: usize = start;
    while i < input.len()
        invariant
            start <= i <= input.len(),
            quote_end(input@, start as int) == quote_end(input@, i as int),
        decreases input.len() - i,
    {
        if input[i] == QUOTE {
            return i;
        }
        i += 1;
    }
    i
}

/// Finds where the run of digits that starts at `start` ends.
pub fn find_digit_end(input: &[u8], start: usize) -> (r: usize)
    requires
        start <= input.len(),
    ensures
        r == digit_end(input@, start as int),
        start <= r <= input.len(),
{
    let mut i: usize = start;
    while i < input.len()
        invariant
            start <= i <= input.len(),
            digit_end(input@, start as int) == digit_end(input@, i as int),
        decreases input.len() - i,
    {
        if !byte_is_digit(input[i]) {
            return i;
        }
        i += 1;
    }
    i
}

/// Whether the word is a number.
pub fn word_is_number(word: &[u8]) -> (r: bool)
    ensures
        r == is_number(word@),
{
    let n: usize = word.len();
    let start: usize = if n > 0 && word[0] == MINUS {
        1
    } else {
        0
    };
    let whole: usize = find_digit_end(word, start);
    if whole <= start {
        return false;
    }
    if whole == n {
        return true;
    }
    if word[whole] != DOT {
        return false;
    }
    let frac: usize = find_digit_end(word, whole + 1);
    whole + 1 < frac && frac == n
}

/// Whether the word is a date.
pub fn word_is_date(word: &[u8]) -> (r: bool)
    ensures
        r == is_date(word@),
{
    let n: usize = word.len();
    let a: usize = find_digit_end(word, 0);
    if a == 0 || a >= n || word[a] != DOT {
        return false;
    }
    let b: usize = find_digit_end(word, a + 1);
    if b <= a + 1 || b >= n || word[b] != DOT {
        return false;
    }
    let c: usize = find_digit_end(word, b + 1);
    if c <= b + 1 {
        return false;
    }
    if c == n {
        return true;
    }
    if word[c] != DOT {
        return false;
    }
    let d: usize = find_digit_end(word, c + 1);
    c + 1 < d && d == n
}

/// Classifies a bare word.
pub fn classify_word(word: &[u8]) -> (r: TokenKind)
    ensures
        r == word_kind(word@),
{
    if word_is_number(word) {
        TokenKind::Number
    } else if word_is_date(word) {
        TokenKind::Date
    } else {
        TokenKind::Identifier
    }
}

/// Reads the first token at or after `pos`: `Ok(None)` at the end of the
/// input, else the token and the position behind it, or the lexical error
/// that the token runs into.
pub fn next_token(input: &[u8], pos: usize) -> (r: Result<Option<(Token, usize)>, DecodeError>)
    requires
        pos <= input.len(),
    ensures
        match token_at(input@, pos as int) {
            Lexed::End => r matches Ok(None),
            Lexed::Fail { error } => r matches Err(e) && e == error,
            Lexed::Item { token, next } => r matches Ok(Some(found)) && found.0@ == token
                && found.1 == next && pos < found.1 <= input.len(),
        },
{
    proof {
        lemma_token_at_bounds(input@, pos as int);
    }
    let j: usize = skip_blank(input, pos);
    if j >= input.len() {
        return Ok(None);
    }
    let b: u8 = input[j];
    if byte_is_punct(b) {
        let raw: Vec<u8> = slice_to_vec(slice_subrange(input, j, j + 1));
        return Ok(Some((Token { kind: TokenKind::Punctuation, raw, offset: j }, j + 1)));
    }
    if b == QUOTE {
        let end: usize = find_quote_end(input, j + 1);
        if end >= input.len() {
            return Err(DecodeError::UnterminatedString { offset: j });
        }
        let text: &[u8] = slice_subrange(input, j, end + 1);
        if !is_text(text) {
            return Err(DecodeError::MalformedEncoding { offset: j });
        }
        let raw: Vec<u8> = slice_to_vec(text);
        return Ok(Some((Token { kind: TokenKind::Quoted, raw, offset: j }, end + 1)));
    }
    let end: usize = find_word_end(input, j);
    let text: &[u8] = slice_subrange(input, j, end);
    if !is_text(text) {
        return Err(DecodeError::MalformedEncoding { offset: j });
    }
    let kind: TokenKind = classify_word(text);
    let raw: Vec<u8> = slice_to_vec(text);
    Ok(Some((Token { kind, raw, offset: j }, end)))
}

/// Turns the whole input into its tokens, or reports the first lexical
/// error: a quoted string that is never closed, or a token that is not valid
/// UTF-8.
pub fn tokenize(input: &[u8]) -> (r: Result<Vec<Token>, DecodeError>)
    ensures
        match tokenize_spec(input@) {
            Ok(tokens) => r matches Ok(found) && token_views(found@) == tokens,
            Err(error) => r matches Err(e) && e == error,
        },
{
    let mut out: Vec<Token> = Vec::new();
    let mut pos: usize = 0;
    loop
        invariant
            pos <= input.len(),
            tokens_from(input@, 0) == prepend(token_views(out@), tokens_from(input@, pos as int)),
        decreases input.len() - pos,
    {
        match next_token(input, pos) {
            Err(e) => {
                return Err(e);
            },
            Ok(None) => {
                assert(token_views(out@) + Seq::<TokenView>::empty() == token_views(out@));
                return Ok(out);
            },
            Ok(Some((token, next))) => {
                proof {
                    let head = token_views(out@);
                    assert(token_views(out@.push(token)) == head.push(token@));
                    match tokens_from(input@, next as int) {
                        Ok(rest) => {
                            assert(head + (seq![token@] + rest) == head.push(token@) + rest);
                        },
                        Err(_) => {},
                    }
                }
                out.push(token);
                pos = next;
            },
        }
    }
}

/// A tokenizer over one input. It reads a token at a time, on demand, and
/// can be sent back to the start of the input at any time.
pub struct Tokenizer<'a> {
    input: &'a [u8],
    pos: usize,
}

impl<'a> Tokenizer<'a> {
    /// The input that the tokenizer reads.
    pub closed spec fn input(&self) -> Seq<u8> {
        self.input@
    }

    /// The position behind the last token that was read.
    pub closed spec fn position(&self) -> int {
        self.pos as int
    }

    /// The position never lies behind the end of the input.
    #[verifier::type_invariant]
    spec fn within(&self) -> bool {
        self.pos <= self.input@.len()
    }

    /// A tokenizer at the start of `input`.
    pub fn new(input: &'a [u8]) -> (r: Tokenizer<'a>)
        ensures
            r.input() == input@,
            r.position() == 0,
    {
        Tokenizer { input, pos: 0 }
    }

    /// Reads the next token: `Ok(None)` at the end of the input. After an
    /// error the tokenizer stays where it was.
    pub fn next_token(&mut self) -> (r: Result<Option<Token>, DecodeError>)
        ensures
            final(self).input() == old(self).input(),
            0 <= old(self).position() <= old(self).input().len(),
            match token_at(old(self).input(), old(self).position()) {
                Lexed::End => r matches Ok(None) && final(self).position() == old(self).position(),
                Lexed::Fail { error } => r matches Err(e) && e == error && final(self).position()
                    == old(self).position(),
                Lexed::Item { token, next } => r matches Ok(Some(found)) && found@ == token
                    && final(self).position() == next,
            },
    {
        proof {
            use_type_invariant(&*self);
        }
        match next_token(self.input, self.pos) {
            Err(error) => Err(error),
            Ok(None) => Ok(None),
            Ok(Some((token, next))) => {
                self.pos = next;
                Ok(Some(token))
            },
        }
    }

    /// Sends the tokenizer back to the start of its input.
    pub fn restart(&mut self)
        ensures
            final(self).input() == old(self).input(),
            final(self).position() == 0,
    {
        self.pos = 0;
    }
}

} // verus!
