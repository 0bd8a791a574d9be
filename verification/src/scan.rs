//! Gathering facts from the raw text of a save, where the tree is not at
//! hand.
//!
//! The text is searched with regular expressions, but never across a whole
//! file in one sweep: a country's section is first delimited by matching its
//! braces, its focus block likewise within the section, and only that block
//! is searched for completed focuses. A completed focus of one country can so
//! never be taken for that of another.

use crate::decimal::read_digits;
use crate::directory::CharacterDirectory;
use crate::lexer::{is_digit, CLOSE, OPEN};
use crate::model::{text_views, CountryTag};
use crate::reconcile::list_views;
use crate::schema::convert::{parse_tag, tag_of};
use vstd::prelude::*;
use vstd::slice::{slice_subrange, slice_to_vec};
use vstd::string::StringSliceAdditionalSpecFns;

verus! {

/// The pattern that stands at the head of a country's section: a tab, a tag
/// of three capital letters, `={`, and `instances_counter=` on the next line.
pub const COUNTRY_PATTERN: &'static str = "(?m)^\\t([A-Z]{3})=\\{\\n\\t\\tinstances_counter=";

/// The pattern of one completed focus inside a focus block.
pub const COMPLETED_PATTERN: &'static str = "completed=\"([^\"]+)\"";

/// The pattern of one entry of the character database, with the number and
/// the name of the character.
pub const CHARACTER_PATTERN: &'static str =
    "character=\\{\\s*id=\\{\\s*id=(\\d+)\\s+type=\\d+\\s*\\}\\s*[^}]*?name=\"([^\"]+)\"";

/// The text that opens a focus block inside a country's section.
pub const FOCUS_MARK: &'static str = "\t\tfocus={";

/// What the regular expression `pattern` captures in `haystack`: `None`
/// where the pattern does not compile, else one entry for each match, in
/// order, that holds for each group of the pattern, the whole match first,
/// the span of bytes it captured, or `None` where the group took no part.
pub uninterp spec fn regex_captures(pattern: Seq<char>, haystack: Seq<u8>) -> Option<
    Seq<Seq<Option<(usize, usize)>>>,
>;

/// The views of the captures of a sequence of matches.
pub open spec fn capture_views(found: Seq<Vec<Option<(usize, usize)>>>) -> Seq<
    Seq<Option<(usize, usize)>>,
> {
    Seq::new(found.len(), |i: int| found[i]@)
}

/// Whether every span lies within a text of `len` bytes, and every match
/// holds its whole span first.
pub open spec fn spans_within(captures: Seq<Seq<Option<(usize, usize)>>>, len: int) -> bool {
    forall|i: int|
        0 <= i < captures.len() ==> {
            &&& (#[trigger] captures[i]).len() >= 1
            &&& captures[i][0] is Some
            &&& forall|j: int|
                0 <= j < captures[i].len() ==> (#[trigger] captures[i][j] matches Some(span)
                    ==> span.0 <= span.1 <= len)
        }
}

/// Compiles `pattern` with `regex::bytes::Regex::new` and runs
/// `captures_iter` on `haystack`. What comes back is a function of the two
/// arguments alone, so it has a name, [`regex_captures`]. Of that name this
/// claims only what the crate documents of every match: its whole span is
/// there, and each span starts no later than it ends and ends within the
/// haystack.
#[verifier::external_body]
fn run_regex(pattern: &str, haystack: &[u8]) -> (r: Option<Vec<Vec<Option<(usize, usize)>>>>)
    ensures
        match r {
            Some(found) => regex_captures(pattern@, haystack@) == Some(capture_views(found@)),
            None => regex_captures(pattern@, haystack@) is None,
        },
        r matches Some(found) ==> spans_within(capture_views(found@), haystack@.len() as int),
{
    match regex::bytes::Regex::new(pattern) {
        Ok(re) => Some(
            re.captures_iter(haystack).map(
                |c| (0..c.len()).map(|i| c.get(i).map(|m| (m.start(), m.end()))).collect(),
            ).collect(),
        ),
        Err(_) => None,
    }
}

/// The text that group `g` of a match captured, or `None` where the match
/// has no such group, the group took no part, or its span does not lie
/// within the haystack.
pub open spec fn group_text(haystack: Seq<u8>, m: Seq<Option<(usize, usize)>>, g: int) -> Option<
    Seq<u8>,
> {
    if 0 <= g < m.len() {
        match m[g] {
            Some(span) => if span.0 <= span.1 <= haystack.len() {
                Some(haystack.subrange(span.0 as int, span.1 as int))
            } else {
                None
            },
            None => None,
        }
    } else {
        None
    }
}

/// The texts that group `g` captured in a sequence of matches, in order.
/// A match in which the group took no part gives none.
pub open spec fn group_texts(
    haystack: Seq<u8>,
    captures: Seq<Seq<Option<(usize, usize)>>>,
    g: int,
) -> Seq<Seq<u8>>
    decreases captures.len(),
{
    if captures.len() == 0 {
        Seq::empty()
    } else {
        match group_text(haystack, captures[0], g) {
            Some(text) => seq![text] + group_texts(haystack, captures.skip(1), g),
            None => group_texts(haystack, captures.skip(1), g),
        }
    }
}

/// Takes the text that group `group` of a match captured.
pub fn take_group(haystack: &[u8], m: &Vec<Option<(usize, usize)>>, group: usize) -> (r: Option<
    Vec<u8>,
>)
    ensures
        crate::model::opt_text(r) == group_text(haystack@, m@, group as int),
{
    if group >= m.len() {
        return None;
    }
    match m[group] {
        Some((lo, hi)) => {
            if lo <= hi && hi <= haystack.len() {
                Some(slice_to_vec(slice_subrange(haystack, lo, hi)))
            } else {
                None
            }
        },
        None => None,
    }
}

/// Collects the texts that group `group` captured in a sequence of matches.
pub fn collect_group(
    haystack: &[u8],
    captures: &Vec<Vec<Option<(usize, usize)>>>,
    group: usize,
) -> (r: Vec<Vec<u8>>)
    ensures
        text_views(r@) == group_texts(haystack@, capture_views(captures@), group as int),
{
    let ghost all = capture_views(captures@);
    let mut out: Vec<Vec<u8>> = Vec::new();
    let mut i: usize = 0;
    assert(all.skip(0) == all);
    assert(text_views(out@) =~= Seq::<Seq<u8>>::empty());
    assert(text_views(out@) + group_texts(haystack@, all, group as int) == group_texts(
        haystack@,
        all,
        group as int,
    ));
    while i < captures.len()
        invariant
            i <= captures.len(),
            all == capture_views(captures@),
            group_texts(haystack@, all, group as int) == text_views(out@) + group_texts(
                haystack@,
                all.skip(i as int),
                group as int,
            ),
        decreases captures.len() - i,
    {
        let ghost before = text_views(out@);
        let ghost rest = all.skip(i as int);
        assert(rest[0] == all[i as int]);
        assert(rest.skip(1) == all.skip(i + 1));
        match take_group(haystack, &captures[i], group) {
            Some(text) => {
                out.push(text);
                proof {
                    let one = seq![text@];
                    let tail = group_texts(haystack@, rest.skip(1), group as int);
                    assert(text_views(out@) =~= before + one);
                    assert(before + (one + tail) == (before + one) + tail);
                }
            },
            None => {},
        }
        i += 1;
    }
    assert(all.skip(captures.len() as int).len() == 0);
    assert(text_views(out@) + Seq::<Seq<u8>>::empty() == text_views(out@));
    out
}

/// The first position at or after `i` whose `}` closes the group that is
/// `depth` deep at `i`, counting every `{` and `}` of the text, or the
/// length of the text if there is none.
pub open spec fn brace_close(s: Seq<u8>, i: int, depth: int) -> int
    decreases s.len() - i,
{
    if i < 0 || i >= s.len() {
        s.len() as int
    } else if s[i] == OPEN {
        brace_close(s, i + 1, depth + 1)
    } else if s[i] == CLOSE {
        if depth <= 1 {
            i
        } else {
            brace_close(s, i + 1, depth - 1)
        }
    } else {
        brace_close(s, i + 1, depth)
    }
}

/// Where the group ends whose content starts at `from`: at the `}` that
/// closes it, or at `from` itself where it is never closed.
pub open spec fn section_end(s: Seq<u8>, from: int) -> int {
    let close = brace_close(s, from, 1);
    if close < s.len() {
        close
    } else {
        from
    }
}

/// Finds where the group ends whose content starts at `from`.
pub fn find_section_end(text: &[u8], from: usize) -> (r: usize)
    requires
        from <= text.len(),
    ensures
        r == section_end(text@, from as int),
        from <= r <= text.len(),
{
    let mut nested: usize = 0;
    let mut i: usize = from;
    while i < text.len()
        invariant
            from <= i <= text.len(),
            nested <= i - from,
            brace_close(text@, from as int, 1) == brace_close(text@, i as int, nested + 1),
        decreases text.len() - i,
    {
        let b: u8 = text[i];
        if b == OPEN {
            nested += 1;
        } else if b == CLOSE {
            if nested == 0 {
                return i;
            }
            nested -= 1;
        }
        i += 1;
    }
    from
}

/// Whether `needle` stands in `haystack` at position `k`.
pub open spec fn occurs_at(haystack: Seq<u8>, needle: Seq<u8>, k: int) -> bool {
    0 <= k && k + needle.len() <= haystack.len() && haystack.subrange(k, k + needle.len())
        == needle
}

/// Whether `k` is the first position at which `needle` stands in
/// `haystack`.
pub open spec fn is_first_occurrence(haystack: Seq<u8>, needle: Seq<u8>, k: int) -> bool {
    occurs_at(haystack, needle, k) && forall|j: int| 0 <= j < k ==> !occurs_at(haystack, needle, j)
}

/// The first position at which `needle` stands in `haystack`, if any.
pub open spec fn first_occurrence(haystack: Seq<u8>, needle: Seq<u8>) -> Option<int> {
    if exists|k: int| occurs_at(haystack, needle, k) {
        Some(choose|k: int| is_first_occurrence(haystack, needle, k))
    } else {
        None
    }
}

/// Whether `needle` stands in `haystack` at position `k`.
fn matches_at(haystack: &[u8], needle: &[u8], k: usize) -> (r: bool)
    requires
        k + needle.len() <= haystack.len(),
    ensures
        r == occurs_at(haystack@, needle@, k as int),
{
    let mut i: usize = 0;
    while i < needle.len()
        invariant
            i <= needle.len(),
            k + needle.len() <= haystack.len(),
            forall|j: int| 0 <= j < i ==> haystack@[k + j] == needle@[j],
        decreases needle.len() - i,
    {
        if haystack[k + i] != needle[i] {
            assert(haystack@.subrange(k as int, k + needle.len())[i as int] != needle@[i as int]);
            return false;
        }
        i += 1;
    }
    assert(haystack@.subrange(k as int, k + needle.len()) =~= needle@);
    true
}

/// Finds the first position at which `needle` stands in `haystack`.
pub fn find_bytes(haystack: &[u8], needle: &[u8]) -> (r: Option<usize>)
    ensures
        match first_occurrence(haystack@, needle@) {
            Some(k) => r == Some(k as usize) && 0 <= k && k + needle.len() <= haystack.len(),
            None => r is None,
        },
{
    if needle.len() > haystack.len() {
        return None;
    }
    let last: usize = haystack.len() - needle.len();
    let mut k: usize = 0;
    loop
        invariant
            k <= last,
            last == haystack.len() - needle.len(),
            forall|j: int| 0 <= j < k ==> !occurs_at(haystack@, needle@, j),
        decreases last - k,
    {
        if matches_at(haystack, needle, k) {
            proof {
                assert(is_first_occurrence(haystack@, needle@, k as int));
                let other = choose|j: int| is_first_occurrence(haystack@, needle@, j);
                assert(other == k);
            }
            return Some(k);
        }
        if k == last {
            return None;
        }
        k += 1;
    }
}

/// The focus block of the country whose section is headed at position
/// `start` by a tab and a tag of `tag_len` bytes: the bounds of its content
/// in the text. The section runs from the tag to the `}` that closes it, and
/// the block from behind the first `focus={` of the section to the `}` that
/// closes the block; both are found by matching braces. `None` where the
/// section holds no focus block.
pub open spec fn focus_block(s: Seq<u8>, start: int, tag_len: int) -> Option<(int, int)> {
    let tag_start = start + 1;
    let content_start = tag_start + tag_len + 2;
    if content_start > s.len() {
        None
    } else {
        let section = s.subrange(tag_start, section_end(s, content_start));
        match first_occurrence(section, FOCUS_MARK.spec_bytes()) {
            None => None,
            Some(mark) => {
                let block_start = mark + FOCUS_MARK.spec_bytes().len();
                Some((tag_start + block_start, tag_start + section_end(section, block_start)))
            },
        }
    }
}

/// Finds the focus block of the country whose section is headed at position
/// `start` by a tab and a tag of `tag_len` bytes.
pub fn find_focus_block(text: &[u8], start: usize, tag_len: usize) -> (r: Option<(usize, usize)>)
    ensures
        match focus_block(text@, start as int, tag_len as int) {
            Some((lo, hi)) => r == Some((lo as usize, hi as usize)) && 0 <= lo <= hi
                <= text.len(),
            None => r is None,
        },
{
    let n: usize = text.len();
    if start >= n || tag_len > n - start - 1 || n - start - 1 - tag_len < 2 {
        return None;
    }
    let tag_start: usize = start + 1;
    let content_start: usize = tag_start + tag_len + 2;
    let end: usize = find_section_end(text, content_start);
    let section: &[u8] = slice_subrange(text, tag_start, end);
    let mark: &[u8] = FOCUS_MARK.as_bytes();
    match find_bytes(section, mark) {
        None => None,
        Some(at) => {
            let block_start: usize = at + mark.len();
            let block_end: usize = find_section_end(section, block_start);
            Some((tag_start + block_start, tag_start + block_end))
        },
    }
}

/// The completed focuses that a focus block lists.
pub open spec fn completed_in(block: Seq<u8>) -> Seq<Seq<u8>> {
    match regex_captures(COMPLETED_PATTERN@, block) {
        Some(captures) => group_texts(block, captures, 1),
        None => Seq::empty(),
    }
}

/// The tag of a country and the completed focuses of its section, for the
/// head of the section that one match of [`COUNTRY_PATTERN`] found. `None`
/// where the match holds no tag, the section no focus block, or the block no
/// completed focus.
pub open spec fn gathered_for(s: Seq<u8>, head: Seq<Option<(usize, usize)>>) -> Option<
    (CountryTag, Seq<Seq<u8>>),
> {
    match (group_text(s, head, 0), group_text(s, head, 1)) {
        (Some(_), Some(text)) => match tag_of(text) {
            None => None,
            Some(tag) => match focus_block(s, head[0]->Some_0.0 as int, text.len() as int) {
                None => None,
                Some((lo, hi)) => {
                    let completed = completed_in(s.subrange(lo, hi));
                    if completed.len() > 0 {
                        Some((tag, completed))
                    } else {
                        None
                    }
                },
            },
        },
        _ => None,
    }
}

/// The completed focuses of the countries whose sections the matches head,
/// in the order of the matches.
pub open spec fn gathered(s: Seq<u8>, heads: Seq<Seq<Option<(usize, usize)>>>) -> Seq<
    (CountryTag, Seq<Seq<u8>>),
>
    decreases heads.len(),
{
    if heads.len() == 0 {
        Seq::empty()
    } else {
        match gathered_for(s, heads[0]) {
            Some(entry) => seq![entry] + gathered(s, heads.skip(1)),
            None => gathered(s, heads.skip(1)),
        }
    }
}

/// The completed focuses of every country of a save text, each list with
/// the tag of its country.
pub open spec fn extracted(s: Seq<u8>) -> Seq<(CountryTag, Seq<Seq<u8>>)> {
    match regex_captures(COUNTRY_PATTERN@, s) {
        Some(heads) => gathered(s, heads),
        None => Seq::empty(),
    }
}

/// Gathers the completed focuses of the country whose section one match
/// heads.
pub fn gather_for(text: &[u8], head: &Vec<Option<(usize, usize)>>) -> (r: Option<
    (CountryTag, Vec<Vec<u8>>),
>)
    ensures
        match gathered_for(text@, head@) {
            Some(entry) => r matches Some(found) && found.0 == entry.0 && text_views(found.1@)
                == entry.1,
            None => r is None,
        },
{
    let whole: Option<Vec<u8>> = take_group(text, head, 0);
    let tag_text: Option<Vec<u8>> = take_group(text, head, 1);
    match (whole, tag_text) {
        (Some(_), Some(tag_bytes)) => {
            let tag: CountryTag = match parse_tag(tag_bytes.as_slice()) {
                None => {
                    return None;
                },
                Some(tag) => tag,
            };
            let start: usize = match head[0] {
                Some((lo, _)) => lo,
                None => {
                    return None;
                },
            };
            match find_focus_block(text, start, tag_bytes.len()) {
                None => None,
                Some((lo, hi)) => {
                    let block: &[u8] = slice_subrange(text, lo, hi);
                    let completed: Vec<Vec<u8>> = match run_regex(COMPLETED_PATTERN, block) {
                        Some(captures) => collect_group(block, &captures, 1),
                        None => {
                            let none: Vec<Vec<u8>> = Vec::new();
                            assert(text_views(none@) =~= Seq::<Seq<u8>>::empty());
                            none
                        },
                    };
                    if completed.len() > 0 {
                        Some((tag, completed))
                    } else {
                        None
                    }
                },
            }
        },
        _ => None,
    }
}

/// Gathers the completed focuses of every country of a save text. Each
/// country's section is delimited by its braces before it is searched, so
/// every list holds only what stands in the focus block of its own country.
pub fn extract_completed_focuses(save_content: &[u8]) -> (r: Vec<(CountryTag, Vec<Vec<u8>>)>)
    ensures
        list_views(r@) == extracted(save_content@),
{
    let mut out: Vec<(CountryTag, Vec<Vec<u8>>)> = Vec::new();
    assert(list_views(out@) =~= Seq::<(CountryTag, Seq<Seq<u8>>)>::empty());
    let heads: Vec<Vec<Option<(usize, usize)>>> = match run_regex(COUNTRY_PATTERN, save_content) {
        None => {
            return out;
        },
        Some(heads) => heads,
    };
    let ghost all = capture_views(heads@);
    let mut i: usize = 0;
    assert(all.skip(0) == all);
    assert(list_views(out@) + gathered(save_content@, all) == gathered(save_content@, all));
    while i < heads.len()
        invariant
            i <= heads.len(),
            all == capture_views(heads@),
            gathered(save_content@, all) == list_views(out@) + gathered(
                save_content@,
                all.skip(i as int),
            ),
        decreases heads.len() - i,
    {
        let ghost before = list_views(out@);
        let ghost rest = all.skip(i as int);
        assert(rest[0] == all[i as int]);
        assert(rest.skip(1) == all.skip(i + 1));
        match gather_for(save_content, &heads[i]) {
            Some(entry) => {
                let ghost one = seq![(entry.0, text_views(entry.1@))];
                out.push(entry);
                proof {
                    let tail = gathered(save_content@, rest.skip(1));
                    assert(list_views(out@) =~= before + one);
                    assert(before + (one + tail) == (before + one) + tail);
                }
            },
            None => {},
        }
        i += 1;
    }
    assert(all.skip(heads.len() as int).len() == 0);
    assert(list_views(out@) + Seq::<(CountryTag, Seq<Seq<u8>>)>::empty() == list_views(out@));
    out
}

/// Whether every byte is an ASCII digit, and there is at least one.
pub open spec fn all_digits(text: Seq<u8>) -> bool {
    text.len() > 0 && forall|k: int| 0 <= k < text.len() ==> is_digit(#[trigger] text[k])
}

/// The character number that a text of digits stands for, where it is no
/// more than `i32::MAX`.
pub open spec fn number_of(text: Seq<u8>) -> Option<i32> {
    let value = crate::decimal::digits_value(text, 0, text.len() as int);
    if all_digits(text) && value <= i32::MAX {
        Some(value as i32)
    } else {
        None
    }
}

/// Reads a text of digits as a character number.
pub fn parse_number(text: &[u8]) -> (r: Option<i32>)
    ensures
        r == number_of(text@),
{
    let n: usize = text.len();
    if n == 0 {
        return None;
    }
    let mut i: usize = 0;
    while i < n
        invariant
            i <= n,
            n == text.len(),
            forall|k: int| 0 <= k < i ==> is_digit(#[trigger] text@[k]),
        decreases n - i,
    {
        if !(0x30 <= text[i] && text[i] <= 0x39) {
            return None;
        }
        i += 1;
    }
    match read_digits(text, 0, n) {
        Some(value) => {
            if value <= 2147483647 {
                Some(value as i32)
            } else {
                None
            }
        },
        None => None,
    }
}

/// The directory after the entries that a sequence of matches of
/// [`CHARACTER_PATTERN`] found have been recorded in `known`, in order. A
/// match whose number is no character number records nothing.
pub open spec fn recorded_names(
    s: Seq<u8>,
    captures: Seq<Seq<Option<(usize, usize)>>>,
    known: Map<i32, Seq<u8>>,
) -> Map<i32, Seq<u8>>
    decreases captures.len(),
{
    if captures.len() == 0 {
        known
    } else {
        let next = match (group_text(s, captures[0], 1), group_text(s, captures[0], 2)) {
            (Some(digits), Some(name)) => match number_of(digits) {
                Some(id) => known.insert(id, name),
                None => known,
            },
            _ => known,
        };
        recorded_names(s, captures.skip(1), next)
    }
}

/// The names of the characters of a save text, by character number.
pub open spec fn extracted_names(s: Seq<u8>) -> Map<i32, Seq<u8>> {
    match regex_captures(CHARACTER_PATTERN@, s) {
        Some(captures) => recorded_names(s, captures, Map::empty()),
        None => Map::empty(),
    }
}

/// Records in the directory the entries that a sequence of matches of
/// [`CHARACTER_PATTERN`] found.
pub fn record_names(
    text: &[u8],
    captures: &Vec<Vec<Option<(usize, usize)>>>,
    directory: &mut CharacterDirectory,
)
    ensures
        final(directory)@ == recorded_names(text@, capture_views(captures@), old(directory)@),
{
    let ghost all = capture_views(captures@);
    let mut i: usize = 0;
    assert(all.skip(0) == all);
    while i < captures.len()
        invariant
            i <= captures.len(),
            all == capture_views(captures@),
            recorded_names(text@, all, old(directory)@) == recorded_names(
                text@,
                all.skip(i as int),
                directory@,
            ),
        decreases captures.len() - i,
    {
        let ghost rest = all.skip(i as int);
        assert(rest[0] == all[i as int]);
        assert(rest.skip(1) == all.skip(i + 1));
        let digits: Option<Vec<u8>> = take_group(text, &captures[i], 1);
        let name: Option<Vec<u8>> = take_group(text, &captures[i], 2);
        match (digits, name) {
            (Some(digits), Some(name)) => {
                match parse_number(digits.as_slice()) {
                    Some(id) => {
                        directory.insert(id, name);
                    },
                    None => {},
                }
            },
            _ => {},
        }
        i += 1;
    }
    assert(all.skip(captures.len() as int).len() == 0);
}

/// Gathers the names of the characters of a save text, by character
/// number. A later entry for a number replaces an earlier one.
pub fn extract_character_names(save_content: &[u8]) -> (r: CharacterDirectory)
    ensures
        r@ == extracted_names(save_content@),
{
    let mut directory = CharacterDirectory::new();
    match run_regex(CHARACTER_PATTERN, save_content) {
        Some(captures) => {
            record_names(save_content, &captures, &mut directory);
        },
        None => {},
    }
    directory
}

} // verus!
