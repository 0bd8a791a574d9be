use hoi4_parser::model::CountryTag;
use hoi4_parser::reconcile::find_completed;
use hoi4_parser::scan::{
    collect_group, extract_character_names, extract_completed_focuses, find_bytes,
    find_focus_block, find_section_end, gather_for, parse_number, record_names, take_group,
    CHARACTER_PATTERN, COMPLETED_PATTERN, COUNTRY_PATTERN, FOCUS_MARK,
};
use hoi4_parser::directory::CharacterDirectory;

fn b(text: &str) -> Vec<u8> {
    text.as_bytes().to_vec()
}

fn tag(text: &str) -> CountryTag {
    let t = text.as_bytes();
    CountryTag { first: t[0], second: t[1], third: t[2] }
}

const TWO_COUNTRIES: &str = "countries={\n\tAAA={\n\t\tinstances_counter=3\n\t\tfocus={\n\t\t\tcurrent=\"x\"\n\t\t}\n\t}\n\tBBB={\n\t\tinstances_counter=4\n\t\tfocus={\n\t\t\tcompleted=\"b_one\"\n\t\t\tcompleted=\"b_two\"\n\t\t\tcompleted=\"b_three\"\n\t\t}\n\t}\n}\n";

#[test]
fn patterns_are_the_documented_ones() {
    assert_eq!(COUNTRY_PATTERN, r"(?m)^\t([A-Z]{3})=\{\n\t\tinstances_counter=");
    assert_eq!(COMPLETED_PATTERN, r#"completed="([^"]+)""#);
    assert_eq!(
        CHARACTER_PATTERN,
        r#"character=\{\s*id=\{\s*id=(\d+)\s+type=\d+\s*\}\s*[^}]*?name="([^"]+)""#
    );
    assert_eq!(FOCUS_MARK, "\t\tfocus={");
}

#[test]
fn section_end_matches_braces() {
    assert_eq!(find_section_end(b"a { b } c } d", 0), 10);
    assert_eq!(find_section_end(b"}", 0), 0);
    assert_eq!(find_section_end(b"{{}}}x", 0), 4);
    assert_eq!(find_section_end(b"a } b }", 3), 6);
}

#[test]
fn section_that_is_never_closed_ends_where_it_starts() {
    assert_eq!(find_section_end(b"a { b ", 0), 0);
    assert_eq!(find_section_end(b"abc", 2), 2);
    assert_eq!(find_section_end(b"", 0), 0);
    assert_eq!(find_section_end(b"{ }", 1), 2);
    assert_eq!(find_section_end(b"{ {", 1), 1);
}

#[test]
fn find_bytes_gives_first_occurrence() {
    assert_eq!(find_bytes(b"abcabc", b"bc"), Some(1));
    assert_eq!(find_bytes(b"abcabc", b"abc"), Some(0));
    assert_eq!(find_bytes(b"abcabc", b"cab"), Some(2));
    assert_eq!(find_bytes(b"abcabc", b"abcabc"), Some(0));
    assert_eq!(find_bytes(b"abcabc", b"x"), None);
    assert_eq!(find_bytes(b"abc", b"abcd"), None);
    assert_eq!(find_bytes(b"aaab", b"aab"), Some(1));
    assert_eq!(find_bytes(b"abc", b""), Some(0));
    assert_eq!(find_bytes(b"", b""), Some(0));
    assert_eq!(find_bytes(b"", b"a"), None);
}

#[test]
fn groups_of_a_match() {
    let hay = b"0123456789";
    let m = vec![Some((2, 8)), Some((3, 5)), None, Some((8, 8)), Some((5, 3)), Some((9, 11))];
    assert_eq!(take_group(hay, &m, 0), Some(b("234567")));
    assert_eq!(take_group(hay, &m, 1), Some(b("34")));
    assert_eq!(take_group(hay, &m, 2), None);
    assert_eq!(take_group(hay, &m, 3), Some(b("")));
    assert_eq!(take_group(hay, &m, 4), None);
    assert_eq!(take_group(hay, &m, 5), None);
    assert_eq!(take_group(hay, &m, 6), None);
    let captures = vec![m.clone(), vec![Some((0, 1))], vec![Some((0, 2)), Some((1, 2))]];
    assert_eq!(collect_group(hay, &captures, 1), vec![b("34"), b("1")]);
    assert_eq!(collect_group(hay, &captures, 0), vec![b("234567"), b("0"), b("01")]);
    assert_eq!(collect_group(hay, &captures, 9), Vec::<Vec<u8>>::new());
}

#[test]
fn focus_block_is_found_inside_the_section() {
    let text = b"\tAAA={\n\t\tinstances_counter=3\n\t\tfocus={ a { b } c }\n\t}\n";
    let (lo, hi) = find_focus_block(text, 0, 3).unwrap();
    assert_eq!(&text[lo..hi], b" a { b } c ");
}

#[test]
fn focus_block_of_the_next_country_is_not_taken() {
    let text = b"\tAAA={\n\t\tinstances_counter=3\n\t}\n\tBBB={\n\t\tinstances_counter=4\n\t\tfocus={ x }\n\t}\n";
    assert_eq!(find_focus_block(text, 0, 3), None);
    let second = find_bytes(text, b"\tBBB").unwrap();
    let (lo, hi) = find_focus_block(text, second, 3).unwrap();
    assert_eq!(&text[lo..hi], b" x ");
}

#[test]
fn focus_block_edge_cases() {
    assert_eq!(find_focus_block(b"", 0, 3), None);
    assert_eq!(find_focus_block(b"\tAAA=", 0, 3), None);
    assert_eq!(find_focus_block(b"\tAAA={", 0, 3), None);
    assert_eq!(find_focus_block(b"\tAAA={\n\t\tfocus={ x }\n}", 50, 3), None);
    assert_eq!(find_focus_block(b"\tAAA={\n\t\tfocus={ x }\n}", 0, usize::MAX), None);
    assert_eq!(find_focus_block(b"\tAAA={\n\t\tfocus={ never closed\n}", 0, 3), None);
}

#[test]
fn country_without_completed_focuses_gets_none_of_its_neighbour() {
    let lists = extract_completed_focuses(TWO_COUNTRIES.as_bytes());
    assert_eq!(lists.len(), 1);
    assert_eq!(lists[0].0, tag("BBB"));
    assert_eq!(lists[0].1, vec![b("b_one"), b("b_two"), b("b_three")]);
    assert_eq!(find_completed(&lists, tag("AAA")), None);
    assert_eq!(find_completed(&lists, tag("BBB")).unwrap().len(), 3);
}

#[test]
fn completed_right_behind_a_closing_brace_stays_with_its_country() {
    let text = "\tAAA={\n\t\tinstances_counter=1\n\t\tfocus={\n\t\t}\n\t}\n\tBBB={\n\t\tinstances_counter=2\n\t\tfocus={completed=\"one\" completed=\"two\" completed=\"three\"}\n\t}\n";
    let lists = extract_completed_focuses(text.as_bytes());
    assert_eq!(lists, vec![(tag("BBB"), vec![b("one"), b("two"), b("three")])]);
}

#[test]
fn completed_outside_the_focus_block_is_passed_over() {
    let text = "\tAAA={\n\t\tinstances_counter=1\n\t\tcompleted=\"before\"\n\t\tfocus={\n\t\t\tcompleted=\"inside\"\n\t\t}\n\t\tcompleted=\"after\"\n\t}\ncompleted=\"root\"\n";
    let lists = extract_completed_focuses(text.as_bytes());
    assert_eq!(lists, vec![(tag("AAA"), vec![b("inside")])]);
}

#[test]
fn sections_need_their_exact_head() {
    assert_eq!(extract_completed_focuses(b""), vec![]);
    let no_counter = "\tAAA={\n\t\tfocus={ completed=\"x\" }\n\t}\n";
    assert_eq!(extract_completed_focuses(no_counter.as_bytes()), vec![]);
    let lower = "\taaa={\n\t\tinstances_counter=1\n\t\tfocus={ completed=\"x\" }\n\t}\n";
    assert_eq!(extract_completed_focuses(lower.as_bytes()), vec![]);
    let indented = "\t\tAAA={\n\t\tinstances_counter=1\n\t\tfocus={ completed=\"x\" }\n\t}\n";
    assert_eq!(extract_completed_focuses(indented.as_bytes()), vec![]);
}

#[test]
fn every_country_is_gathered_in_order() {
    let text = "\tCCC={\n\t\tinstances_counter=1\n\t\tfocus={ completed=\"c\" }\n\t}\n\tAAA={\n\t\tinstances_counter=1\n\t\tfocus={ completed=\"a\" }\n\t}\n\tCCC={\n\t\tinstances_counter=1\n\t\tfocus={ completed=\"again\" }\n\t}\n";
    let lists = extract_completed_focuses(text.as_bytes());
    assert_eq!(
        lists,
        vec![
            (tag("CCC"), vec![b("c")]),
            (tag("AAA"), vec![b("a")]),
            (tag("CCC"), vec![b("again")]),
        ]
    );
    assert_eq!(find_completed(&lists, tag("CCC")), Some(&vec![b("again")]));
}

#[test]
fn gather_for_one_head() {
    let text = TWO_COUNTRIES.as_bytes();
    let at = find_bytes(text, b"\tBBB").unwrap();
    let head = vec![Some((at, at + 10)), Some((at + 1, at + 4))];
    assert_eq!(
        gather_for(text, &head),
        Some((tag("BBB"), vec![b("b_one"), b("b_two"), b("b_three")]))
    );
    let at = find_bytes(text, b"\tAAA").unwrap();
    let head = vec![Some((at, at + 10)), Some((at + 1, at + 4))];
    assert_eq!(gather_for(text, &head), None);
    assert_eq!(gather_for(text, &vec![]), None);
    assert_eq!(gather_for(text, &vec![Some((0, 1)), None]), None);
    assert_eq!(gather_for(text, &vec![Some((0, 1)), Some((0, 2))]), None);
}

#[test]
fn character_numbers() {
    assert_eq!(parse_number(b"7"), Some(7));
    assert_eq!(parse_number(b"007"), Some(7));
    assert_eq!(parse_number(b"2147483647"), Some(i32::MAX));
    assert_eq!(parse_number(b"2147483648"), None);
    assert_eq!(parse_number(b"99999999999999999999999"), None);
    assert_eq!(parse_number(b""), None);
    assert_eq!(parse_number(b"-7"), None);
    assert_eq!(parse_number(b"+7"), None);
    assert_eq!(parse_number(b"7a"), None);
    assert_eq!(parse_number("\u{663}".as_bytes()), None);
}

#[test]
fn character_names_by_number() {
    let text = "character_manager={\n\tdatabase={\n\t\tcharacter={\n\t\t\tid={\n\t\t\t\tid=7 type=75\n\t\t\t}\n\t\t\tgender=male\n\t\t\tname=\"Smith\"\n\t\t}\n\t\tcharacter={ id={ id=8 type=75 } name=\"Jones\" }\n\t}\n}\n";
    let directory = extract_character_names(text.as_bytes());
    assert_eq!(directory.len(), 2);
    assert_eq!(directory.lookup(7), Some(b("Smith")));
    assert_eq!(directory.lookup(8), Some(b("Jones")));
    assert_eq!(directory.lookup(99), None);
}

#[test]
fn later_character_entry_replaces_earlier() {
    let text = "character={ id={ id=7 type=1 } name=\"First\" } character={ id={ id=7 type=1 } name=\"Second\" }";
    let directory = extract_character_names(text.as_bytes());
    assert_eq!(directory.len(), 1);
    assert_eq!(directory.lookup(7), Some(b("Second")));
}

#[test]
fn character_entries_that_do_not_fit_are_passed_over() {
    let too_big = "character={ id={ id=99999999999 type=1 } name=\"Big\" }";
    assert_eq!(extract_character_names(too_big.as_bytes()).len(), 0);
    let no_name = "character={ id={ id=7 type=1 } } name=\"Late\"";
    assert_eq!(extract_character_names(no_name.as_bytes()).len(), 0);
    let leader = "character={ id=7 type=75 }";
    assert_eq!(extract_character_names(leader.as_bytes()).len(), 0);
    assert_eq!(extract_character_names(b"").len(), 0);
}

#[test]
fn record_names_from_given_matches() {
    let text = b"xx12yyAnn";
    let captures = vec![
        vec![Some((0, 9)), Some((2, 4)), Some((6, 9))],
        vec![Some((0, 9)), Some((0, 2)), Some((6, 9))],
        vec![Some((0, 9)), Some((2, 3)), None],
        vec![Some((0, 9)), Some((3, 4)), Some((4, 6))],
    ];
    let mut directory = CharacterDirectory::new();
    directory.insert(1, b("kept"));
    record_names(text, &captures, &mut directory);
    assert_eq!(directory.len(), 3);
    assert_eq!(directory.lookup(12), Some(b("Ann")));
    assert_eq!(directory.lookup(2), Some(b("yy")));
    assert_eq!(directory.lookup(1), Some(b("kept")));
}
