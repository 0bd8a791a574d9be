use hoi4_parser::decimal::Decimal;
use hoi4_parser::decode::{decode_save, decode_save_with_limit, decode_text_save, parse};
use hoi4_parser::directory::{
    build_directory, read_database_entry, scan_characters, CharacterDirectory,
};
use hoi4_parser::error::{DecodeError, Field, Shape};
use hoi4_parser::model::{
    Character, CountryLeader, CountryTag, EnhancedCountry, EnhancedHoi4Save, Focus, GameDate,
    Parties, Party, Politics,
};
use hoi4_parser::reconcile::{
    attach_completed, attach_names, copy_texts, find_completed, name_character, name_country,
    name_leader, name_leaders, name_opt_party, name_parties, name_party, name_politics,
    set_completed,
};
use hoi4_parser::schema::records::{resolve_save};
use hoi4_parser::tree::Node;

fn b(text: &str) -> Vec<u8> {
    text.as_bytes().to_vec()
}

fn tag(text: &str) -> CountryTag {
    let t = text.as_bytes();
    CountryTag { first: t[0], second: t[1], third: t[2] }
}

fn value(text: &str) -> Node {
    match parse(format!("v={}", text).as_bytes()).unwrap() {
        Node::Object(mut entries) => entries.remove(0).1,
        other => panic!("not an object: {:?}", other),
    }
}

fn smith() -> CharacterDirectory {
    let mut directory = CharacterDirectory::new();
    directory.insert(7, b("Smith"));
    directory
}

fn character(id: Option<i32>) -> Character {
    Character { id, kind: Some(1), name: None }
}

fn leader(id: i32) -> CountryLeader {
    CountryLeader { ideology: Some(b("x")), character: Some(character(Some(id))) }
}

fn country(focus: Option<Focus>, politics: Option<Politics>) -> EnhancedCountry {
    EnhancedCountry {
        stability: Decimal { mantissa: 6, scale: 1 },
        war_support: Decimal { mantissa: 5, scale: 1 },
        variables: vec![],
        politics,
        focus,
    }
}

fn focus(completed: Vec<Vec<u8>>) -> Focus {
    Focus { progress: None, current: Some(b("now")), paused: None, completed }
}

fn politics_with(leaders: Vec<CountryLeader>) -> Politics {
    Politics {
        ruling_party: None,
        political_power: None,
        parties: Some(Parties {
            democratic: None,
            communism: None,
            fascism: Some(Party { popularity: None, country_leader: Some(leaders) }),
            neutrality: None,
        }),
        ideas: None,
        last_election: None,
        elections_allowed: None,
    }
}

fn save(countries: Vec<(CountryTag, EnhancedCountry)>) -> EnhancedHoi4Save {
    EnhancedHoi4Save {
        player: b("GER"),
        date: GameDate { year: 1936, month: 1, day: 1, hour: 12 },
        countries,
        fired_event_names: vec![b("e.1")],
    }
}

#[test]
fn directory_basics() {
    let mut directory = CharacterDirectory::new();
    assert_eq!(directory.len(), 0);
    assert!(!directory.contains(7));
    assert_eq!(directory.lookup(7), None);
    directory.insert(7, b("Smith"));
    directory.insert(8, b("Jones"));
    assert_eq!(directory.len(), 2);
    assert!(directory.contains(7));
    assert_eq!(directory.lookup(7), Some(b("Smith")));
    assert_eq!(directory.lookup(8), Some(b("Jones")));
    assert_eq!(directory.lookup(99), None);
    directory.insert(7, b("Smythe"));
    assert_eq!(directory.len(), 2);
    assert_eq!(directory.lookup(7), Some(b("Smythe")));
}

#[test]
fn known_character_gets_its_name() {
    let named = name_leader(leader(7), &smith());
    assert_eq!(named.character.unwrap().name, Some(b("Smith")));
}

#[test]
fn unknown_character_stays_unnamed() {
    let named = name_leader(leader(99), &smith());
    assert_eq!(named.character, Some(Character { id: Some(99), kind: Some(1), name: None }));
}

#[test]
fn name_character_cases() {
    let directory = smith();
    assert_eq!(
        name_character(character(Some(7)), &directory),
        Character { id: Some(7), kind: Some(1), name: Some(b("Smith")) }
    );
    assert_eq!(name_character(character(None), &directory), character(None));
    let kept = Character { id: Some(99), kind: None, name: Some(b("Old")) };
    assert_eq!(name_character(kept.clone(), &directory), kept);
    let replaced = Character { id: Some(7), kind: None, name: Some(b("Old")) };
    assert_eq!(name_character(replaced, &directory).name, Some(b("Smith")));
}

#[test]
fn leader_without_character_is_untouched() {
    let plain = CountryLeader { ideology: Some(b("x")), character: None };
    assert_eq!(name_leader(plain.clone(), &smith()), plain);
}

#[test]
fn names_reach_every_leader_of_every_party() {
    let directory = smith();
    let named = name_leaders(vec![leader(7), leader(99), leader(7)], &directory);
    let names: Vec<Option<Vec<u8>>> =
        named.into_iter().map(|l| l.character.unwrap().name).collect();
    assert_eq!(names, vec![Some(b("Smith")), None, Some(b("Smith"))]);
    let party = Party { popularity: None, country_leader: Some(vec![leader(7)]) };
    let named = name_party(party.clone(), &directory);
    assert_eq!(named.country_leader.unwrap()[0].character.as_ref().unwrap().name, Some(b("Smith")));
    assert_eq!(name_opt_party(None, &directory), None);
    let bare = Party { popularity: None, country_leader: None };
    assert_eq!(name_opt_party(Some(bare.clone()), &directory), Some(bare));
    let parties = Parties {
        democratic: Some(party.clone()),
        communism: None,
        fascism: None,
        neutrality: Some(party),
    };
    let named = name_parties(parties, &directory);
    assert_eq!(
        named.neutrality.unwrap().country_leader.unwrap()[0].character.as_ref().unwrap().name,
        Some(b("Smith"))
    );
    assert_eq!(
        named.democratic.unwrap().country_leader.unwrap()[0].character.as_ref().unwrap().name,
        Some(b("Smith"))
    );
}

#[test]
fn names_keep_everything_else() {
    let directory = smith();
    let politics = politics_with(vec![leader(7)]);
    let named = name_politics(politics.clone(), &directory);
    assert_eq!(named.ruling_party, politics.ruling_party);
    let before = country(Some(focus(vec![b("f")])), Some(politics));
    let after = name_country(before.clone(), &directory);
    assert_eq!(after.stability, before.stability);
    assert_eq!(after.focus, before.focus);
    assert_ne!(after.politics, before.politics);
    let plain = country(None, None);
    assert_eq!(name_country(plain.clone(), &directory), plain);
}

#[test]
fn attach_names_over_a_save() {
    let before = save(vec![
        (tag("GER"), country(None, Some(politics_with(vec![leader(7)])))),
        (tag("SOV"), country(None, Some(politics_with(vec![leader(99)])))),
        (tag("ENG"), country(None, None)),
    ]);
    let after = attach_names(before.clone(), &smith());
    assert_eq!(after.player, before.player);
    assert_eq!(after.date, before.date);
    assert_eq!(after.fired_event_names, before.fired_event_names);
    assert_eq!(after.countries.len(), 3);
    let first = &after.countries[0];
    assert_eq!(first.0, tag("GER"));
    let named = first.1.politics.as_ref().unwrap().parties.as_ref().unwrap().fascism.as_ref();
    assert_eq!(
        named.unwrap().country_leader.as_ref().unwrap()[0].character.as_ref().unwrap().name,
        Some(b("Smith"))
    );
    assert_eq!(after.countries[1], before.countries[1]);
    assert_eq!(after.countries[2], before.countries[2]);
}

#[test]
fn attach_names_with_empty_directory_changes_nothing() {
    let before = save(vec![(tag("GER"), country(None, Some(politics_with(vec![leader(7)]))))]);
    assert_eq!(attach_names(before.clone(), &CharacterDirectory::new()), before);
}

#[test]
fn database_entries() {
    assert_eq!(
        read_database_entry(&value("{ id={ id=7 type=75 } portrait=x name=\"Smith\" }")),
        Some((7, b("Smith")))
    );
    assert_eq!(read_database_entry(&value("{ id=7 name=\"Smith\" }")), None);
    assert_eq!(read_database_entry(&value("{ id={ id=7 } }")), None);
    assert_eq!(read_database_entry(&value("{ id={ id=x } name=a }")), None);
    assert_eq!(read_database_entry(&value("{ id={ type=1 } name=a }")), None);
    assert_eq!(read_database_entry(&value("{ name=a name=b id={ id=1 } }")), None);
    assert_eq!(read_database_entry(&value("{ id={ id=1 } name={ a } }")), None);
    assert_eq!(read_database_entry(&value("7")), None);
}

#[test]
fn directory_is_built_by_a_scan_of_the_tree() {
    let root = parse(
        b"countries={ GER={ politics={ parties={ fascism={ country_leader={ character={ id=7 type=75 } } } } } } }\ncharacter_manager={ database={ character={ id={ id=7 type=75 } name=\"Smith\" } character={ id={ id=8 type=75 } name=\"Jones\" } { character={ id={ id=9 type=1 } name=\"Deep\" } } character={ id={ id=7 type=75 } name=\"Smythe\" } } }",
    )
    .unwrap();
    let directory = build_directory(&root);
    assert_eq!(directory.len(), 3);
    assert_eq!(directory.lookup(7), Some(b("Smythe")));
    assert_eq!(directory.lookup(8), Some(b("Jones")));
    assert_eq!(directory.lookup(9), Some(b("Deep")));
}

#[test]
fn scan_adds_to_what_is_known() {
    let mut directory = smith();
    scan_characters(&value("{ character={ id={ id=8 } name=b } x={ 1 2 } }"), &mut directory);
    assert_eq!(directory.len(), 2);
    assert_eq!(directory.lookup(7), Some(b("Smith")));
    assert_eq!(directory.lookup(8), Some(b("b")));
    scan_characters(&value("x"), &mut directory);
    assert_eq!(directory.len(), 2);
}

#[test]
fn completed_lists_are_found_by_tag() {
    let lists = vec![
        (tag("GER"), vec![b("a")]),
        (tag("SOV"), vec![b("b"), b("c")]),
        (tag("GER"), vec![b("d")]),
    ];
    assert_eq!(find_completed(&lists, tag("SOV")), Some(&vec![b("b"), b("c")]));
    assert_eq!(find_completed(&lists, tag("GER")), Some(&vec![b("d")]));
    assert_eq!(find_completed(&lists, tag("ENG")), None);
    assert_eq!(find_completed(&vec![], tag("GER")), None);
    assert_eq!(copy_texts(&vec![b("x"), b("")]), vec![b("x"), b("")]);
}

#[test]
fn set_completed_needs_a_focus_and_a_list() {
    let list = vec![b("x"), b("y")];
    let with_focus = country(Some(focus(vec![b("old")])), None);
    let done = set_completed(with_focus.clone(), Some(&list));
    assert_eq!(done.focus.as_ref().unwrap().completed, list);
    assert_eq!(done.focus.as_ref().unwrap().current, Some(b("now")));
    assert_eq!(set_completed(with_focus.clone(), None), with_focus);
    let without = country(None, None);
    assert_eq!(set_completed(without.clone(), Some(&list)), without);
}

#[test]
fn completed_focuses_go_to_their_own_country_only() {
    let before = save(vec![
        (tag("AAA"), country(Some(focus(vec![])), None)),
        (tag("BBB"), country(Some(focus(vec![])), None)),
        (tag("CCC"), country(None, None)),
    ]);
    let lists = vec![(tag("BBB"), vec![b("one"), b("two"), b("three")]), (tag("CCC"), vec![b("x")])];
    let after = attach_completed(before.clone(), &lists);
    assert_eq!(after.countries[0].1.focus.as_ref().unwrap().completed.len(), 0);
    assert_eq!(
        after.countries[1].1.focus.as_ref().unwrap().completed,
        vec![b("one"), b("two"), b("three")]
    );
    assert_eq!(after.countries[2], before.countries[2]);
    assert_eq!(after.countries[0], before.countries[0]);
    assert_eq!(after.player, before.player);
}

#[test]
fn resolver_scopes_completed_focuses_by_section() {
    let root = parse(
        b"player=x date=1.1.1 countries={\n\tAAA={\n\t\tfocus={ current=f }\n\t}\n\tBBB={\n\t\tfocus={ completed=\"b1\" completed=\"b2\" completed=\"b3\" }\n\t}\n}",
    )
    .unwrap();
    let save = resolve_save(&root).unwrap();
    assert_eq!(save.countries[0].1.focus.as_ref().unwrap().completed.len(), 0);
    assert_eq!(
        save.countries[1].1.focus.as_ref().unwrap().completed,
        vec![b("b1"), b("b2"), b("b3")]
    );
}

#[test]
fn completed_outside_a_focus_block_is_not_a_focus() {
    let root = parse(
        b"player=x date=1.1.1 completed=\"root\" countries={ AAA={ completed=\"stray\" focus={ inner={ completed=\"deep\" } completed=\"mine\" } } }",
    )
    .unwrap();
    let save = resolve_save(&root).unwrap();
    assert_eq!(save.countries[0].1.focus.as_ref().unwrap().completed, vec![b("mine")]);
}

#[test]
fn decode_save_in_one_pass() {
    let save = decode_save(
        b"HOI4txt\nplayer=\"GER\"\ndate=\"1936.1.1.12\"\ncountries={\n\tGER={\n\t\tstability=0.7\n\t\tpolitics={ parties={ fascism={ popularity=40 country_leader={ ideology=nazism character={ id=7 type=75 } } country_leader={ character={ id=99 type=75 } } } } }\n\t}\n}\ncharacter_manager={ database={ character={ id={ id=7 type=75 } name=\"Smith\" } } }\n",
    )
    .unwrap();
    let leaders = save.countries[0]
        .1
        .politics
        .as_ref()
        .unwrap()
        .parties
        .as_ref()
        .unwrap()
        .fascism
        .as_ref()
        .unwrap()
        .country_leader
        .as_ref()
        .unwrap();
    assert_eq!(leaders.len(), 2);
    assert_eq!(leaders[0].character.as_ref().unwrap().name, Some(b("Smith")));
    assert_eq!(leaders[1].character.as_ref().unwrap().name, None);
    assert_eq!(leaders[1].character.as_ref().unwrap().id, Some(99));
}

#[test]
fn decode_save_reports_each_kind_of_error() {
    assert_eq!(decode_save(&[0xff]).unwrap_err(), DecodeError::MalformedEncoding { offset: 0 });
    assert_eq!(decode_save(b"\"x").unwrap_err(), DecodeError::UnterminatedString { offset: 0 });
    assert_eq!(
        decode_save(b"player=x {").unwrap_err(),
        DecodeError::UnbalancedBraces { offset: 9 }
    );
    assert_eq!(
        decode_save(b"player={ }").unwrap_err(),
        DecodeError::SchemaMismatch {
            field: Field::Player,
            expected: Shape::Text,
            actual: Shape::Array,
        }
    );
    let mut deep: Vec<u8> = Vec::new();
    for _ in 0..513 {
        deep.push(b'{');
    }
    for _ in 0..513 {
        deep.push(b'}');
    }
    assert_eq!(decode_save(&deep).unwrap_err(), DecodeError::DepthExceeded { offset: 512 });
}

#[test]
fn decode_save_with_a_limit_of_its_own() {
    let text = b"player=x date=1.1.1 countries={ GER={ focus={ current=a } } }";
    assert!(decode_save_with_limit(text, 3).is_ok());
    assert_eq!(
        decode_save_with_limit(text, 2).unwrap_err(),
        DecodeError::DepthExceeded { offset: 44 }
    );
}

#[test]
fn variables_are_looked_up_by_name() {
    let mut c = country(None, None);
    c.variables = vec![
        (b("a"), Decimal { mantissa: 1, scale: 0 }),
        (b("b"), Decimal { mantissa: 2, scale: 0 }),
        (b("a"), Decimal { mantissa: 3, scale: 0 }),
    ];
    assert_eq!(c.variable(b"a"), Some(Decimal { mantissa: 3, scale: 0 }));
    assert_eq!(c.variable(b"b"), Some(Decimal { mantissa: 2, scale: 0 }));
    assert_eq!(c.variable(b"c"), None);
    assert_eq!(country(None, None).variable(b"a"), None);
}

#[test]
fn only_a_file_headed_as_text_is_decoded() {
    let save = decode_text_save(b"HOI4txt\nplayer=\"GER\" date=1936.1.1.12").unwrap().unwrap();
    assert_eq!(save.player, b("GER"));
    assert_eq!(
        decode_text_save(b"HOI4txt"),
        Some(Err(DecodeError::SchemaMismatch {
            field: Field::Root,
            expected: Shape::Object,
            actual: Shape::Array,
        }))
    );
    assert_eq!(
        decode_text_save(b"HOI4txt }"),
        Some(Err(DecodeError::UnbalancedBraces { offset: 8 }))
    );
    assert_eq!(decode_text_save(b"HOI4bin\x01\x02"), None);
    assert_eq!(decode_text_save(b"HOI4tx"), None);
    assert_eq!(decode_text_save(b""), None);
    assert_eq!(decode_text_save(b" HOI4txt player=x date=1.1.1"), None);
    assert_eq!(decode_text_save(b"hoi4txt player=x date=1.1.1"), None);
    assert_eq!(decode_text_save(b"player=x date=1.1.1"), None);
}
