use hoi4_parser::decimal::Decimal;
use hoi4_parser::decode::parse;
use hoi4_parser::error::{DecodeError, Field, Shape};
use hoi4_parser::model::{
    Character, CountryLeader, CountryTag, EnhancedCountry, Focus, GameDate, Parties, Party,
    Politics,
};
use hoi4_parser::schema::convert::{
    node_bool,
    node_date,
    node_integer,
    node_number,
    node_shape,
    node_text,
    parse_date,
    parse_tag,
};
use hoi4_parser::schema::fields::{
    bool_field,
    date_field,
    fraction_field,
    integer_field,
    number_field,
    read_value_texts,
    required_text,
    text_field,
    text_list,
};
use hoi4_parser::schema::lookup::{
    bytes_eq,
    collect_values,
    find_field,
    unquote,
    Found,
};
use hoi4_parser::schema::records::{
    country_defaults,
    defaulted,
    save_defaults,
    leader_list,
    list_nodes,
    party_field,
    resolve_character,
    resolve_countries,
    resolve_country,
    resolve_focus,
    resolve_leader,
    resolve_parties,
    resolve_party,
    resolve_politics,
    resolve_save,
    resolve_variables,
};
use hoi4_parser::tree::Node;

fn s(text: &str) -> Node {
    Node::Scalar(text.as_bytes().to_vec())
}

fn b(text: &str) -> Vec<u8> {
    text.as_bytes().to_vec()
}

fn members(text: &str) -> Vec<(Vec<u8>, Node)> {
    match parse(text.as_bytes()).unwrap() {
        Node::Object(entries) => entries,
        other => panic!("not an object: {:?}", other),
    }
}

fn value(text: &str) -> Node {
    let mut entries = members(&format!("v={}", text));
    entries.remove(0).1
}

fn mismatch(field: Field, expected: Shape, actual: Shape) -> DecodeError {
    DecodeError::SchemaMismatch { field, expected, actual }
}

fn tag(text: &str) -> CountryTag {
    let t = text.as_bytes();
    CountryTag { first: t[0], second: t[1], third: t[2] }
}

fn dec(mantissa: i64, scale: u8) -> Decimal {
    Decimal { mantissa, scale }
}

#[test]
fn field_names() {
    assert_eq!(Field::Stability.name(), "stability");
    assert_eq!(Field::WarSupport.name(), "war_support");
    assert_eq!(Field::Kind.name(), "type");
    assert_eq!(Field::FiredEventNames.name(), "fired_event_names");
    assert_eq!(Field::CountryLeader.name(), "country_leader");
    assert_eq!(Field::Root.name(), "");
}

#[test]
fn error_offset_and_kind() {
    assert_eq!(DecodeError::UnbalancedBraces { offset: 7 }.offset(), Some(7));
    assert_eq!(DecodeError::MalformedEncoding { offset: 1 }.offset(), Some(1));
    assert_eq!(DecodeError::UnterminatedString { offset: 2 }.offset(), Some(2));
    assert_eq!(DecodeError::DepthExceeded { offset: 3 }.offset(), Some(3));
    let m = mismatch(Field::Stability, Shape::Fraction, Shape::Object);
    assert_eq!(m.offset(), None);
    assert_eq!(m.kind(), "SchemaMismatch");
    assert_eq!(DecodeError::DepthExceeded { offset: 3 }.kind(), "DepthExceeded");
    assert_eq!(DecodeError::UnbalancedBraces { offset: 3 }.kind(), "UnbalancedBraces");
    assert_eq!(DecodeError::MalformedEncoding { offset: 3 }.kind(), "MalformedEncoding");
    assert_eq!(DecodeError::UnterminatedString { offset: 3 }.kind(), "UnterminatedString");
}

#[test]
fn unquote_and_compare() {
    assert_eq!(unquote(b"\"abc\""), b"abc");
    assert_eq!(unquote(b"abc"), b"abc");
    assert_eq!(unquote(b"\"\""), b"");
    assert_eq!(unquote(b"\""), b"\"");
    assert_eq!(unquote(b"\"a"), b"\"a");
    assert!(bytes_eq(b"abc", b"abc"));
    assert!(bytes_eq(b"", b""));
    assert!(!bytes_eq(b"abc", b"abd"));
    assert!(!bytes_eq(b"abc", b"ab"));
}

#[test]
fn shapes_of_nodes() {
    assert_eq!(node_shape(&s("1.5")), Shape::Number);
    assert_eq!(node_shape(&s("\"1.5\"")), Shape::Text);
    assert_eq!(node_shape(&s("1936.1.1")), Shape::Date);
    assert_eq!(node_shape(&s("abc")), Shape::Identifier);
    assert_eq!(node_shape(&s("=")), Shape::Punctuation);
    assert_eq!(node_shape(&Node::Array(vec![])), Shape::Array);
    assert_eq!(node_shape(&value("{ a=1 }")), Shape::Object);
}

#[test]
fn scalar_conversions() {
    assert_eq!(node_text(&s("\"GER\"")), Some(b("GER")));
    assert_eq!(node_text(&s("neutrality")), Some(b("neutrality")));
    assert_eq!(node_text(&s("12")), Some(b("12")));
    assert_eq!(node_text(&s("=")), None);
    assert_eq!(node_text(&Node::Array(vec![])), None);
    assert_eq!(node_number(&s("0.75")), Some(dec(75, 2)));
    assert_eq!(node_number(&s("\"0.75\"")), None);
    assert_eq!(node_number(&s("x")), None);
    assert_eq!(node_integer(&s("7")), Some(7));
    assert_eq!(node_integer(&s("-7")), Some(-7));
    assert_eq!(node_integer(&s("7.0")), None);
    assert_eq!(node_integer(&s("2147483647")), Some(i32::MAX));
    assert_eq!(node_integer(&s("2147483648")), None);
    assert_eq!(node_integer(&s("-2147483648")), Some(i32::MIN));
    assert_eq!(node_integer(&s("-2147483649")), None);
    assert_eq!(node_bool(&s("yes")), Some(true));
    assert_eq!(node_bool(&s("no")), Some(false));
    assert_eq!(node_bool(&s("\"yes\"")), None);
    assert_eq!(node_bool(&s("1")), None);
}

#[test]
fn date_conversions() {
    assert_eq!(
        parse_date(b"1936.1.1.12"),
        Some(GameDate { year: 1936, month: 1, day: 1, hour: 12 })
    );
    assert_eq!(parse_date(b"1939.09.01"), Some(GameDate { year: 1939, month: 9, day: 1, hour: 0 }));
    assert_eq!(
        parse_date(b"65535.12.31.24"),
        Some(GameDate { year: 65535, month: 12, day: 31, hour: 24 })
    );
    assert_eq!(parse_date(b"65536.1.1"), None);
    assert_eq!(parse_date(b"1936.13.1"), None);
    assert_eq!(parse_date(b"1936.0.1"), None);
    assert_eq!(parse_date(b"1936.1.32"), None);
    assert_eq!(parse_date(b"1936.1.0"), None);
    assert_eq!(parse_date(b"1936.1.1.0"), None);
    assert_eq!(parse_date(b"1936.1.1.25"), None);
    assert_eq!(parse_date(b"1936.1"), None);
    assert_eq!(parse_date(b"today"), None);
    assert_eq!(
        node_date(&s("\"1936.1.1.12\"")),
        Some(GameDate { year: 1936, month: 1, day: 1, hour: 12 })
    );
    assert_eq!(node_date(&s("1936.1.2")), Some(GameDate { year: 1936, month: 1, day: 2, hour: 0 }));
    assert_eq!(node_date(&Node::Array(vec![])), None);
}

#[test]
fn country_tags() {
    assert_eq!(parse_tag(b"GER"), Some(tag("GER")));
    assert_eq!(parse_tag(b"D01"), Some(tag("D01")));
    assert_eq!(parse_tag(b"---"), Some(tag("---")));
    assert_eq!(parse_tag(b"abc"), Some(tag("abc")));
    assert_eq!(parse_tag(b"GE"), None);
    assert_eq!(parse_tag(b"GERM"), None);
    assert_eq!(parse_tag(b""), None);
    assert_eq!(parse_tag(b"G_R"), None);
    assert_eq!(parse_tag(b"G R"), None);
    assert_eq!(parse_tag(&[b'G', 0xc3, 0xa9]), None);
    assert_eq!(tag("GER").to_bytes(), b("GER"));
}

#[test]
fn lookups_among_members() {
    let entries = members("a=1 b=2 a=3 \"c\"=4 x");
    let all_a: Vec<Node> = vec![s("1"), s("3")];
    let found = collect_values(&entries, b"a");
    assert_eq!(found.len(), 2);
    assert_eq!(*found[0], all_a[0]);
    assert_eq!(*found[1], all_a[1]);
    assert_eq!(collect_values(&entries, b"c").len(), 1);
    assert_eq!(collect_values(&entries, b"x").len(), 0);
    assert_eq!(collect_values(&entries, b"").len(), 0);
    let entries = members("id=7 type=1 type=2");
    assert!(matches!(find_field(&entries, Field::Id), Found::One(node) if *node == s("7")));
    assert!(matches!(find_field(&entries, Field::Kind), Found::Repeated));
    assert!(matches!(find_field(&entries, Field::Name), Found::Absent));
}

#[test]
fn single_fields() {
    let entries = members(
        "ruling_party=fascism popularity=32.5 stability=0.75 id=12 elections_allowed=no date=\"1936.1.1.12\" player=\"GER\"",
    );
    assert_eq!(text_field(&entries, Field::RulingParty), Ok(Some(b("fascism"))));
    assert_eq!(text_field(&entries, Field::LastElection), Ok(None));
    assert_eq!(number_field(&entries, Field::Popularity), Ok(Some(dec(325, 1))));
    assert_eq!(number_field(&entries, Field::Progress), Ok(None));
    assert_eq!(fraction_field(&entries, Field::Stability), Ok(dec(75, 2)));
    assert_eq!(integer_field(&entries, Field::Id), Ok(Some(12)));
    assert_eq!(bool_field(&entries, Field::ElectionsAllowed), Ok(Some(false)));
    assert_eq!(
        date_field(&entries, Field::Date),
        Ok(GameDate { year: 1936, month: 1, day: 1, hour: 12 })
    );
    assert_eq!(required_text(&entries, Field::Player), Ok(b("GER")));
}

#[test]
fn absent_fraction_is_one_half() {
    let entries = members("x=1");
    assert_eq!(fraction_field(&entries, Field::Stability), Ok(dec(5, 1)));
    assert_eq!(fraction_field(&entries, Field::WarSupport), Ok(Decimal::half()));
}

#[test]
fn single_field_mismatches() {
    let entries = members(
        "stability={ a=1 } war_support=1.5 popularity=high id=1.5 elections_allowed=maybe date=1936 ruling_party={ } player==",
    );
    assert_eq!(
        fraction_field(&entries, Field::Stability),
        Err(mismatch(Field::Stability, Shape::Fraction, Shape::Object))
    );
    assert_eq!(
        fraction_field(&entries, Field::WarSupport),
        Err(mismatch(Field::WarSupport, Shape::Fraction, Shape::Number))
    );
    assert_eq!(
        number_field(&entries, Field::Popularity),
        Err(mismatch(Field::Popularity, Shape::Number, Shape::Identifier))
    );
    assert_eq!(
        integer_field(&entries, Field::Id),
        Err(mismatch(Field::Id, Shape::Integer, Shape::Number))
    );
    assert_eq!(
        bool_field(&entries, Field::ElectionsAllowed),
        Err(mismatch(Field::ElectionsAllowed, Shape::Boolean, Shape::Identifier))
    );
    assert_eq!(
        date_field(&entries, Field::Date),
        Err(mismatch(Field::Date, Shape::Date, Shape::Number))
    );
    assert_eq!(
        text_field(&entries, Field::RulingParty),
        Err(mismatch(Field::RulingParty, Shape::Text, Shape::Array))
    );
}

#[test]
fn repeated_single_field_is_a_mismatch() {
    let entries = members("stability=0.1 stability=0.2 id=1 id=2 player=a player=b date=1.1.1 date=1.1.1");
    assert_eq!(
        fraction_field(&entries, Field::Stability),
        Err(mismatch(Field::Stability, Shape::Fraction, Shape::Repeated))
    );
    assert_eq!(
        integer_field(&entries, Field::Id),
        Err(mismatch(Field::Id, Shape::Integer, Shape::Repeated))
    );
    assert_eq!(
        required_text(&entries, Field::Player),
        Err(mismatch(Field::Player, Shape::Text, Shape::Repeated))
    );
    assert_eq!(
        date_field(&entries, Field::Date),
        Err(mismatch(Field::Date, Shape::Date, Shape::Repeated))
    );
}

#[test]
fn required_fields_missing() {
    let entries = members("x=1");
    assert_eq!(
        required_text(&entries, Field::Player),
        Err(mismatch(Field::Player, Shape::Text, Shape::Missing))
    );
    assert_eq!(
        date_field(&entries, Field::Date),
        Err(mismatch(Field::Date, Shape::Date, Shape::Missing))
    );
}

#[test]
fn text_lists() {
    let entries = members("ideas={ a \"b c\" d } completed=\"x\" completed=\"y\" completed={ z }");
    assert_eq!(text_list(&entries, Field::Ideas), Ok(Some(vec![b("a"), b("b c"), b("d")])));
    assert_eq!(text_list(&entries, Field::Completed), Ok(Some(vec![b("x"), b("y"), b("z")])));
    assert_eq!(text_list(&entries, Field::FiredEventNames), Ok(None));
}

#[test]
fn single_occurrence_resolves_to_one_element() {
    let entries = members("ideas=only completed=\"one\"");
    assert_eq!(text_list(&entries, Field::Ideas), Ok(Some(vec![b("only")])));
    assert_eq!(text_list(&entries, Field::Completed), Ok(Some(vec![b("one")])));
}

#[test]
fn empty_list_is_present_but_empty() {
    let entries = members("ideas={ }");
    assert_eq!(text_list(&entries, Field::Ideas), Ok(Some(vec![])));
}

#[test]
fn text_list_of_keyed_members_lists_every_token() {
    let entries = members("fired_event_names={ id=generic.1 id=news.2 }");
    assert_eq!(
        text_list(&entries, Field::FiredEventNames),
        Ok(Some(vec![b("id"), b("="), b("generic.1"), b("id"), b("="), b("news.2")]))
    );
    assert_eq!(
        read_value_texts(&value("{ a = b c }"), Field::Ideas),
        Ok(vec![b("a"), b("="), b("b"), b("c")])
    );
}

#[test]
fn text_list_mismatch_on_nested_group() {
    let entries = members("ideas={ a { b } }");
    assert_eq!(
        text_list(&entries, Field::Ideas),
        Err(mismatch(Field::Ideas, Shape::Text, Shape::Array))
    );
    let entries = members("ideas={ a=1 b={ c=1 } }");
    assert_eq!(
        text_list(&entries, Field::Ideas),
        Err(mismatch(Field::Ideas, Shape::Text, Shape::Object))
    );
}

#[test]
fn character_record() {
    assert_eq!(
        resolve_character(&value("{ id=7 type=75 }")),
        Ok(Character { id: Some(7), kind: Some(75), name: None })
    );
    assert_eq!(
        resolve_character(&value("{ }")),
        Ok(Character { id: None, kind: None, name: None })
    );
    assert_eq!(
        resolve_character(&value("{ id=x }")),
        Err(mismatch(Field::Id, Shape::Integer, Shape::Identifier))
    );
    assert_eq!(
        resolve_character(&s("7")),
        Err(mismatch(Field::Character, Shape::Object, Shape::Number))
    );
}

#[test]
fn leader_record() {
    assert_eq!(
        resolve_leader(&value("{ ideology=nazism character={ id=7 type=75 } }")),
        Ok(CountryLeader {
            ideology: Some(b("nazism")),
            character: Some(Character { id: Some(7), kind: Some(75), name: None }),
        })
    );
    assert_eq!(
        resolve_leader(&value("{ character=7 }")),
        Err(mismatch(Field::Character, Shape::Object, Shape::Number))
    );
    assert_eq!(
        resolve_leader(&value("{ character={ } character={ } }")),
        Err(mismatch(Field::Character, Shape::Object, Shape::Repeated))
    );
    assert_eq!(
        resolve_leader(&value("{ a b }")),
        Err(mismatch(Field::CountryLeader, Shape::Object, Shape::Array))
    );
}

#[test]
fn repeated_leaders_are_all_kept() {
    let entries = members(
        "country_leader={ ideology=a } popularity=1 country_leader={ ideology=b } country_leader={ ideology=c }",
    );
    let leaders = leader_list(&entries).unwrap().unwrap();
    let ideologies: Vec<Option<Vec<u8>>> = leaders.into_iter().map(|l| l.ideology).collect();
    assert_eq!(ideologies, vec![Some(b("a")), Some(b("b")), Some(b("c"))]);
}

#[test]
fn single_leader_is_a_sequence_of_one() {
    let entries = members("country_leader={ ideology=a }");
    let leaders = leader_list(&entries).unwrap().unwrap();
    assert_eq!(leaders, vec![CountryLeader { ideology: Some(b("a")), character: None }]);
    assert_eq!(leader_list(&members("x=1")), Ok(None));
}

#[test]
fn leaders_in_an_array_are_listed() {
    let entries = members("country_leader={ { ideology=a } { ideology=b } }");
    let leaders = leader_list(&entries).unwrap().unwrap();
    assert_eq!(leaders.len(), 2);
    assert_eq!(leaders[1].ideology, Some(b("b")));
    let a = value("{ { x=1 } y }");
    let c = s("c");
    let listed = list_nodes(&vec![&a, &c]);
    assert_eq!(listed.len(), 3);
    assert_eq!(*listed[1], s("y"));
    assert_eq!(*listed[2], s("c"));
}

#[test]
fn leader_mismatch_is_reported() {
    let entries = members("country_leader={ ideology=a } country_leader=7");
    assert_eq!(
        leader_list(&entries),
        Err(mismatch(Field::CountryLeader, Shape::Object, Shape::Number))
    );
}

#[test]
fn party_and_parties() {
    let node = value("{ popularity=32.5 country_leader={ ideology=x } }");
    assert_eq!(
        resolve_party(&node, Field::Fascism),
        Ok(Party {
            popularity: Some(dec(325, 1)),
            country_leader: Some(vec![CountryLeader { ideology: Some(b("x")), character: None }]),
        })
    );
    assert_eq!(
        resolve_party(&s("x"), Field::Communism),
        Err(mismatch(Field::Communism, Shape::Object, Shape::Identifier))
    );
    let entries = members("fascism={ popularity=1 } fascism={ popularity=2 }");
    assert_eq!(
        party_field(&entries, Field::Fascism),
        Err(mismatch(Field::Fascism, Shape::Object, Shape::Repeated))
    );
    assert_eq!(party_field(&entries, Field::Democratic), Ok(None));
    let parties = resolve_parties(&value("{ democratic={ popularity=10 } neutrality={ } }")).unwrap();
    assert_eq!(
        parties,
        Parties {
            democratic: Some(Party { popularity: Some(dec(10, 0)), country_leader: None }),
            communism: None,
            fascism: None,
            neutrality: Some(Party { popularity: None, country_leader: None }),
        }
    );
}

#[test]
fn politics_record() {
    let node = value(
        "{ ruling_party=neutrality political_power=120.5 parties={ fascism={ popularity=5 } } ideas={ a b } last_election=\"1933.3.5\" elections_allowed=yes unknown={ 1 2 } }",
    );
    assert_eq!(
        resolve_politics(&node),
        Ok(Politics {
            ruling_party: Some(b("neutrality")),
            political_power: Some(dec(1205, 1)),
            parties: Some(Parties {
                democratic: None,
                communism: None,
                fascism: Some(Party { popularity: Some(dec(5, 0)), country_leader: None }),
                neutrality: None,
            }),
            ideas: Some(vec![b("a"), b("b")]),
            last_election: Some(b("1933.3.5")),
            elections_allowed: Some(true),
        })
    );
    assert_eq!(
        resolve_politics(&value("{ }")),
        Ok(Politics {
            ruling_party: None,
            political_power: None,
            parties: None,
            ideas: None,
            last_election: None,
            elections_allowed: None,
        })
    );
    assert_eq!(
        resolve_politics(&s("x")),
        Err(mismatch(Field::Politics, Shape::Object, Shape::Identifier))
    );
    assert_eq!(
        resolve_politics(&value("{ parties=x }")),
        Err(mismatch(Field::Parties, Shape::Object, Shape::Identifier))
    );
}

#[test]
fn focus_record() {
    let node = value("{ completed=\"a\" progress=12.5 completed=\"b\" current=c paused=d }");
    assert_eq!(
        resolve_focus(&node),
        Ok(Focus {
            progress: Some(dec(125, 1)),
            current: Some(b("c")),
            paused: Some(b("d")),
            completed: vec![b("a"), b("b")],
        })
    );
    assert_eq!(
        resolve_focus(&value("{ }")),
        Ok(Focus { progress: None, current: None, paused: None, completed: vec![] })
    );
    assert_eq!(
        resolve_focus(&value("{ progress=x }")),
        Err(mismatch(Field::Progress, Shape::Number, Shape::Identifier))
    );
}

#[test]
fn variables_of_a_country() {
    let entries = members("variables={ a=1.5 \"b c\"=-2 lone d=0 }");
    assert_eq!(
        resolve_variables(&entries),
        Ok(vec![(b("a"), dec(15, 1)), (b("b c"), dec(-2, 0)), (b("d"), dec(0, 0))])
    );
    assert_eq!(resolve_variables(&members("x=1")), Ok(vec![]));
    assert_eq!(resolve_variables(&members("variables={ }")), Ok(vec![]));
    assert_eq!(
        resolve_variables(&members("variables={ a=x }")),
        Err(mismatch(Field::Variables, Shape::Number, Shape::Identifier))
    );
    assert_eq!(
        resolve_variables(&members("variables=3")),
        Err(mismatch(Field::Variables, Shape::Object, Shape::Number))
    );
    assert_eq!(
        resolve_variables(&members("variables={ } variables={ }")),
        Err(mismatch(Field::Variables, Shape::Object, Shape::Repeated))
    );
}

#[test]
fn country_record() {
    let node = value(
        "{ instances_counter=5 stability=0.523 war_support=0.1 variables={ v=1 } politics={ ruling_party=x } focus={ current=f } }",
    );
    let country = resolve_country(&node).unwrap();
    assert_eq!(country.stability, dec(523, 3));
    assert_eq!(country.war_support, dec(1, 1));
    assert_eq!(country.variables, vec![(b("v"), dec(1, 0))]);
    assert_eq!(country.politics.unwrap().ruling_party, Some(b("x")));
    assert_eq!(country.focus.unwrap().current, Some(b("f")));
}

#[test]
fn country_defaults_to_one_half() {
    let country = resolve_country(&value("{ }")).unwrap();
    assert_eq!(
        country,
        EnhancedCountry {
            stability: dec(5, 1),
            war_support: dec(5, 1),
            variables: vec![],
            politics: None,
            focus: None,
        }
    );
}

#[test]
fn country_reports_defaulted_fields() {
    assert_eq!(
        country_defaults(&value("{ }")),
        vec![Field::Stability, Field::WarSupport, Field::Variables]
    );
    assert_eq!(country_defaults(&value("{ stability=0.5 }")), vec![Field::WarSupport, Field::Variables]);
    assert_eq!(
        country_defaults(&value("{ war_support=0.5 stability=0.5 variables={ } }")),
        Vec::<Field>::new()
    );
    assert_eq!(country_defaults(&s("x")), Vec::<Field>::new());
}

#[test]
fn save_reports_defaulted_fields() {
    assert_eq!(
        save_defaults(&parse(b"player=x date=1.1.1").unwrap()),
        vec![Field::Countries, Field::FiredEventNames]
    );
    assert_eq!(
        save_defaults(&parse(b"player=x fired_event_names={ }").unwrap()),
        vec![Field::Countries]
    );
    assert_eq!(save_defaults(&parse(b"countries={ } fired_event_names=a").unwrap()), vec![]);
}

#[test]
fn defaulted_reports_the_given_fields_in_order() {
    let node = value("{ current=a completed=b completed=c }");
    assert_eq!(
        defaulted(&node, &[Field::Paused, Field::Completed, Field::Current, Field::Progress]),
        vec![Field::Paused, Field::Progress]
    );
    assert_eq!(defaulted(&node, &[]), vec![]);
    assert_eq!(defaulted(&Node::Array(vec![]), &[Field::Id]), vec![Field::Id]);
    assert_eq!(defaulted(&Node::Array(vec![s("a")]), &[Field::Id]), vec![]);
}

#[test]
fn country_mismatches() {
    assert_eq!(
        resolve_country(&s("x")),
        Err(mismatch(Field::Countries, Shape::Object, Shape::Identifier))
    );
    assert_eq!(
        resolve_country(&value("{ stability=2 }")),
        Err(mismatch(Field::Stability, Shape::Fraction, Shape::Number))
    );
    assert_eq!(
        resolve_country(&value("{ stability=-0.1 }")),
        Err(mismatch(Field::Stability, Shape::Fraction, Shape::Number))
    );
    assert_eq!(
        resolve_country(&value("{ focus=x politics=y }")),
        Err(mismatch(Field::Politics, Shape::Object, Shape::Identifier))
    );
    assert_eq!(
        resolve_country(&value("{ focus=x }")),
        Err(mismatch(Field::Focus, Shape::Object, Shape::Identifier))
    );
    assert_eq!(
        resolve_country(&value("{ focus={ } focus={ } }")),
        Err(mismatch(Field::Focus, Shape::Object, Shape::Repeated))
    );
}

#[test]
fn countries_in_the_order_of_the_save() {
    let entries = members("countries={ SOV={ stability=0.6 } GER={ } \"ENG\"={ war_support=0.25 } }");
    let countries = resolve_countries(&entries).unwrap();
    let tags: Vec<CountryTag> = countries.iter().map(|c| c.0).collect();
    assert_eq!(tags, vec![tag("SOV"), tag("GER"), tag("ENG")]);
    assert_eq!(countries[0].1.stability, dec(6, 1));
    assert_eq!(countries[2].1.war_support, dec(25, 2));
}

#[test]
fn country_count_equals_distinct_tags() {
    let entries = members("countries={ AAA={ } BBB={ } lone CCC={ } { } DDD={ } }");
    let countries = resolve_countries(&entries).unwrap();
    assert_eq!(countries.len(), 4);
    let mut tags: Vec<Vec<u8>> = countries.iter().map(|c| c.0.to_bytes()).collect();
    tags.sort();
    tags.dedup();
    assert_eq!(tags.len(), 4);
}

#[test]
fn duplicate_tag_is_refused_not_merged() {
    let entries = members("countries={ GER={ stability=0.1 } SOV={ } GER={ stability=0.9 } }");
    assert_eq!(
        resolve_countries(&entries),
        Err(mismatch(Field::Countries, Shape::Tag, Shape::Repeated))
    );
}

#[test]
fn key_that_is_no_tag_is_refused() {
    assert_eq!(
        resolve_countries(&members("countries={ GERMANY={ } }")),
        Err(mismatch(Field::Countries, Shape::Tag, Shape::Identifier))
    );
    assert_eq!(
        resolve_countries(&members("countries={ 12=3 }")),
        Err(mismatch(Field::Countries, Shape::Tag, Shape::Number))
    );
    assert_eq!(
        resolve_countries(&members("countries={ \"G R\"={ } }")),
        Err(mismatch(Field::Countries, Shape::Tag, Shape::Text))
    );
}

#[test]
fn countries_root_shapes() {
    assert_eq!(resolve_countries(&members("x=1")), Ok(vec![]));
    assert_eq!(resolve_countries(&members("countries={ }")), Ok(vec![]));
    assert_eq!(
        resolve_countries(&members("countries=7")),
        Err(mismatch(Field::Countries, Shape::Object, Shape::Number))
    );
    assert_eq!(
        resolve_countries(&members("countries={ } countries={ }")),
        Err(mismatch(Field::Countries, Shape::Object, Shape::Repeated))
    );
    assert_eq!(
        resolve_countries(&members("countries={ GER=7 }")),
        Err(mismatch(Field::Countries, Shape::Object, Shape::Number))
    );
}

#[test]
fn whole_save() {
    let root = parse(
        b"HOI4txt\nplayer=\"GER\"\ndate=\"1936.1.1.12\"\ncountries={\n\tGER={ stability=0.7 }\n\tSOV={ }\n}\nfired_event_names={ a.1 b.2 }\n",
    )
    .unwrap();
    let save = resolve_save(&root).unwrap();
    assert_eq!(save.player, b("GER"));
    assert_eq!(save.date, GameDate { year: 1936, month: 1, day: 1, hour: 12 });
    assert_eq!(save.countries.len(), 2);
    assert_eq!(save.countries[0].0, tag("GER"));
    assert_eq!(save.countries[0].1.stability, dec(7, 1));
    assert_eq!(save.countries[1].1.stability, dec(5, 1));
    assert_eq!(save.fired_event_names, vec![b("a.1"), b("b.2")]);
}

#[test]
fn save_without_countries_or_events() {
    let save = resolve_save(&parse(b"player=x date=1.1.1").unwrap()).unwrap();
    assert_eq!(save.countries.len(), 0);
    assert_eq!(save.fired_event_names.len(), 0);
}

#[test]
fn save_mismatches_in_field_order() {
    assert_eq!(
        resolve_save(&parse(b"").unwrap()).unwrap_err(),
        mismatch(Field::Player, Shape::Text, Shape::Missing)
    );
    assert_eq!(
        resolve_save(&parse(b"a b").unwrap()).unwrap_err(),
        mismatch(Field::Root, Shape::Object, Shape::Array)
    );
    assert_eq!(
        resolve_save(&parse(b"player=x").unwrap()).unwrap_err(),
        mismatch(Field::Date, Shape::Date, Shape::Missing)
    );
    assert_eq!(
        resolve_save(&parse(b"date=bad countries=1 player=x").unwrap()).unwrap_err(),
        mismatch(Field::Date, Shape::Date, Shape::Identifier)
    );
    assert_eq!(
        resolve_save(&parse(b"date=1.1.1 countries=1 player=x fired_event_names={ { } }").unwrap())
            .unwrap_err(),
        mismatch(Field::Countries, Shape::Object, Shape::Number)
    );
    assert_eq!(
        resolve_save(&parse(b"date=1.1.1 player=x fired_event_names={ { } }").unwrap())
            .unwrap_err(),
        mismatch(Field::FiredEventNames, Shape::Text, Shape::Array)
    );
}

#[test]
fn resolving_does_not_change_the_tree() {
    let text = b"player=x date=1.1.1 countries={ GER={ stability=0.1 } }";
    let root = parse(text).unwrap();
    let _ = resolve_save(&root).unwrap();
    assert_eq!(root, parse(text).unwrap());
}
