use hoi4_parser::decode::{parse, parse_with_limit};
use hoi4_parser::encode::{push_all, serialize, write_node};
use hoi4_parser::lexer::tokenize;
use hoi4_parser::tree::Node;

fn s(text: &str) -> Node {
    Node::Scalar(text.as_bytes().to_vec())
}

fn pair(key: &str, value: Node) -> (Vec<u8>, Node) {
    (key.as_bytes().to_vec(), value)
}

fn text(bytes: &[u8]) -> String {
    String::from_utf8(bytes.to_vec()).unwrap()
}

fn assert_round_trip(input: &[u8]) {
    let first = parse(input).unwrap();
    let written = serialize(&first);
    let second = parse(&written).unwrap();
    assert_eq!(first, second, "after writing {:?}", text(&written));
}

#[test]
fn serialize_exact_text() {
    let root = Node::Object(vec![
        pair("a", s("1")),
        pair("b", Node::Array(vec![s("c"), s("d")])),
        pair("e", Node::Object(vec![pair("f", s("\"g h\""))])),
    ]);
    assert_eq!(text(&serialize(&root)), "a = 1 b = { c d } e = { f = \"g h\" } ");
}

#[test]
fn serialize_root_array_and_scalar() {
    assert_eq!(text(&serialize(&Node::Array(vec![s("x"), Node::Array(vec![])]))), "x { } ");
    assert_eq!(text(&serialize(&Node::Array(vec![]))), "");
    assert_eq!(text(&serialize(&s("lone"))), "lone ");
}

#[test]
fn serialize_member_without_key() {
    let root =
        Node::Object(vec![(Vec::new(), s("HOI4txt")), pair("player", s("\"GER\""))]);
    assert_eq!(text(&serialize(&root)), "HOI4txt player = \"GER\" ");
}

#[test]
fn write_node_with_and_without_braces() {
    let node = Node::Object(vec![pair("k", s("v"))]);
    let mut out: Vec<u8> = b"x ".to_vec();
    write_node(&node, &mut out, true);
    assert_eq!(text(&out), "x { k = v } ");
    let mut bare: Vec<u8> = Vec::new();
    write_node(&node, &mut bare, false);
    assert_eq!(text(&bare), "k = v ");
}

#[test]
fn push_all_appends() {
    let mut out: Vec<u8> = b"ab".to_vec();
    push_all(&mut out, b"cd");
    push_all(&mut out, b"");
    assert_eq!(out, b"abcd".to_vec());
}

#[test]
fn round_trip_simple() {
    assert_round_trip(b"a=1");
    assert_round_trip(b"");
    assert_round_trip(b"a b c");
    assert_round_trip(b"a={b=c}");
}

#[test]
fn round_trip_ignores_formatting() {
    let compact = parse(b"a={b=1 c={d e}}f=\"x y\"").unwrap();
    let spread = parse(b"  a = {\n\tb = 1 # note\n\tc = { d\te }\r\n}\n\nf\n=\n\"x y\"\n").unwrap();
    assert_eq!(compact, spread);
    assert_eq!(serialize(&compact), serialize(&spread));
}

#[test]
fn round_trip_mixed_content() {
    assert_round_trip(b"HOI4txt player=\"GER\" a = = b { } = x={ y = } z");
    assert_round_trip(b"a = b = c");
    assert_round_trip(b"= = =");
    assert_round_trip(b"k={ a=1 b c=2 { d } e={} }");
}

#[test]
fn round_trip_quotes_and_odd_words() {
    assert_round_trip(b"\"quoted key\"=\"{ } = # \" w#x=y\"z \"\"=\"\"");
    assert_round_trip("name=\"Kr\u{f6}ger\" \u{fc}=\u{1f600}".as_bytes());
}

#[test]
fn round_trip_keeps_duplicates() {
    let root = parse(b"k=1 k=2 k=1").unwrap();
    let again = parse(&serialize(&root)).unwrap();
    assert_eq!(again, Node::Object(vec![pair("k", s("1")), pair("k", s("2")), pair("k", s("1"))]));
}

#[test]
fn round_trip_keeps_depth() {
    let input = b"a={ b={ c={ d=1 } } }";
    let root = parse_with_limit(input, 3).unwrap();
    assert_eq!(parse_with_limit(&serialize(&root), 3).unwrap(), root);
}

#[test]
fn round_trip_country_section() {
    assert_round_trip(
        b"countries={\n\tGER={\n\t\tinstances_counter=7\n\t\tstability=0.523\n\t\tfocus={ completed=\"a\" completed=\"b\" current=c progress=12.5 }\n\t}\n}\n",
    );
}

#[test]
fn serialized_text_has_the_same_tokens() {
    let input = b"a={ b = 1 \"c d\" }   e";
    let before: Vec<Vec<u8>> = tokenize(input).unwrap().into_iter().map(|t| t.raw).collect();
    let written = serialize(&parse(input).unwrap());
    let after: Vec<Vec<u8>> = tokenize(&written).unwrap().into_iter().map(|t| t.raw).collect();
    assert_eq!(before, after);
}

fn next(state: &mut u64) -> u64 {
    *state = state.wrapping_mul(6364136223846793005).wrapping_add(1442695040888963407);
    *state >> 33
}

#[test]
fn round_trip_over_many_generated_inputs() {
    let alphabet: &[u8] = b"a1.-= {}\"#\n\tz";
    let mut state: u64 = 0x5eed;
    let mut decoded = 0;
    for _ in 0..4000 {
        let len = (next(&mut state) % 24) as usize;
        let input: Vec<u8> =
            (0..len).map(|_| alphabet[(next(&mut state) % alphabet.len() as u64) as usize]).collect();
        if let Ok(first) = parse(&input) {
            decoded += 1;
            let written = serialize(&first);
            assert_eq!(parse(&written).unwrap(), first, "input {:?}", text(&input));
            let before: Vec<Vec<u8>> =
                tokenize(&input).unwrap().into_iter().map(|t| t.raw).collect();
            let after: Vec<Vec<u8>> =
                tokenize(&written).unwrap().into_iter().map(|t| t.raw).collect();
            assert_eq!(before, after, "input {:?}", text(&input));
        }
    }
    assert!(decoded > 100);
}

#[test]
fn unequal_brace_counts_over_many_generated_inputs() {
    let alphabet: &[u8] = b"ab= {}{}\n";
    let mut state: u64 = 0xb4ace5;
    let mut unequal = 0;
    for _ in 0..4000 {
        let len = (next(&mut state) % 16) as usize;
        let input: Vec<u8> =
            (0..len).map(|_| alphabet[(next(&mut state) % alphabet.len() as u64) as usize]).collect();
        let opens = input.iter().filter(|b| **b == b'{').count();
        let closes = input.iter().filter(|b| **b == b'}').count();
        if opens != closes {
            unequal += 1;
            assert!(
                matches!(
                    parse(&input),
                    Err(hoi4_parser::error::DecodeError::UnbalancedBraces { .. })
                ),
                "input {:?}",
                text(&input)
            );
        }
    }
    assert!(unequal > 100);
}
