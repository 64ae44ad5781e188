use exl3::filter::gbnf::{parse, Grammar};
use exl3::filter::json_schema::{any_json, compile};
use exl3::filter::matcher::Matcher;
use exl3::filter::ByteAcceptor;
use exl3::json::{Json, Num};
use std::sync::Arc;

fn m(src: &str) -> Matcher {
    Matcher::new(Arc::new(parse(src).unwrap()))
}

/// Feed a whole string, return (still live, complete).
fn run(src: &str, input: &str) -> (bool, bool) {
    let mut mm = m(src);
    mm.accept_bytes(input.as_bytes());
    (!mm.is_stuck() || mm.is_complete(), mm.is_complete())
}

fn text(s: &str) -> Json {
    Json::Text(s.to_string())
}

fn object(members: Vec<(&str, Json)>) -> Json {
    Json::Object(members.into_iter().map(|(k, v)| (k.to_string(), v)).collect())
}

fn typed(name: &str) -> Json {
    object(vec![("type", text(name))])
}

fn number(n: u64) -> Json {
    Json::Number(Num::Unsigned(n))
}

fn accepts(g: Grammar, input: &str) -> bool {
    assert!(g.is_sound());
    let mut mm = Matcher::new(Arc::new(g));
    mm.accept_bytes(input.as_bytes());
    mm.can_end()
}

#[test]
fn literal_alternation() {
    assert_eq!(run("root ::= \"yes\" | \"no\"", "yes").1, true);
    assert_eq!(run("root ::= \"yes\" | \"no\"", "no").1, true);
    let mut mm = m("root ::= \"yes\" | \"no\"");
    mm.accept_bytes(b"y");
    assert!(!mm.is_complete() && !mm.is_stuck());
    mm.accept_bytes(b"x");
    assert!(mm.is_dead() && !mm.is_complete());
}

#[test]
fn repetition_and_class() {
    // one or more digits
    let mut mm = m("root ::= [0-9]+");
    mm.accept_bytes(b"1");
    assert!(mm.acceptor().can_end());
    mm.accept_bytes(b"42");
    assert!(mm.acceptor().can_end());
    let mut bad = m("root ::= [0-9]+");
    bad.accept_bytes(b"a");
    assert!(bad.is_stuck());
}

#[test]
fn optional_and_group() {
    let g = "root ::= \"a\" (\"b\" | \"c\")? \"d\"";
    assert_eq!(run(g, "ad").1, true);
    assert_eq!(run(g, "abd").1, true);
    assert_eq!(run(g, "acd").1, true);
    assert_eq!(run(g, "aed").1, false);
}

#[test]
fn json_any() {
    let gr = any_json().unwrap();
    let mut mm = Matcher::new(Arc::new(gr));
    mm.accept_bytes(b"{\"a\": 1}");
    assert!(mm.acceptor().can_end(), "valid object should be acceptable");
}

#[test]
fn json_schema_object() {
    let schema = object(vec![
        ("type", text("object")),
        ("properties", object(vec![("name", typed("string")), ("age", typed("integer"))])),
        ("required", Json::List(vec![text("name"), text("age")])),
    ]);
    let gr = compile(&schema).unwrap();
    let mut mm = Matcher::new(Arc::new(gr));
    mm.accept_bytes(b"{\"name\": \"bob\" , \"age\": 42}");
    assert!(mm.acceptor().can_end());
}

#[test]
fn json_schema_full_object_stream() {
    // feed a realistic continuation byte by byte: every prefix stays live
    let schema = object(vec![
        ("type", text("object")),
        (
            "properties",
            object(vec![("name", typed("string")), ("age", typed("integer")), ("city", typed("string"))]),
        ),
        ("required", Json::List(vec![text("name"), text("age")])),
    ]);
    let gr = Arc::new(compile(&schema).unwrap());
    let full = r#"{"name": "Alice", "age": 30, "city": "Paris"}"#;
    let mut mm = Matcher::new(gr.clone());
    for (i, ch) in full.char_indices() {
        let before_dead = mm.is_dead();
        mm.accept_bytes(&[ch as u8]);
        assert!(!mm.is_dead() || before_dead, "died feeding {:?} at byte {i} of {full}", ch);
    }
    assert!(mm.acceptor().can_end());
    // the opening brace is allowed from the start, leading white space is not
    let acc = Matcher::new(gr.clone()).acceptor();
    assert!(acc.step(b'{').is_some(), "start state rejects '{{'");
    assert!(acc.step(b' ').is_none(), "start state should reject leading ws");
    // a whole character of three bytes is rejected at the start
    let cjk = "中".as_bytes();
    let mut a = Some(Matcher::new(gr).acceptor());
    for &b in cjk {
        a = a.and_then(|x| x.step(b));
    }
    assert!(a.is_none(), "start state should reject a CJK char");
}

#[test]
fn json_schema_optional_prop() {
    let schema = object(vec![
        ("type", text("object")),
        ("properties", object(vec![("id", typed("integer")), ("note", typed("string"))])),
        ("required", Json::List(vec![text("id")])),
    ]);
    let gr = Arc::new(compile(&schema).unwrap());
    // required only
    let mut a = Matcher::new(gr.clone());
    a.accept_bytes(b"{\"id\": 7}");
    assert!(a.acceptor().can_end());
    // required and optional
    let mut b = Matcher::new(gr.clone());
    b.accept_bytes(b"{\"id\": 7, \"note\": \"hi\"}");
    assert!(b.acceptor().can_end());
    // without the required one it is rejected
    let mut c = Matcher::new(gr);
    c.accept_bytes(b"{\"note\": \"hi\"}");
    assert!(c.is_dead());
}

#[test]
fn errors_have_their_messages() {
    let cases = [
        ("", "empty grammar"),
        ("# nothing\n", "empty grammar"),
        ("start ::= \"a\"", "grammar has no `root` rule"),
        ("root ::= \"a\")", "unmatched )"),
        ("root ::= (\"a\"", "missing )"),
        ("root ::= \"a", "unterminated string"),
        ("root ::= [a", "unterminated char class"),
        ("root ::= []", "empty char class"),
        ("root ::= @", "unexpected char '@' in grammar"),
        ("root ::= \"\\xZZ\"", "bad \\x"),
        ("root ::= \"\\uZZZZ\"", "bad \\u"),
        ("root ::= \"a\"{x}", "bad {n}"),
        ("root ::= \"a\"{x,2}", "bad {m,n}"),
    ];
    for (src, want) in cases {
        match parse(src) {
            Ok(_) => panic!("{src:?} parsed"),
            Err(e) => assert_eq!(e, want, "{src:?}"),
        }
    }
}

#[test]
fn unexpected_characters_are_shown_escaped() {
    let e = parse("root ::= \"a\" \u{7}").err().unwrap();
    assert_eq!(e, "unexpected char '\\u{7}' in grammar");
    let e = parse("root ::= é").err().unwrap();
    assert_eq!(e, "unexpected char 'é' in grammar");
}

#[test]
fn rules_that_never_come_to_rest_are_not_sound() {
    assert!(parse("root ::= \"a\" root | \"b\"").unwrap().is_sound());
    assert!(!parse("root ::= root \"a\" | \"b\"").unwrap().is_sound());
    assert!(!parse("root ::= missing").unwrap().is_sound());
    // a rule that cannot be reached does not matter
    assert!(parse("root ::= \"a\"\nother ::= other").unwrap().is_sound());
}

#[test]
fn counts_bound_repetition() {
    let g = "root ::= \"a\"{2,3}";
    assert!(!accepts(parse(g).unwrap(), "a"));
    assert!(accepts(parse(g).unwrap(), "aa"));
    assert!(accepts(parse(g).unwrap(), "aaa"));
    assert!(!accepts(parse(g).unwrap(), "aaaa"));
    let g = "root ::= [ab]{2}";
    assert!(accepts(parse(g).unwrap(), "ab"));
    assert!(!accepts(parse(g).unwrap(), "a"));
    let g = "root ::= \"x\"{1,} \"y\"";
    assert!(accepts(parse(g).unwrap(), "xxxxy"));
    assert!(!accepts(parse(g).unwrap(), "y"));
}

#[test]
fn classes_and_escapes_match_characters() {
    assert!(accepts(parse("root ::= [^a-c]").unwrap(), "d"));
    assert!(!accepts(parse("root ::= [^a-c]").unwrap(), "b"));
    assert!(accepts(parse("root ::= \"\\n\\t\\\\\\\"\\x41\"").unwrap(), "\n\t\\\"A"));
    assert!(accepts(parse("root ::= .").unwrap(), "é"));
}

#[test]
fn broken_bytes_are_read_as_replacement_characters() {
    // an unfinished character reads as U+FFFD, which a negated class takes
    let mut mm = m("root ::= [^a]");
    mm.accept_bytes(&[0xE2, 0x82]);
    assert!(mm.is_complete());
    let mut mm = m("root ::= \"é\"");
    mm.accept_bytes("é".as_bytes());
    assert!(mm.is_complete());
    let mut mm = m("root ::= \"é\"");
    mm.accept_bytes(&[0xC3]);
    assert!(mm.is_dead());
}

#[test]
fn byte_by_byte_steps_agree_with_whole_texts() {
    let g = "root ::= \"naïve\" [0-9]{1,2}";
    let mut a = Some(m(g).acceptor());
    for &b in "naïve42".as_bytes() {
        a = a.and_then(|x| x.step(b));
    }
    assert!(a.unwrap().can_end());
    let mut mm = m(g);
    mm.accept_text("naïve42");
    assert!(mm.can_end());
    // an unfinished character waits for its last byte
    let waiting = m(g).acceptor().step(0xC3).unwrap();
    assert!(!waiting.can_end());
    assert!(waiting.step(0xA9).is_none());
    assert!(m(g).acceptor().step(0xFF).is_none());
}

#[test]
fn enumerations_and_constants_are_literal() {
    let schema = object(vec![("enum", Json::List(vec![text("a\"b"), number(3), Json::Bool(true), Json::Null]))]);
    for good in ["\"a\\\"b\"", "3", "true", "null"] {
        assert!(accepts(compile(&schema).unwrap(), good), "{good}");
    }
    assert!(!accepts(compile(&schema).unwrap(), "\"a\"b\""));
    assert!(!accepts(compile(&schema).unwrap(), "4"));
    let schema = object(vec![("const", text("line\nbreak"))]);
    assert!(accepts(compile(&schema).unwrap(), "\"line\\nbreak\""));
}

#[test]
fn constants_accept_their_compact_text_alone() {
    let schema = object(vec![("const", text("a#b"))]);
    let mut mm = Matcher::new(Arc::new(compile(&schema).unwrap()));
    mm.accept_bytes(b"\"a#b\"");
    assert!(mm.is_complete());
    let nested = Json::List(vec![object(vec![("k#\"", Json::Null), ("x", number(12))]), text("]\\[")]);
    let schema = object(vec![("const", nested)]);
    let whole = "[{\"k#\\\"\":null,\"x\":12},\"]\\\\[\"]";
    let mut mm = Matcher::new(Arc::new(compile(&schema).unwrap()));
    mm.accept_bytes(whole.as_bytes());
    assert!(mm.is_complete());
    for bad in ["", "[]", &whole[..whole.len() - 1], "[{\"k#\\\"\": null}]"] {
        assert!(!accepts(compile(&schema).unwrap(), bad), "{bad}");
    }
    let schema = object(vec![("enum", Json::List(vec![text("::="), text("# not a comment"), text("é\u{1}")]))]);
    for good in ["\"::=\"", "\"# not a comment\"", "\"é\\u0001\""] {
        assert!(accepts(compile(&schema).unwrap(), good), "{good}");
    }
    assert!(!accepts(compile(&schema).unwrap(), "\"#"));
}

#[test]
fn property_names_are_written_as_json_texts() {
    for name in ["plain", "with \"quotes\"", "back\\slash", "two\nlines", "hash # sign", "é"] {
        let schema = object(vec![
            ("type", text("object")),
            ("properties", object(vec![(name, typed("integer"))])),
            ("required", Json::List(vec![text(name)])),
        ]);
        let key = exl3::json::to_text(&text(name));
        assert!(accepts(compile(&schema).unwrap(), &format!("{{{key}: 5}}")), "{name}");
        assert!(!accepts(compile(&schema).unwrap(), "{\"other\": 5}"), "{name}");
    }
}

#[test]
fn comments_begin_outside_literals_and_classes() {
    let g = "root ::= \"#\" [#x\\]] # \"the end\nmore ::= \"never\" # [";
    assert_eq!(run(g, "#x"), (true, true));
    assert_eq!(run(g, "##"), (true, true));
    assert_eq!(run(g, "#]"), (true, true));
    assert!(!run(g, "#y").1);
    assert_eq!(run("root ::= \"a\\\"#b\" # c", "a\"#b"), (true, true));
}

#[test]
fn arrays_and_references_are_followed() {
    let schema = object(vec![
        ("$ref", text("#/$defs/node")),
        (
            "$defs",
            object(vec![(
                "node",
                object(vec![
                    ("type", text("array")),
                    ("items", object(vec![("$ref", text("#/$defs/node"))])),
                ]),
            )]),
        ),
    ]);
    assert!(accepts(compile(&schema).unwrap(), "[[], [[]]]"));
    assert!(!accepts(compile(&schema).unwrap(), "[1]"));
}

#[test]
fn definitions_may_be_called_anything() {
    let names = ["a.b", "a-b", "with space", "\u{e9}#", "a-46-b"];
    let values = || names.iter().enumerate().map(|(i, n)| (*n, object(vec![("const", number(i as u64))]))).collect();
    for (i, n) in names.iter().enumerate() {
        let schema = object(vec![
            (
                "anyOf",
                Json::List(vec![
                    object(vec![("$ref", text(&format!("#/definitions/{n}")))]),
                    object(vec![("$ref", text(&format!("#/definitions/{}", names[0])))]),
                ]),
            ),
            ("definitions", object(values())),
        ]);
        for k in 0..names.len() {
            assert_eq!(accepts(compile(&schema).unwrap(), &k.to_string()), k == i || k == 0, "{n} {k}");
        }
    }
}

#[test]
fn any_json_takes_nested_objects() {
    for good in ["{\"a\": [1, 2.5e-3, {\"k\": [null, true]}]}", "{\"\\u00e9\": -0.5}", "{}", "{ }"] {
        assert!(accepts(any_json().unwrap(), good), "{good}");
    }
    for bad in ["{", "[1]", "{\"a\": 01}", "{\"a\": tru}", " {}", "{\"a\": 1,}", "{} "] {
        assert!(!accepts(any_json().unwrap(), bad), "{bad}");
    }
}
