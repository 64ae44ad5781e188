use exl3::filter::acceptor::ByteAcceptor;
use exl3::filter::gbnf::parse;
use exl3::filter::mask::TokenMask;
use exl3::filter::matcher::Matcher;
use exl3::filter::state::{apply_filters, FilterState};
use exl3::filter::trie::VocabTrie;
use exl3::generator::grammar::{compile_grammar, compile_json_object, compile_json_schema, FilterError};
use exl3::json::Json;
use std::sync::Arc;

fn trie(pieces: &[&str], width: usize) -> Arc<VocabTrie> {
    Arc::new(VocabTrie::build(pieces.iter().map(|s| s.to_string()).collect(), width))
}

fn filter(src: &str, t: &Arc<VocabTrie>, trigger: Option<i64>, stops: bool) -> FilterState {
    let g = parse(src).unwrap();
    assert!(g.is_sound());
    FilterState::new(Matcher::new(Arc::new(g)), t.clone(), trigger, stops)
}

fn ids(m: &TokenMask) -> Vec<usize> {
    (0..m.len()).filter(|&i| m.is_allowed(i)).collect()
}

#[test]
fn masks_hold_sets_of_tokens() {
    let mut m = TokenMask::all_denied(130);
    assert_eq!((m.len(), m.count()), (130, 0));
    m.allow(0);
    m.allow(64);
    m.allow(129);
    m.allow(130);
    assert_eq!(ids(&m), vec![0, 64, 129]);
    let mut o = TokenMask::all_denied(130);
    o.allow(64);
    o.allow(65);
    let before = m.duplicate();
    m.intersect(&o);
    assert_eq!(ids(&m), vec![64]);
    assert_eq!(before.count(), 3);
    assert_eq!(TokenMask::all_allowed(70).count(), 70);
    assert_eq!(o.to_row(3), vec![false, false, false]);
    assert_eq!(TokenMask::all_allowed(2).to_row(3), vec![true, true, false]);
}

#[test]
fn tries_find_what_an_acceptor_takes() {
    let t = trie(&["a", "ab", "b", "", "abc", "ab"], 8);
    assert_eq!(t.vocab(), 8);
    assert_eq!(t.piece(4), "abc");
    assert_eq!(t.piece(-1), "");
    assert_eq!(t.piece(99), "");
    let g = parse("root ::= \"ab\" \"c\"?").unwrap();
    let mut out = TokenMask::all_denied(t.vocab());
    t.collect_allowed(&Matcher::new(Arc::new(g)).acceptor(), &mut out);
    // two tokens with the same text are both found, one with none is not
    assert_eq!(ids(&out), vec![0, 1, 4, 5]);
}

#[test]
fn filters_allow_what_the_grammar_takes() {
    let t = trie(&["y", "es", "n", "o", "yes", "no", "x"], 7);
    let mut f = filter("root ::= \"yes\" | \"no\"", &t, None, true);
    assert!(f.is_active());
    assert_eq!(ids(&f.mask()), vec![0, 2, 4, 5]);
    assert!(!f.feed(0));
    assert_eq!(ids(&f.mask()), vec![1]);
    assert_eq!(f.additive(7), Some(vec![false, true, false, false, false, false, false]));
    // a state seen before gives its row at the width asked for
    assert_eq!(f.additive(3), Some(vec![false, true, false]));
    assert_eq!(
        f.additive(9),
        Some(vec![false, true, false, false, false, false, false, false, false])
    );
    assert!(f.feed(1));
    assert!(!f.is_active());
    assert_eq!(f.additive(7), None);
}

#[test]
fn acceptors_step_as_the_matcher_does() {
    let g = Arc::new(parse("root ::= \"h\" [\\u00e0-\\u00ff]+ \"z\"?").unwrap());
    for text in ["h", "h\u{e9}", "h\u{e9}\u{e8}z", "h\u{e9}x", "\u{e9}"] {
        let m = Matcher::new(g.clone());
        let mut acc = Some(m.acceptor());
        for &b in text.as_bytes() {
            acc = acc.and_then(|a| a.step(b));
        }
        let mut fed = Matcher::new(g.clone());
        fed.accept_bytes(text.as_bytes());
        assert_eq!(acc.is_some(), !fed.is_dead(), "{text}");
        if let Some(a) = acc {
            assert_eq!(a.can_end(), fed.can_end(), "{text}");
        }
        assert!(!m.is_dead() && !m.can_end());
    }
}

#[test]
fn caches_drop_the_state_used_longest_ago() {
    // more states than the caches hold, with the first one used over and over
    let t = trie(&["a", "b"], 2);
    let src = format!("root ::= {}", vec!["\"a\""; 200].join(" "));
    let mut f = filter(&src, &t, None, false);
    for _ in 0..199 {
        assert_eq!(ids(&f.mask()), vec![0]);
        f.feed(0);
    }
    f.rewind(199);
    for _ in 0..199 {
        assert_eq!(f.additive(2), Some(vec![true, false]));
        f.feed(0);
    }
    assert_eq!(f.additive(1), Some(vec![true]));
}

#[test]
fn completion_is_told_only_where_it_ends_the_job() {
    let t = trie(&["a"], 1);
    assert!(filter("root ::= \"a\"", &t, None, true).feed(0));
    assert!(!filter("root ::= \"a\"", &t, None, false).feed(0));
}

#[test]
fn triggers_start_a_filter() {
    let t = trie(&["<t>", "a", "b"], 3);
    let mut f = filter("root ::= \"a\"", &t, Some(0), false);
    assert!(!f.is_active());
    f.feed(2);
    assert!(!f.is_active());
    f.feed(0);
    assert!(f.is_active());
    assert_eq!(ids(&f.mask()), vec![1]);
    f.feed(1);
    assert!(!f.is_active());
}

#[test]
fn rewinding_goes_back_over_the_fed_tokens() {
    let t = trie(&["a", "b", "c"], 3);
    let mut f = filter("root ::= \"a\" \"b\" \"c\"", &t, None, true);
    f.feed(0);
    let after_a = ids(&f.mask());
    f.feed(1);
    assert!(f.feed(2));
    assert!(!f.is_active());
    f.rewind(2);
    assert!(f.is_active());
    assert_eq!(ids(&f.mask()), after_a);
    f.rewind(99);
    assert_eq!(ids(&f.mask()), vec![0]);
}

#[test]
fn filters_are_combined() {
    let t = trie(&["a", "b", "c", "d"], 4);
    let one = filter("root ::= [abc] \"x\"", &t, None, true);
    let two = filter("root ::= [bcd] \"x\"", &t, None, true);
    assert_eq!(apply_filters(&mut vec![], 4), None);
    let mut fs = vec![one];
    assert_eq!(apply_filters(&mut fs, 5), Some(vec![true, true, true, false, false]));
    fs.push(two);
    assert_eq!(apply_filters(&mut fs, 4), Some(vec![false, true, true, false]));
    // one that waits for its trigger does not count
    fs.push(filter("root ::= \"d\"", &t, Some(3), true));
    assert_eq!(apply_filters(&mut fs, 4), Some(vec![false, true, true, false]));
}

#[test]
fn grammars_compile_to_filters() {
    let t = trie(&["{", "}", "1", "\"k\"", ":", "x", "[", "]"], 8);
    let mut f = compile_json_object(&t).ok().unwrap();
    assert_eq!(ids(&f.mask()), vec![0]);
    f.feed(0);
    assert_eq!(ids(&f.mask()), vec![1, 3]);
    let schema = Json::Object(vec![("type".to_string(), Json::Text("integer".to_string()))]);
    let mut f = compile_json_schema(&schema, &t).ok().unwrap();
    assert_eq!(ids(&f.mask()), vec![2]);
    let mut f = compile_grammar("root ::= \"[\" \"]\"", &t).ok().unwrap();
    assert_eq!(ids(&f.mask()), vec![6]);
}

fn obj(members: Vec<(&str, Json)>) -> Json {
    Json::Object(members.into_iter().map(|(k, v)| (k.to_string(), v)).collect())
}

fn word(s: &str) -> Json {
    Json::Text(s.to_string())
}

#[test]
fn definitions_may_hold_themselves_but_not_be_themselves() {
    let t = trie(&["{", "}", "\"next\"", ":", "null"], 5);
    // a list of nodes: each holds the next one
    let node = obj(vec![
        ("type", word("object")),
        ("properties", obj(vec![("next", obj(vec![("anyOf", Json::List(vec![
            obj(vec![("$ref", word("#/$defs/node"))]),
            obj(vec![("type", word("null"))]),
        ]))]))])),
    ]);
    let schema = obj(vec![("$ref", word("#/$defs/node")), ("$defs", obj(vec![("node", node)]))]);
    let mut f = compile_json_schema(&schema, &t).ok().unwrap();
    for id in [0, 2, 3, 0, 2, 3, 4, 1] {
        assert!(ids(&f.mask()).contains(&id));
        f.feed(id as i64);
    }
    assert_eq!(ids(&f.mask()), vec![1]);
    // each is the other, and nothing else
    let other = |name: &str| obj(vec![("$ref", word(name))]);
    let schema = obj(vec![
        ("$ref", word("#/$defs/a")),
        ("$defs", obj(vec![("a", other("#/$defs/b")), ("b", other("#/$defs/a"))])),
    ]);
    assert!(matches!(compile_json_schema(&schema, &t), Err(FilterError::Unsound)));
    // a reference to no definition is any value
    let schema = other("#/$defs/none");
    assert!(compile_json_schema(&schema, &t).is_ok());
    let schema = obj(vec![("enum", Json::List(vec![Json::Null, word("next")]))]);
    let mut f = compile_json_schema(&schema, &t).ok().unwrap();
    assert_eq!(ids(&f.mask()), vec![2, 4]);
}

#[test]
fn grammars_that_do_not_compile_say_why() {
    let t = trie(&["a"], 1);
    match compile_grammar("root ::= (", &t) {
        Err(FilterError::Message(m)) => assert_eq!(m, "grammar: missing )"),
        _ => panic!("another result"),
    }
    assert!(matches!(compile_grammar("root ::= root", &t), Err(FilterError::Unsound)));
}

#[test]
fn masks_are_kept_for_a_state() {
    let t = trie(&["a", "b"], 2);
    let mut f = filter("root ::= \"a\"* \"b\"", &t, None, true);
    for _ in 0..200 {
        assert_eq!(ids(&f.mask()), vec![0, 1]);
        f.feed(0);
    }
    assert!(f.feed(1));
}
