use exl3::json::{collect_i64, get_bool, get_i64, get_list, get_num, get_str, number_or, read_json, to_text, Json, Num};

fn text(s: &str) -> Json {
    Json::Text(s.to_string())
}

fn whole(n: i64) -> Json {
    if n < 0 {
        Json::Number(Num::Negative(n))
    } else {
        Json::Number(Num::Unsigned(n as u64))
    }
}

fn sample() -> Json {
    Json::Object(vec![
        ("a".to_string(), whole(-3)),
        ("b".to_string(), Json::List(vec![whole(1), Json::Null, whole(2), Json::Number(Num::Real("1.5".to_string()))])),
        ("c".to_string(), Json::Bool(true)),
        ("d".to_string(), text("x")),
    ])
}

#[test]
fn members_are_read_by_their_kind() {
    let v = sample();
    assert_eq!(get_i64(&v, "a"), Some(-3));
    assert_eq!(get_i64(&v, "d"), None);
    assert_eq!(get_i64(&v, "none"), None);
    assert_eq!(get_bool(&v, "c"), Some(true));
    assert_eq!(get_str(&v, "d"), Some("x"));
    assert_eq!(collect_i64(get_list(&v, "b").unwrap()), vec![1, 2]);
    assert!(v.get("b").is_some());
    assert!(text("a").get("b").is_none());
    assert!(matches!(get_num(&v, "a"), Some(Num::Negative(-3))));
    assert!(matches!(number_or(None, "2.0"), Num::Real(t) if t == "2.0"));
}

#[test]
fn only_numbers_that_fit_are_whole() {
    assert_eq!(Json::Number(Num::Unsigned(u64::MAX)).as_i64(), None);
    assert_eq!(Json::Number(Num::Unsigned(i64::MAX as u64)).as_i64(), Some(i64::MAX));
    assert_eq!(Json::Number(Num::Real("1.0".to_string())).as_i64(), None);
}

#[test]
fn values_are_written_compactly() {
    assert_eq!(to_text(&sample()), r#"{"a":-3,"b":[1,null,2,1.5],"c":true,"d":"x"}"#);
    for t in ["0.1", "1.5", "123456789.12345679", "2.2250738585072014e-308", "1e300", "9007199254740993.0"] {
        let n: f64 = t.parse().unwrap();
        let written = serde_json::to_string(&n).unwrap();
        assert_eq!(to_text(&Json::Number(Num::Real(t.to_string()))), written);
        assert_eq!(to_text(&Json::Number(Num::Real(written.clone()))), written);
    }
    assert_eq!(to_text(&Json::List(vec![])), "[]");
    assert_eq!(to_text(&Json::Object(vec![])), "{}");
    assert_eq!(to_text(&whole(i64::MIN)), "-9223372036854775808");
    assert_eq!(to_text(&Json::Number(Num::Unsigned(u64::MAX))), "18446744073709551615");
}

#[test]
fn texts_are_quoted_and_escaped() {
    let raw = "q\" b\\ n\n t\t r\r b\u{8} f\u{c} \u{1} \u{1f} \u{7f} é/";
    assert_eq!(to_text(&text(raw)), "\"q\\\" b\\\\ n\\n t\\t r\\r b\\b f\\f \\u0001 \\u001f \u{7f} é/\"");
    assert_eq!(to_text(&text(raw)), serde_json::to_string(raw).unwrap());
}

#[test]
fn bytes_are_read_as_the_value_they_hold() {
    let v = read_json(r#" {"b": [1, -2, 1.50, 1e3, 18446744073709551616], "a": "xé\n", "n": null, "t": true} "#.as_bytes()).unwrap();
    assert_eq!(
        to_text(&v),
        "{\"b\":[1,-2,1.5,1000.0,1.8446744073709552e+19],\"a\":\"xé\\n\",\"n\":null,\"t\":true}"
    );
    let b = get_list(&v, "b").unwrap();
    assert!(matches!(b[0], Json::Number(Num::Unsigned(1))));
    assert!(matches!(b[1], Json::Number(Num::Negative(-2))));
    assert!(matches!(&b[2], Json::Number(Num::Real(t)) if t == "1.5"));
    assert_eq!(get_str(&v, "a"), Some("xé\n"));
    assert!(matches!(v.get("n"), Some(Json::Null)));
    assert_eq!(get_bool(&v, "t"), Some(true));
    assert_eq!(get_i64(&read_json(br#"{"a":1,"a":2}"#).unwrap(), "a"), Some(2));
}

#[test]
fn bytes_that_hold_no_json_are_not_read() {
    assert!(read_json(b"").is_none());
    assert!(read_json(b"{").is_none());
    assert!(read_json(b"{} {}").is_none());
    assert!(read_json(b"nul").is_none());
    assert!(read_json(b"\"\xff\"").is_none());
}
