use vps_probe::json::{escape_json, insert, object, parse, J};
use vps_probe::num::Num;

fn float(n: Num) -> f64 {
    f64::from_bits(n.bits)
}

fn num(x: f64) -> J {
    J::Num(Num { bits: x.to_bits() })
}

#[test]
fn roundtrip() {
    let src = r#"{"a":1,"b":[1,2,{"c":"x\ny"}],"d":null,"e":true,"f":1.5}"#;
    let v = parse(src).unwrap();
    assert_eq!(v.get("a").unwrap().as_i64(), 1);
    assert_eq!(v.get("b").unwrap().as_arr().len(), 3);
    assert_eq!(v.get("e").unwrap().as_bool(), true);
    assert!((float(v.get("f").unwrap().as_f64().unwrap()) - 1.5).abs() < 1e-9);
    assert!(v.get("d").unwrap().is_null());
    let out = v.to_string();
    assert!(parse(&out).is_ok(), "reserialized must re-parse: {}", out);
}

#[test]
fn utf8_chinese() {
    let v = parse(r#"{"n":"香港"}"#).unwrap();
    assert_eq!(v.get("n").unwrap().as_str().unwrap(), "香港");
}

#[test]
fn writes_the_compact_form() {
    let src = r#"{ "b" : [ 1 , 2.50 , -3 ] , "a" : { } , "c" : [ ] , "b" : true }"#;
    assert_eq!(parse(src).unwrap().to_string(), r#"{"a":{},"b":true,"c":[]}"#);
    assert_eq!(parse("[1,2.50,-3,1e3,0.1]").unwrap().to_string(), "[1,2.5,-3,1000,0.1]");
    assert_eq!(parse("null").unwrap().to_string(), "null");
    assert_eq!(parse("false").unwrap().to_string(), "false");
}

#[test]
fn writes_lines() {
    let v = parse(r#"{"a":[1,"x"],"b":{},"c":{"d":null}}"#).unwrap();
    let text = v.to_lines(String::new());
    assert_eq!(
        text,
        "{\n  \"a\": [\n    1,\n    \"x\"\n  ],\n  \"b\": {},\n  \"c\": {\n    \"d\": null\n  }\n}"
    );
    assert_eq!(parse(&text).unwrap(), v);
}

#[test]
fn errors_name_the_place() {
    assert_eq!(parse("").unwrap_err(), "unexpected end of input");
    assert_eq!(parse("[1 2]").unwrap_err(), "expected ',' or ']' at 3");
    assert_eq!(parse("{\"a\":1 \"b\"}").unwrap_err(), "expected ',' or '}' at 7");
    assert_eq!(parse("{\"a\" 1}").unwrap_err(), "expected ':' at 5");
    assert_eq!(parse("{a:1}").unwrap_err(), "expected '\"' at 1");
    assert_eq!(parse("1-2").unwrap_err(), "bad number: 1-2");
    assert!(parse("tru").is_err());
    assert!(parse("\"abc").is_err());
}

#[test]
fn what_follows_the_value_is_not_looked_at() {
    assert_eq!(parse("true x").unwrap(), J::Bool(true));
}

#[test]
fn escapes() {
    assert_eq!(
        escape_json("a\"b\\c\nd\re\tf\u{1}香"),
        "\"a\\\"b\\\\c\\nd\\re\\tf\\u0001香\""
    );
    let s = "quote \" slash \\ line \n tab \t bell \u{7} 香港 \u{1F600}";
    let v = parse(&escape_json(s)).unwrap();
    assert_eq!(v.as_str().unwrap(), s);
    assert_eq!(parse(r#""A香\/\b""#).unwrap().as_str().unwrap(), "A\u{9999}/b".replace('b', "\u{8}"));
    // Half of a surrogate pair is no character.
    assert_eq!(parse(r#""\ud83d""#).unwrap().as_str().unwrap(), "\u{fffd}");
}

#[test]
fn numbers_from_other_values() {
    assert_eq!(parse("\"42\"").unwrap().as_i64(), 42);
    assert_eq!(parse("\"4.9\"").unwrap().as_i64(), 4);
    assert_eq!(parse("\"x\"").unwrap().as_i64(), 0);
    assert_eq!(parse("true").unwrap().as_i64(), 1);
    assert_eq!(parse("null").unwrap().as_i64(), 0);
    assert_eq!(parse("1e30").unwrap().as_i64(), i64::MAX);
    assert_eq!(parse("-1e30").unwrap().as_i64(), i64::MIN);
    assert!(parse("\"1\"").unwrap().as_bool());
    assert!(!parse("\"yes\"").unwrap().as_bool());
    assert!(parse("2").unwrap().as_bool());
    assert!(!parse("0").unwrap().as_bool());
    assert!(parse("[]").unwrap().as_f64().is_none());
    assert_eq!(float(parse("\"1.25\"").unwrap().as_f64().unwrap()), 1.25);
}

#[test]
fn every_value_reads_back() {
    let values = [
        0.0, 1.0, -1.0, 0.1, 1.0 / 3.0, 1e-300, 5e-324, 1.7976931348623157e308, 123456789.123,
        9007199254740993.0, 1e21, 1e22,
    ];
    for x in values {
        let text = num(x).to_string();
        let back = parse(&text).unwrap();
        assert_eq!(float(back.as_f64().unwrap()).to_bits(), x.to_bits(), "{}", text);
        assert_eq!(text.parse::<f64>().unwrap().to_bits(), x.to_bits(), "{}", text);
    }
    // Negative zero comes back as zero.
    assert_eq!(num(-0.0).to_string(), "0");
}

#[test]
fn members_stand_in_order() {
    let mut m: Vec<(String, J)> = Vec::new();
    insert(&mut m, "b", J::Null);
    insert(&mut m, "a", J::Bool(true));
    insert(&mut m, "b", J::Bool(false));
    assert_eq!(J::Obj(m).to_string(), r#"{"a":true,"b":false}"#);
    let o = object(vec![
        ("z".to_string(), J::Null),
        ("y".to_string(), J::Str("1".to_string())),
        ("z".to_string(), J::Bool(true)),
    ]);
    assert_eq!(o.to_string(), r#"{"y":"1","z":true}"#);
}

#[test]
fn values_compare_and_copy() {
    let v = parse(r#"{"a":[1,null,"x"]}"#).unwrap();
    assert_eq!(v.clone(), v);
    assert_eq!(num(0.0), num(-0.0));
    assert!(num(f64::NAN) != num(f64::NAN));
}
