use meeting_recorder::json;
use meeting_recorder::json::{read, read_byte_list, read_bytes, read_list, Json};
use meeting_recorder::text;

#[test]
fn documents_are_read_and_written() {
    let written = r#"{"a":[null,true,-5,"x\n"],"b":{}}"#;
    let document = read(written).unwrap();
    assert_eq!(json::write(&document), written);
    assert_eq!(json::write(&read_bytes(written.as_bytes()).unwrap()), written);
    assert!(read("{").is_none());
    assert!(read_bytes(b"\xff").is_none());
}

#[test]
fn members_are_looked_up() {
    let document = read(r#"{"t":"x","i":-3,"f":1.5,"u":18446744073709551615,"b":false}"#).unwrap();
    assert_eq!(document.text_member("t"), Some("x"));
    assert_eq!(document.text_member("i"), None);
    assert_eq!(document.integer_member("i"), Some(-3));
    assert_eq!(document.integer_member("f"), None);
    assert_eq!(document.integer_member("u"), None);
    assert_eq!(document.truth_member("b"), Some(false));
    assert_eq!(document.truth_member("t"), None);
    assert!(document.member("none").is_none());
    assert!(Json::Null.member("t").is_none());
    // Where a key comes twice, the last one counts.
    assert_eq!(read(r#"{"a":"1","a":"2"}"#).unwrap().text_member("a"), Some("2"));
    let twice = Json::Object(vec![
        ("a".to_owned(), Json::Text("1".to_owned())),
        ("a".to_owned(), Json::Text("2".to_owned())),
    ]);
    assert_eq!(twice.text_member("a"), Some("2"));
}

#[test]
fn lists_are_read_or_it_is_said_why_not() {
    assert_eq!(read_list("[1,2]").ok().unwrap().len(), 2);
    assert_eq!(read_byte_list(b"[]").ok().unwrap().len(), 0);
    assert_eq!(
        read_list("3").err().unwrap(),
        "invalid type: integer `3`, expected a sequence at line 1 column 1"
    );
    assert_eq!(
        read_byte_list(b"[").err().unwrap(),
        "EOF while parsing a list at line 1 column 1"
    );
}

#[test]
fn texts_are_taken_apart() {
    assert_eq!(text::trim("\u{3000} a b \u{85}"), "a b");
    assert_eq!(text::split("a,,b", ','), ["a", "", "b"]);
    assert_eq!(text::split("", ','), [""]);
    assert_eq!(text::split_once("a=b=c", '='), Some(("a", "b=c")));
    assert_eq!(text::split_once("a", '='), None);
    assert_eq!(text::split_part("a__b__c", "__"), Some(("a", "b__c")));
    assert_eq!(text::split_bytes("aé", 1), Some(("a", "é")));
    assert_eq!(text::split_bytes("aé", 2), None);
    assert_eq!(text::split_bytes("aé", 9), None);
    assert_eq!(text::slice("aéb", 1, 3), "é");
    assert_eq!(text::split_whitespace(" a \n b "), ["a", "b"]);
    assert_eq!(text::strip_start("//a/", &['/']), "a/");
    assert_eq!(text::strip_end("//a/", &['/']), "//a");
    assert_eq!(text::strip_prefix("abc", "ab"), Some("c"));
    assert_eq!(text::strip_suffix("abc", "bc"), Some("a"));
    assert_eq!(text::strip_suffix("abc", "x"), None);
    assert!(text::contains("abc", "bc") && !text::contains("abc", "cb"));
    assert!(text::contains("abc", ""));
}

#[test]
fn texts_are_put_together() {
    assert_eq!(text::join(&vec!["a".to_owned(), "".to_owned(), "b".to_owned()], "-"), "a--b");
    assert_eq!(text::join(&vec![], "-"), "");
    assert_eq!(text::swap("a_b", '_', '/'), "a/b");
    assert_eq!(text::take("éab", 2), "éa");
    assert_eq!(text::to_lower("AÉz"), "aÉz");
    assert_eq!(text::integer_text(i64::MIN), "-9223372036854775808");
    assert_eq!(text::integer_text(120), "120");
    assert_eq!(text::unsigned_text(0), "0");
}

#[test]
fn characters_have_their_kinds() {
    for n in 0..0x11_0000 {
        if let Some(c) = char::from_u32(n) {
            assert_eq!(text::is_white_space(c), c.is_whitespace());
            assert_eq!(text::is_control(c), c.is_control());
        }
    }
}
