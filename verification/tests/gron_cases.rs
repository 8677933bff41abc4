use argon::JsonValue;

fn obj(entries: Vec<(&str, JsonValue)>) -> JsonValue {
    JsonValue::Object(
        entries
            .into_iter()
            .map(|(k, v)| (k.as_bytes().to_vec(), v))
            .collect(),
    )
}

#[test]
fn gron_scalar_object() {
    let v = obj(vec![("abc", JsonValue::UInt(123))]);
    let lines = argon::gron(&v, false).get();
    assert_eq!(lines, "json = {};\njson.abc = 123;\n");
}

#[test]
fn gron_nested_array() {
    let v = obj(vec![(
        "a",
        JsonValue::Array(vec![JsonValue::UInt(1), JsonValue::UInt(2)]),
    )]);
    let lines = argon::gron(&v, false).get();
    assert_eq!(
        lines,
        "json = {};\njson.a = [];\njson.a[0] = 1;\njson.a[1] = 2;\n"
    );
}

#[test]
fn gron_sorts_keys() {
    let v = obj(vec![
        ("b", JsonValue::UInt(1)),
        ("a", JsonValue::UInt(2)),
        ("ab", JsonValue::UInt(3)),
    ]);
    let lines = argon::gron(&v, false).get();
    assert_eq!(
        lines,
        "json = {};\njson.a = 2;\njson.ab = 3;\njson.b = 1;\n"
    );
}

#[test]
fn gron_scalars() {
    let v = JsonValue::Array(vec![
        JsonValue::Null,
        JsonValue::Bool(true),
        JsonValue::Bool(false),
        JsonValue::UInt(18446744073709551615),
        JsonValue::Int(-9223372036854775808),
        JsonValue::Float(b"1.5".to_vec()),
        JsonValue::Str(b"hi".to_vec()),
    ]);
    let lines = argon::gron(&v, false).get();
    assert_eq!(
        lines,
        "json = [];\njson[0] = null;\njson[1] = true;\njson[2] = false;\njson[3] = 18446744073709551615;\njson[4] = -9223372036854775808;\njson[5] = 1.5;\njson[6] = \"hi\";\n"
    );
}

#[test]
fn gron_escapes_c1_in_strings_and_keys() {
    // U+0085 is 0xC2 0x85 in UTF-8 and must appear as the six characters
    // \u0085 in the line, both in a string scalar and in a key
    let v = obj(vec![(
        "k\u{85}",
        JsonValue::Str("a\u{85}b".as_bytes().to_vec()),
    )]);
    let lines = argon::gron(&v, false).get();
    assert_eq!(lines, "json = {};\njson.k\\u0085 = \"a\\u0085b\";\n");
}

#[test]
fn gron_keeps_other_control_characters_verbatim() {
    // a newline inside a string is written as a raw byte, making the line
    // span several text lines
    let v = obj(vec![("a", JsonValue::Str(b"x\ny".to_vec()))]);
    let lines = argon::gron(&v, false).get();
    assert_eq!(lines, "json = {};\njson.a = \"x\ny\";\n");
}

#[test]
fn gron_color_markup() {
    let v = obj(vec![("a", JsonValue::Array(vec![JsonValue::UInt(1)]))]);
    let lines = argon::gron(&v, true).get();
    let expected = "\u{1b}[34mjson\u{1b}[0m = \u{1b}[35m{}\u{1b}[0m;\n\u{1b}[34mjson\u{1b}[0m.\u{1b}[34ma\u{1b}[0m = \u{1b}[35m[]\u{1b}[0m;\n\u{1b}[34mjson\u{1b}[0m.\u{1b}[34ma\u{1b}[0m\u{1b}[35m[\u{1b}[31m0\u{1b}[35m]\u{1b}[0m = \u{1b}[31m1\u{1b}[0m;\n";
    assert_eq!(lines, expected);
}

#[test]
fn gron_color_strips_to_plain() {
    // color markup only interleaves escape sequences: stripping them
    // yields the uncolored output exactly
    let v = obj(vec![
        ("a", JsonValue::Array(vec![JsonValue::Str(b"s".to_vec())])),
        ("b", JsonValue::Bool(true)),
    ]);
    let plain = argon::gron(&v, false).get();
    let colored = argon::gron(&v, true).get();
    let mut stripped = String::new();
    let mut rest = colored.as_str();
    while let Some(i) = rest.find('\u{1b}') {
        stripped.push_str(&rest[..i]);
        let after = &rest[i..];
        let m = after.find('m').unwrap();
        rest = &after[m + 1..];
    }
    stripped.push_str(rest);
    assert_eq!(stripped, plain);
}

#[test]
fn output_starts_empty() {
    assert_eq!(argon::Output::new().get(), "");
}
