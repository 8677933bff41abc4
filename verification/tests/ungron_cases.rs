use argon::GronError;
use argon::JsonValue;

fn ungron(input: &[u8]) -> String {
    argon::ungron(input).unwrap().get()
}

#[test]
fn ungron_example() {
    let lines = b"json = {};\njson.a = [];\njson.a[0] = 1;\njson.a[1] = 2;\n";
    assert_eq!(ungron(lines), "{\n  \"a\": [\n    1,\n    2\n  ]\n}\n");
}

#[test]
fn ungron_example_any_grouping() {
    // fold each contiguous statement grouping separately and merge the
    // partial trees in source order: every grouping rebuilds the same
    // document
    let lines = b"json = {};\njson.a = [];\njson.a[0] = 1;\njson.a[1] = 2;\n";
    let whole = ungron(lines);
    let stmts = argon::split_statements(lines);
    let n = stmts.len();
    for cut1 in 0..=n {
        for cut2 in cut1..=n {
            let t1 = argon::fold_statements(&stmts, 0, cut1).unwrap();
            let t2 = argon::fold_statements(&stmts, cut1, cut2).unwrap();
            let t3 = argon::fold_statements(&stmts, cut2, n).unwrap();
            let merged = argon::merge_json(argon::merge_json(t1, t2).unwrap(), t3).unwrap();
            let text = String::from_utf8(argon::pretty_print_document(&merged)).unwrap();
            assert_eq!(text, whole);
        }
    }
}

#[test]
fn ungron_empty_input_is_eof() {
    match argon::ungron(b"") {
        Err(GronError::Eof) => {}
        _ => panic!("empty input must fail with the end-of-file error"),
    }
}

#[test]
fn ungron_header_lines_are_idempotent() {
    let with_headers = b"json = {};\njson.a = {};\njson.a.b = 1;\n";
    let without_headers = b"json.a.b = 1;\n";
    assert_eq!(ungron(with_headers), ungron(without_headers));
    assert_eq!(ungron(with_headers), "{\n  \"a\": {\n    \"b\": 1\n  }\n}\n");
}

#[test]
fn ungron_does_not_unescape() {
    // decoding does not interpret \u escapes: the six characters stay,
    // with the backslash re-escaped by the JSON printer
    assert_eq!(ungron(b"json = \"\\u0085\";\n"), "\"\\\\u0085\"\n");
}

#[test]
fn ungron_multiline_string() {
    // a raw newline inside a quoted value belongs to the value: the
    // statement only ends at a `;` followed by a newline
    assert_eq!(ungron(b"json = \"x\ny\";\n"), "\"x\\ny\"\n");
}

#[test]
fn ungron_number_forms() {
    assert_eq!(ungron(b"json = 18446744073709551615;"), "18446744073709551615\n");
    assert_eq!(ungron(b"json = -9223372036854775808;"), "-9223372036854775808\n");
    assert_eq!(ungron(b"json = +5;"), "5\n");
    // too large for both integer types: kept as literal text
    assert_eq!(ungron(b"json = 18446744073709551616;"), "18446744073709551616\n");
    assert_eq!(ungron(b"json = 2.5e3;"), "2.5e3\n");
}

#[test]
fn ungron_crlf_lines() {
    assert_eq!(ungron(b"json = {};\r\njson.a = 1;\r\n"), "{\n  \"a\": 1\n}\n");
}

#[test]
fn ungron_later_value_wins() {
    assert_eq!(ungron(b"json.a = 1;\njson.a = 2;\n"), "{\n  \"a\": 2\n}\n");
}

#[test]
fn ungron_error_missing_root() {
    match argon::ungron(b"nope = 1;\n") {
        Err(GronError::MissingRoot) => {}
        _ => panic!("a statement without the root token must be refused"),
    }
}

#[test]
fn ungron_error_unsupported_subscript() {
    match argon::ungron(b"json[\"k\"] = 1;\n") {
        Err(GronError::UnsupportedSubscript) => {}
        _ => panic!("a non-integer subscript must be refused"),
    }
}

#[test]
fn ungron_error_unclosed_subscript() {
    match argon::ungron(b"json[0 = 1;\n") {
        Err(GronError::UnclosedSubscript) => {}
        _ => panic!("an unclosed subscript must be refused"),
    }
}

#[test]
fn ungron_error_unterminated_key() {
    match argon::ungron(b"json.abc") {
        Err(GronError::UnterminatedKey) => {}
        _ => panic!("a key that never ends must be refused"),
    }
}

#[test]
fn ungron_error_invalid_path() {
    match argon::ungron(b"jsonx = 1;\n") {
        Err(GronError::InvalidPath) => {}
        _ => panic!("an impossible path byte must be refused"),
    }
}

#[test]
fn ungron_error_bad_literal() {
    match argon::ungron(b"json = 1") {
        Err(GronError::BadLiteral) => {}
        _ => panic!("a value without its closing semicolon must be refused"),
    }
}

#[test]
fn ungron_error_bad_number() {
    match argon::ungron(b"json = zebra;\n") {
        Err(GronError::BadNumber) => {}
        _ => panic!("unparseable numeric text must be refused"),
    }
}

#[test]
fn ungron_error_type_mismatch() {
    match argon::ungron(b"json.a = 1;\njson.a.b = 2;\n") {
        Err(GronError::TypeMismatch) => {}
        _ => panic!("walking through a scalar must be refused"),
    }
}

#[test]
fn merge_error_mismatch() {
    match argon::merge_json(JsonValue::Bool(true), JsonValue::UInt(1)) {
        Err(GronError::MergeMismatch) => {}
        _ => panic!("merging two scalars must be refused"),
    }
}

#[test]
fn merge_objects_concatenates() {
    let a = JsonValue::Object(vec![(b"x".to_vec(), JsonValue::UInt(1))]);
    let b = JsonValue::Object(vec![(b"y".to_vec(), JsonValue::UInt(2))]);
    let m = argon::merge_json(a, b).unwrap();
    let text = String::from_utf8(argon::pretty_print_document(&m)).unwrap();
    assert_eq!(text, "{\n  \"x\": 1,\n  \"y\": 2\n}\n");
}

#[test]
fn merge_null_absorbs() {
    let m = argon::merge_json(JsonValue::Null, JsonValue::UInt(7)).unwrap();
    let text = String::from_utf8(argon::pretty_print_document(&m)).unwrap();
    assert_eq!(text, "7\n");
    let m2 = argon::merge_json(JsonValue::UInt(7), JsonValue::Null).unwrap();
    let text2 = String::from_utf8(argon::pretty_print_document(&m2)).unwrap();
    assert_eq!(text2, "7\n");
}

#[test]
fn ungron_float_words() {
    // `inf` reaches the numeric branch and is floating-point text, kept
    // verbatim; `nan` begins with the null literal's byte and is a no-op
    assert_eq!(ungron(b"json = inf;"), "inf\n");
    assert_eq!(ungron(b"json = nan;"), "null\n");
}

#[test]
fn ungron_bare_root_token() {
    match argon::ungron(b"json") {
        Err(GronError::InvalidPath) => {}
        _ => panic!("a statement that ends right after the root token must be refused"),
    }
}

#[test]
fn ungron_empty_containers() {
    assert_eq!(ungron(b"json = {};"), "{}\n");
    assert_eq!(ungron(b"json = [];"), "[]\n");
}
