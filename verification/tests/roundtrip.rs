use argon::JsonValue;

const HAVE_COLOR: bool = false;

use simd_json::StaticNode;

/// Turn a parsed simd-json document into the library's value type.
fn convert(v: simd_json::OwnedValue) -> JsonValue {
    match v {
        simd_json::OwnedValue::Static(StaticNode::Null) => JsonValue::Null,
        simd_json::OwnedValue::Static(StaticNode::Bool(b)) => JsonValue::Bool(b),
        simd_json::OwnedValue::Static(StaticNode::U64(n)) => JsonValue::UInt(n),
        simd_json::OwnedValue::Static(StaticNode::I64(n)) => JsonValue::Int(n),
        simd_json::OwnedValue::Static(StaticNode::F64(f)) => {
            JsonValue::Float(format!("{}", f).into_bytes())
        }
        simd_json::OwnedValue::String(s) => JsonValue::Str(s.into_bytes()),
        simd_json::OwnedValue::Array(items) => {
            JsonValue::Array(items.into_iter().map(convert).collect())
        }
        simd_json::OwnedValue::Object(entries) => JsonValue::Object(
            entries
                .into_iter()
                .map(|(k, v)| (k.into_bytes(), convert(v)))
                .collect(),
        ),
    }
}

fn gron(input: &str) -> String {
    let mut buf = input.as_bytes().to_vec();
    let value = convert(simd_json::to_owned_value(&mut buf).unwrap());
    argon::gron(&value, HAVE_COLOR).get()
}

fn ungron(input: &[u8]) -> String {
    argon::ungron(input).unwrap().get()
}

#[test]
fn roundtrip_cases() {
    // Each sample with the text its round trip yields. The encoder visits
    // object keys in lexicographic order, so a document whose keys arrive
    // unsorted comes back with them sorted; the first sample is already
    // canonical and round-trips byte for byte.
    const SAMPLES: &[(&str, &str)] = &[
        (
            r#"{
  "abc": 123
}
"#,
            r#"{
  "abc": 123
}
"#,
        ),
        (
            r#"{
  "abc\n\t": "abc\n\t",
  "abc": 123
}
"#,
            r#"{
  "abc": 123,
  "abc\n\t": "abc\n\t"
}
"#,
        ),
    ];

    for (sample, canonical) in SAMPLES {
        let lines = gron(sample);
        let json = ungron(lines.as_bytes());
        if &json != canonical {
            panic!(
                "roundtrip test failure\nsample = {}\nlines = {}\njson = {}",
                sample, lines, json
            );
        }
    }
}

#[test]
fn roundtrip_nested_arrays() {
    let sample = r#"[
  [
    1
  ],
  [
    2,
    [
      true,
      null
    ]
  ]
]
"#;
    let lines = gron(sample);
    let json = ungron(lines.as_bytes());
    assert_eq!(json, sample);
}

#[test]
fn roundtrip_empty_containers() {
    for sample in ["{}\n", "[]\n", "null\n", "true\n", "-17\n", "\"x\"\n"] {
        let lines = gron(sample);
        let json = ungron(lines.as_bytes());
        assert_eq!(json, sample);
    }
}
