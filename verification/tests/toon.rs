use toon::chars::{chars_to_string, str_to_chars};
use toon::lexical::quote_if_needed;
use toon::value::{Decimal, Value};
use toon::{decode, encode, DecodeOptions, EncodeOptions, ToonError};

fn quoted(s: &str) -> String {
    chars_to_string(&quote_if_needed(&str_to_chars(s), ','))
}

fn obj(entries: Vec<(&str, Value)>) -> Value {
    Value::Obj(entries.into_iter().map(|(k, v)| (k.to_string(), v)).collect())
}

fn s(text: &str) -> Value {
    Value::Str(text.to_string())
}

fn enc(v: &Value) -> String {
    encode(v, &EncodeOptions::default()).unwrap()
}

fn dec(text: &str) -> Value {
    decode(text, &DecodeOptions::default()).unwrap()
}

fn entries(v: &Value) -> &Vec<(String, Value)> {
    match v {
        Value::Obj(es) => es,
        _ => panic!("not an object"),
    }
}

fn value_eq(a: &Value, b: &Value) -> bool {
    match (a, b) {
        (Value::Null, Value::Null) => true,
        (Value::Bool(x), Value::Bool(y)) => x == y,
        (Value::Int(x), Value::Int(y)) => x == y,
        (Value::Dec(x), Value::Dec(y)) => x.neg == y.neg && x.whole == y.whole && x.frac == y.frac,
        (Value::Str(x), Value::Str(y)) => x == y,
        (Value::Arr(x), Value::Arr(y)) => {
            x.len() == y.len() && x.iter().zip(y.iter()).all(|(p, q)| value_eq(p, q))
        }
        (Value::Obj(x), Value::Obj(y)) => {
            x.len() == y.len()
                && x.iter()
                    .zip(y.iter())
                    .all(|(p, q)| p.0 == q.0 && value_eq(&p.1, &q.1))
        }
        _ => false,
    }
}

#[test]
fn test_quote_if_needed() {
    assert_eq!(quoted("hello"), "hello");
    assert_eq!(quoted("hello world"), "hello world");
    assert_eq!(quoted("true"), "\"true\"");
    assert_eq!(quoted("123"), "\"123\"");
}

#[test]
fn test_encode_simple_object() {
    let data = obj(vec![("id", Value::Int(123)), ("name", s("Alice"))]);
    let result = enc(&data);
    assert!(result.contains("id: 123"));
    assert!(result.contains("name: Alice"));
}

#[test]
fn test_encode_tabular_array() {
    let users = Value::Arr(vec![
        obj(vec![("id", Value::Int(1)), ("name", s("Alice"))]),
        obj(vec![("id", Value::Int(2)), ("name", s("Bob"))]),
    ]);
    let data = obj(vec![("users", users)]);
    let result = enc(&data);
    assert!(result.contains("[2,]{id,name}:"));
    assert!(result.contains("1,Alice"));
    assert!(result.contains("2,Bob"));
}

#[test]
fn test_encode_primitive_array() {
    let data = obj(vec![(
        "tags",
        Value::Arr(vec![Value::Int(1), Value::Int(2), Value::Int(3)]),
    )]);
    let result = enc(&data);
    assert!(result.contains("tags:"));
    assert!(result.contains("[3,]: 1,2,3"));
}

#[test]
fn simple_object_round_trip() {
    let data = obj(vec![("id", Value::Int(123)), ("name", s("Alice"))]);
    let text = enc(&data);
    assert_eq!(text, "id: 123\nname: Alice");
    assert!(value_eq(&dec(&text), &data));
}

#[test]
fn tabular_round_trip() {
    let users = Value::Arr(vec![
        obj(vec![("id", Value::Int(1)), ("name", s("Alice"))]),
        obj(vec![("id", Value::Int(2)), ("name", s("Bob"))]),
    ]);
    let data = obj(vec![("users", users)]);
    let text = enc(&data);
    assert_eq!(text, "users:\n  [2,]{id,name}:\n    1,Alice\n    2,Bob");
    assert!(value_eq(&dec(&text), &data));
}

#[test]
fn primitive_array_round_trip() {
    let data = obj(vec![(
        "tags",
        Value::Arr(vec![Value::Int(1), Value::Int(2), Value::Int(3)]),
    )]);
    let text = enc(&data);
    assert_eq!(text, "tags:\n  [3,]: 1,2,3");
    assert!(value_eq(&dec(&text), &data));
}

#[test]
fn leading_space_needs_quoting() {
    assert_eq!(quoted(" hello"), "\" hello\"");
    assert_eq!(quoted("hello world"), "hello world");
}

#[test]
fn reserved_word_string_round_trip() {
    let data = obj(vec![("flag", s("true"))]);
    let text = enc(&data);
    assert_eq!(text, "flag: \"true\"");
    let back = dec(&text);
    assert!(value_eq(&back, &data));
    let boolean = obj(vec![("flag", Value::Bool(true))]);
    assert_eq!(enc(&boolean), "flag: true");
    assert!(value_eq(&dec("flag: true"), &boolean));
}

#[test]
fn backslash_and_newline_round_trip() {
    let data = obj(vec![("text", s("a\\b\nc"))]);
    let text = enc(&data);
    assert_eq!(text, "text: \"a\\\\b\\nc\"");
    assert!(value_eq(&dec(&text), &data));
}

#[test]
fn numeric_string_stays_string() {
    let data = obj(vec![("version", s("123"))]);
    let text = enc(&data);
    assert_eq!(text, "version: \"123\"");
    assert!(value_eq(&dec(&text), &data));
}

#[test]
fn decimal_formatting() {
    let data = obj(vec![(
        "ratio",
        Value::Dec(Decimal {
            neg: false,
            whole: 1,
            frac: vec![5],
        }),
    )]);
    assert_eq!(enc(&data), "ratio: 1.5");
    assert!(value_eq(&dec("ratio: 1.5"), &data));
    assert!(value_eq(
        &dec("ratio: 2.0"),
        &obj(vec![("ratio", Value::Int(2))])
    ));
}

#[test]
fn negative_numbers() {
    let data = obj(vec![
        ("a", Value::Int(-7)),
        (
            "b",
            Value::Dec(Decimal {
                neg: true,
                whole: 0,
                frac: vec![2, 5],
            }),
        ),
    ]);
    let text = enc(&data);
    assert_eq!(text, "a: -7\nb: -0.25");
    assert!(value_eq(&dec(&text), &data));
}

#[test]
fn null_and_empty_string() {
    let data = obj(vec![("a", Value::Null), ("b", s(""))]);
    let text = enc(&data);
    assert_eq!(text, "a: null\nb: \"\"");
    assert!(value_eq(&dec(&text), &data));
}

#[test]
fn empty_object_and_empty_array() {
    let data = obj(vec![("empty", Value::Obj(vec![]))]);
    assert_eq!(enc(&data), "empty:");
    assert!(value_eq(&dec("empty:"), &data));
    let arr = obj(vec![("items", Value::Arr(vec![]))]);
    assert_eq!(enc(&arr), "items:\n  [0,]:");
    assert!(value_eq(&dec(&enc(&arr)), &arr));
}

#[test]
fn quoted_key_round_trip() {
    let data = obj(vec![("a key", Value::Int(1))]);
    let text = enc(&data);
    assert_eq!(text, "\"a key\": 1");
    assert!(value_eq(&dec(&text), &data));
    let odd = obj(vec![("a:b", Value::Int(2))]);
    let text2 = enc(&odd);
    assert_eq!(text2, "\"a:b\": 2");
    assert!(value_eq(&dec(&text2), &odd));
}

#[test]
fn pipe_delimiter_round_trip() {
    let eopts = EncodeOptions {
        delimiter: "|".to_string(),
        indent: 2,
        use_length_markers: true,
        strict: true,
    };
    let dopts = DecodeOptions {
        strict: true,
        delimiter: "|".to_string(),
    };
    let data = obj(vec![(
        "tags",
        Value::Arr(vec![s("a,b"), s("c")]),
    )]);
    let text = encode(&data, &eopts).unwrap();
    assert_eq!(text, "tags:\n  [2|]: a,b|c");
    let back = decode(&text, &dopts).unwrap();
    assert!(value_eq(&back, &data));
}

#[test]
fn invalid_delimiter_is_rejected() {
    let eopts = EncodeOptions {
        delimiter: ";".to_string(),
        indent: 2,
        use_length_markers: true,
        strict: true,
    };
    let data = obj(vec![("a", Value::Int(1))]);
    assert!(matches!(
        encode(&data, &eopts),
        Err(ToonError::InvalidDelimiter(_))
    ));
    let dopts = DecodeOptions {
        strict: true,
        delimiter: ";".to_string(),
    };
    assert!(matches!(
        decode("a: 1", &dopts),
        Err(ToonError::InvalidDelimiter(_))
    ));
}

#[test]
fn invalid_escape_is_an_error() {
    match dec_err("a: \"bad \\x escape\"") {
        ToonError::DecodingError(m) => assert_eq!(m, "invalid escape sequence: \\x"),
        _ => panic!("expected a decoding error"),
    }
    match dec_err("a: \"trailing \\\"") {
        ToonError::DecodingError(m) => assert_eq!(m, "unterminated escape sequence"),
        _ => panic!("expected a decoding error"),
    }
}

fn dec_err(text: &str) -> ToonError {
    decode(text, &DecodeOptions::default()).unwrap_err()
}

#[test]
fn strict_rejects_unplaceable_lines() {
    assert!(matches!(dec_err("no colon here"), ToonError::DecodingError(_)));
    let lenient = DecodeOptions {
        strict: false,
        delimiter: ",".to_string(),
    };
    let v = decode("no colon here\na: 1", &lenient).unwrap();
    assert!(value_eq(&v, &obj(vec![("a", Value::Int(1))])));
}

#[test]
fn strict_rejects_short_rows() {
    let text = "users:\n  [2,]{id,name}:\n    1,Alice\n    2";
    assert!(matches!(dec_err(text), ToonError::DecodingError(_)));
    let lenient = DecodeOptions {
        strict: false,
        delimiter: ",".to_string(),
    };
    let v = decode(text, &lenient).unwrap();
    let users = &entries(&v)[0].1;
    match users {
        Value::Arr(rows) => assert_eq!(rows.len(), 1),
        _ => panic!("expected array"),
    }
}

#[test]
fn mixed_array_encodes_dash_items() {
    let data = obj(vec![(
        "things",
        Value::Arr(vec![Value::Int(1), Value::Arr(vec![Value::Int(2)])]),
    )]);
    let text = enc(&data);
    assert_eq!(text, "things:\n  [2,]:\n    - 1\n    - [1,]: 2");
    assert!(value_eq(&dec(&text), &data));
}

#[test]
fn array_items_in_mixed_arrays_round_trip() {
    let data = obj(vec![(
        "things",
        Value::Arr(vec![
            Value::Arr(vec![Value::Int(1), Value::Int(2)]),
            Value::Arr(vec![]),
            Value::Int(9),
        ]),
    )]);
    assert!(value_eq(&dec(&enc(&data)), &data));
}

#[test]
fn object_item_with_container_first_entry_round_trips() {
    let data = obj(vec![(
        "things",
        Value::Arr(vec![
            Value::Int(1),
            obj(vec![("a", obj(vec![("b", Value::Int(2))]))]),
        ]),
    )]);
    let text = enc(&data);
    assert_eq!(text, "things:\n  [2,]:\n    - 1\n    - a:\n        b: 2");
    assert!(value_eq(&dec(&text), &data));
}

#[test]
fn nested_object_round_trip() {
    let inner = obj(vec![("b", Value::Int(1))]);
    let data = obj(vec![("a", inner)]);
    let text = enc(&data);
    assert_eq!(text, "a:\n  b: 1");
    assert!(value_eq(&dec(&text), &data));
    let null_inner = obj(vec![("a", obj(vec![("b", Value::Null)]))]);
    assert!(value_eq(&dec(&enc(&null_inner)), &null_inner));
}

#[test]
fn deep_nesting_round_trip() {
    let deep = obj(vec![(
        "a",
        obj(vec![(
            "b",
            obj(vec![
                ("c", Value::Arr(vec![Value::Int(1), Value::Int(2)])),
                ("d", s("x")),
            ]),
        )]),
    )]);
    let text = enc(&deep);
    assert_eq!(text, "a:\n  b:\n    c:\n      [2,]: 1,2\n    d: x");
    assert!(value_eq(&dec(&text), &deep));
}

#[test]
fn mixed_array_round_trip() {
    let data = obj(vec![(
        "things",
        Value::Arr(vec![
            Value::Int(1),
            obj(vec![("id", Value::Int(2)), ("name", s("n"))]),
            s("last"),
        ]),
    )]);
    let text = enc(&data);
    assert_eq!(
        text,
        "things:\n  [3,]:\n    - 1\n    - id: 2\n      name: n\n    - last"
    );
    assert!(value_eq(&dec(&text), &data));
}

#[test]
fn nested_tabular_round_trip() {
    let rows = Value::Arr(vec![
        obj(vec![("x", Value::Int(1))]),
        obj(vec![("x", Value::Int(2))]),
    ]);
    let data = obj(vec![("outer", obj(vec![("rows", rows), ("tail", Value::Bool(true))]))]);
    let text = enc(&data);
    assert_eq!(
        text,
        "outer:\n  rows:\n    [2,]{x}:\n      1\n      2\n  tail: true"
    );
    assert!(value_eq(&dec(&text), &data));
}

#[test]
fn strict_rejects_malformed_headers() {
    assert!(matches!(
        dec_err("k[2,]{a,b}: 1,2"),
        ToonError::DecodingError(_)
    ));
    assert!(matches!(dec_err("[2,]: 1,2"), ToonError::DecodingError(_)));
}

#[test]
fn duplicate_keys_keep_last_binding() {
    let v = dec("a: 1\na: 2");
    let es = entries(&v);
    assert_eq!(es.len(), 1);
    assert!(value_eq(&es[0].1, &Value::Int(2)));
}

#[test]
fn tabular_shape_preserved() {
    let users = Value::Arr(vec![
        obj(vec![("x", Value::Int(1)), ("y", s("a")), ("z", Value::Bool(false))]),
        obj(vec![("x", Value::Int(2)), ("y", s("b")), ("z", Value::Bool(true))]),
    ]);
    let data = obj(vec![("rows", users)]);
    let text = enc(&data);
    let header_line = text.lines().nth(1).unwrap();
    assert_eq!(header_line.trim(), "[2,]{x,y,z}:");
    let back = dec(&text);
    let decoded = &entries(&back)[0].1;
    match decoded {
        Value::Arr(rows) => {
            assert_eq!(rows.len(), 2);
            let keys: Vec<&String> = match &rows[0] {
                Value::Obj(es) => es.iter().map(|e| &e.0).collect(),
                _ => panic!("expected object row"),
            };
            assert_eq!(keys, ["x", "y", "z"].iter().map(|k| k.to_string()).collect::<Vec<_>>().iter().collect::<Vec<_>>());
        }
        _ => panic!("expected array"),
    }
    assert!(value_eq(&back, &data));
}

#[test]
fn unescape_inverts_escape() {
    for case in ["plain", "with \\ slash", "quote \" mark", "tab\there\nand newline\r"] {
        let data = obj(vec![("k", s(case))]);
        assert!(value_eq(&dec(&enc(&data)), &data));
    }
}

#[test]
fn blank_lines_and_crlf_are_tolerated() {
    let data = obj(vec![("a", Value::Int(1)), ("b", Value::Int(2))]);
    assert!(value_eq(&dec("a: 1\r\n\r\nb: 2\r\n"), &data));
    let nested = obj(vec![("a", obj(vec![("b", Value::Int(1))])), ("c", Value::Int(2))]);
    assert!(value_eq(&dec("a:\n\n  b: 1\n\nc: 2"), &nested));
}

#[test]
fn lenient_mode_skips_unsupported_dash_items() {
    assert!(matches!(
        dec_err("things:\n  [2,]:\n    - 1\n    - k[1,]: 2"),
        ToonError::DecodingError(_)
    ));
    let lenient = DecodeOptions {
        strict: false,
        delimiter: ",".to_string(),
    };
    let v = decode("things:\n  [2,]:\n    - 1\n    - k[1,]: 2", &lenient).unwrap();
    match &entries(&v)[0].1 {
        Value::Arr(items) => {
            assert_eq!(items.len(), 1);
            assert!(value_eq(&items[0], &Value::Int(1)));
        }
        _ => panic!("expected array"),
    }
}

#[test]
fn dash_object_item_with_nested_value_round_trips() {
    let item = obj(vec![
        ("id", Value::Int(1)),
        ("tags", Value::Arr(vec![Value::Int(7), Value::Int(8)])),
    ]);
    let data = obj(vec![("things", Value::Arr(vec![item, Value::Null]))]);
    let text = enc(&data);
    assert_eq!(
        text,
        "things:\n  [2,]:\n    - id: 1\n      tags:\n        [2,]: 7,8\n    - null"
    );
    assert!(value_eq(&dec(&text), &data));
}
