use zoon::decode;
use zoon::encode;
use zoon::Shape;
use zoon::Value;
use zoon::ZoonError;

fn obj(entries: Vec<(&str, Value)>) -> Value {
    Value::Object(entries.into_iter().map(|(k, v)| (k.to_string(), v)).collect())
}

fn s(x: &str) -> Value {
    Value::Str(x.to_string())
}

fn get<'a>(v: &'a Value, key: &str) -> &'a Value {
    match v {
        Value::Object(es) => {
            for (k, val) in es {
                if k == key {
                    return val;
                }
            }
            panic!("key {} not found", key);
        }
        _ => panic!("not an object"),
    }
}

fn item(v: &Value, i: usize) -> &Value {
    match v {
        Value::Array(xs) => &xs[i],
        _ => panic!("not an array"),
    }
}

fn arr_len(v: &Value) -> usize {
    match v {
        Value::Array(xs) => xs.len(),
        _ => panic!("not an array"),
    }
}

fn user(id: i64, name: &str, role: &str, active: bool) -> Value {
    obj(vec![
        ("id", Value::Int(id)),
        ("name", s(name)),
        ("role", s(role)),
        ("active", Value::Bool(active)),
    ])
}

#[test]
fn test_tabular_encode() {
    let users = Value::Array(vec![
        user(1, "Alice", "Admin", true),
        user(2, "Bob", "User", false),
    ]);
    let encoded = encode(&users).unwrap();
    assert!(encoded.starts_with("# "));
    assert!(encoded.contains("Alice"));
    assert!(encoded.contains("Bob"));
}

#[test]
fn test_inline_encode() {
    let cfg = obj(vec![
        ("host", s("localhost")),
        ("port", Value::Int(3000)),
        ("ssl", Value::Bool(true)),
    ]);
    let encoded = encode(&cfg).unwrap();
    assert!(encoded.contains("host=localhost"));
    assert!(encoded.contains("port:3000"));
    assert!(encoded.contains("ssl:y"));
}

#[test]
fn test_decode_tabular() {
    let input = "# id:i name:s role:s active:b\n1 Alice Admin 1\n2 Bob User 0";
    let users = decode(input, Shape::ArrayShape).unwrap();
    assert_eq!(arr_len(&users), 2);
    assert_eq!(get(item(&users, 0), "name"), &s("Alice"));
    assert_eq!(get(item(&users, 1), "active"), &Value::Bool(false));
}

#[test]
fn test_null_handling() {
    let input = "name=test value:~";
    let data = decode(input, Shape::ObjectShape).unwrap();
    assert_eq!(get(&data, "value"), &Value::Null);
}

#[test]
fn test_empty_input() {
    let result = decode("", Shape::ArrayShape).unwrap();
    assert!(arr_len(&result) == 0);
}

#[test]
fn test_primitive_types() {
    let data = Value::Array(vec![
        obj(vec![("n", s("A B")), ("c", Value::Int(10)), ("f", Value::Bool(true))]),
        obj(vec![("n", s("C")), ("c", Value::Int(0)), ("f", Value::Bool(false))]),
    ]);
    let encoded = encode(&data).unwrap();
    assert!(encoded.contains("A_B"));
    assert!(encoded.contains("10"));
    assert!(encoded.contains("1") || encoded.contains("true"));
}

#[test]
fn test_nested_map() {
    let data = obj(vec![
        ("a", obj(vec![("x", Value::Int(1))])),
        ("b", obj(vec![("y", Value::Int(2))])),
    ]);
    let encoded = encode(&data).unwrap();
    assert!(encoded.contains("a:{x:1}"));
}

#[test]
fn test_special_characters() {
    let data = Value::Array(vec![obj(vec![("text", s("Hello_World"))])]);
    let encoded = encode(&data).unwrap();
    let decoded = decode(&encoded, Shape::ArrayShape).unwrap();
    assert_eq!(get(item(&decoded, 0), "text"), &s("Hello World"));
}

#[test]
fn test_float_handling() {
    let data = Value::Array(vec![
        obj(vec![("name", s("cpu")), ("value", Value::Num("0.75".to_string()))]),
        obj(vec![("name", s("mem")), ("value", Value::Num("0.92".to_string()))]),
    ]);
    let encoded = encode(&data).unwrap();
    assert!(encoded.contains("0.75"));
}

#[test]
fn test_single_object() {
    let cfg = obj(vec![
        ("host", s("api.example.com")),
        ("port", Value::Int(8080)),
        ("ssl", Value::Bool(false)),
    ]);
    let encoded = encode(&cfg).unwrap();
    assert!(encoded.contains("host=api.example.com"));
    assert!(encoded.contains("port:8080"));
    assert!(encoded.contains("ssl:n"));
}

#[test]
fn test_decode_with_booleans() {
    let input = "# name:s active:b\nAlice 1\nBob 0";
    let rows = decode(input, Shape::ArrayShape).unwrap();
    assert_eq!(get(item(&rows, 0), "active"), &Value::Bool(true));
    assert_eq!(get(item(&rows, 1), "active"), &Value::Bool(false));
}

#[test]
fn test_decode_numbers() {
    let input = "# name:s price:i\nWidget 1999\nGadget 2950";
    let products = decode(input, Shape::ArrayShape).unwrap();
    assert_eq!(get(item(&products, 0), "price"), &Value::Int(1999));
    assert_eq!(get(item(&products, 1), "price"), &Value::Int(2950));
}

#[test]
fn test_roundtrip_simple() {
    let users = Value::Array(vec![
        user(1, "Alice", "Admin", true),
        user(2, "Bob", "User", false),
    ]);
    let encoded = encode(&users).unwrap();
    assert!(encoded.contains("Alice"));
    assert!(encoded.contains("Bob"));
}

#[test]
fn test_roundtrip_with_numbers() {
    let data = Value::Array(vec![
        obj(vec![
            ("name", s("Widget")),
            ("price", Value::Num("19.99".to_string())),
            ("stock", Value::Int(100)),
        ]),
        obj(vec![
            ("name", s("Gadget")),
            ("price", Value::Num("29.5".to_string())),
            ("stock", Value::Int(50)),
        ]),
    ]);
    let encoded = encode(&data).unwrap();
    assert!(encoded.contains("19.99"));
    assert!(encoded.contains("29.5"));
}

#[test]
fn test_roundtrip_with_booleans() {
    let data = Value::Array(vec![
        obj(vec![("name", s("Alice")), ("active", Value::Bool(true))]),
        obj(vec![("name", s("Bob")), ("active", Value::Bool(false))]),
    ]);
    let encoded = encode(&data).unwrap();
    assert!(encoded.contains("1") || encoded.contains("true"));
}

#[test]
fn test_roundtrip_with_nulls() {
    let data = Value::Array(vec![
        obj(vec![("name", s("Alice")), ("email", s("alice@example.com"))]),
        obj(vec![("name", s("Bob")), ("email", Value::Null)]),
    ]);
    let encoded = encode(&data).unwrap();
    assert!(encoded.contains("~"));
}

#[test]
fn test_token_reduction() {
    let mut rows = Vec::new();
    for i in 1..=10 {
        rows.push(obj(vec![
            ("id", Value::Int(i)),
            ("name", s("User")),
            ("status", s("active")),
            ("level", Value::Int(1)),
        ]));
    }
    let encoded = encode(&Value::Array(rows)).unwrap();
    assert!(encoded.len() < 300);
}

#[test]
fn test_aliases() {
    let system = |st1: &str, st2: &str| {
        obj(vec![(
            "infrastructure",
            obj(vec![
                ("postgres", obj(vec![("state", s(st1))])),
                ("redis", obj(vec![("state", s(st2))])),
            ]),
        )])
    };
    let data = Value::Array(vec![system("up", "up"), system("down", "down")]);
    let encoded = encode(&data).unwrap();
    assert!(encoded.contains("%"));
    let decoded = decode(&encoded, Shape::ArrayShape).unwrap();
    assert_eq!(
        get(get(get(item(&decoded, 0), "infrastructure"), "postgres"), "state"),
        &s("up")
    );
    assert_eq!(
        get(get(get(item(&decoded, 1), "infrastructure"), "redis"), "state"),
        &s("down")
    );
}

#[test]
fn test_constants() {
    let log = |msg: &str| {
        obj(vec![("level", s("INFO")), ("msg", s(msg)), ("region", s("us-east-1"))])
    };
    let data = Value::Array(vec![log("Start"), log("Process"), log("End")]);
    let encoded = encode(&data).unwrap();
    assert!(encoded.contains("@level=INFO"));
    assert!(encoded.contains("@region=us-east-1"));
    let decoded = decode(&encoded, Shape::ArrayShape).unwrap();
    assert_eq!(get(item(&decoded, 1), "level"), &s("INFO"));
    assert_eq!(get(item(&decoded, 2), "region"), &s("us-east-1"));
}

#[test]
fn test_explicit_row_count() {
    let mut rows = Vec::new();
    for i in 1..=3 {
        rows.push(obj(vec![("id", Value::Int(i)), ("status", s("ok"))]));
    }
    let data = Value::Array(rows);
    let encoded = encode(&data).unwrap();
    assert!(encoded.contains("+3"));
    let decoded = decode(&encoded, Shape::ArrayShape).unwrap();
    assert_eq!(arr_len(&decoded), 3);
    assert_eq!(get(item(&decoded, 2), "id"), &Value::Int(3));
    assert_eq!(get(item(&decoded, 0), "status"), &s("ok"));
}

#[test]
fn test_empty_input_object_shape() {
    let result = decode("   \n  ", Shape::ObjectShape).unwrap();
    assert_eq!(result, obj(vec![]));
}

#[test]
fn test_null_marker_under_every_hint() {
    // The null marker decodes to null under an integer hint, a boolean
    // hint, a string hint and a sniffed constant alike.
    let input = "# a:i b:b c:s @d:~ @e=~\nx";
    let rows = decode(input, Shape::ArrayShape).unwrap();
    // `x` fills `a`; `b` and `c` ran out and are omitted; the constants
    // decode to null on the row.
    assert_eq!(get(item(&rows, 0), "d"), &Value::Null);
    assert_eq!(get(item(&rows, 0), "e"), &Value::Null);
    let inline = decode("v:~", Shape::ObjectShape).unwrap();
    assert_eq!(get(&inline, "v"), &Value::Null);
}

#[test]
fn test_missing_header_is_error() {
    let err = decode("%a=b\nno header here", Shape::ArrayShape).unwrap_err();
    assert!(matches!(err, ZoonError::InvalidFormat(_)));
    let err2 = decode("%a=b", Shape::ArrayShape).unwrap_err();
    assert!(matches!(err2, ZoonError::InvalidFormat(_)));
}

#[test]
fn test_path_conflict_is_error() {
    let err = decode("a=x a.b=y", Shape::ObjectShape).unwrap_err();
    assert!(matches!(err, ZoonError::ParseError(_)));
}

#[test]
fn test_scalar_top_level_is_error() {
    let err = encode(&Value::Int(5)).unwrap_err();
    assert!(matches!(err, ZoonError::InvalidFormat(_)));
    let err2 = encode(&Value::Null).unwrap_err();
    assert!(matches!(err2, ZoonError::InvalidFormat(_)));
}

#[test]
fn test_id_column_elided() {
    // An `id` column holding exactly 1..N is carried as `i+` and absent
    // from the rows; decoding regenerates 1..N in order.
    let mut rows = Vec::new();
    for i in 1..=3 {
        rows.push(obj(vec![("id", Value::Int(i)), ("name", s(["a", "b", "c"][(i - 1) as usize]))]));
    }
    let encoded = encode(&Value::Array(rows)).unwrap();
    assert!(encoded.contains("id:i+"));
    assert!(!encoded.contains("\n1 "));
    let decoded = decode(&encoded, Shape::ArrayShape).unwrap();
    assert_eq!(get(item(&decoded, 0), "id"), &Value::Int(1));
    assert_eq!(get(item(&decoded, 1), "id"), &Value::Int(2));
    assert_eq!(get(item(&decoded, 2), "id"), &Value::Int(3));
}

#[test]
fn test_id_not_sequential_not_elided() {
    let data = Value::Array(vec![
        obj(vec![("id", Value::Int(4)), ("v", Value::Int(7))]),
        obj(vec![("id", Value::Int(5)), ("v", Value::Int(8))]),
    ]);
    let encoded = encode(&data).unwrap();
    assert!(encoded.contains("id:i"));
    assert!(!encoded.contains("id:i+"));
}

#[test]
fn test_enum_type_code() {
    let row = |r: &str, n: i64| obj(vec![("role", s(r)), ("n", Value::Int(n))]);
    let data = Value::Array(vec![row("Admin", 1), row("User", 2), row("Admin", 3)]);
    let encoded = encode(&data).unwrap();
    assert!(encoded.contains("role=Admin|User"));
    let decoded = decode(&encoded, Shape::ArrayShape).unwrap();
    assert_eq!(get(item(&decoded, 0), "role"), &s("Admin"));
    assert_eq!(get(item(&decoded, 1), "role"), &s("User"));
}

#[test]
fn test_no_alias_for_short_prefixes() {
    // Short, unrepeated prefixes never pay for an alias declaration.
    let data = Value::Array(vec![
        obj(vec![("a", obj(vec![("x", Value::Int(1))]))]),
        obj(vec![("a", obj(vec![("x", Value::Int(2))]))]),
    ]);
    let encoded = encode(&data).unwrap();
    assert!(!encoded.contains('%'));
}

#[test]
fn test_underscore_unescapes_to_space() {
    let decoded = decode("x=A_B", Shape::ObjectShape).unwrap();
    assert_eq!(get(&decoded, "x"), &s("A B"));
}

#[test]
fn test_large_integer_falls_back_to_string() {
    let decoded = decode("# a:i\n9223372036854775807", Shape::ArrayShape).unwrap();
    assert_eq!(get(item(&decoded, 0), "a"), &Value::Int(9223372036854775807));
    let decoded2 = decode("# a:i\n9223372036854775808", Shape::ArrayShape).unwrap();
    assert_eq!(get(item(&decoded2, 0), "a"), &s("9223372036854775808"));
}

#[test]
fn test_nested_braces_decode() {
    let decoded = decode("a:{x:1 y:{z=deep}} b:2", Shape::ObjectShape).unwrap();
    assert_eq!(get(get(&decoded, "a"), "x"), &Value::Int(1));
    assert_eq!(get(get(get(&decoded, "a"), "y"), "z"), &s("deep"));
    assert_eq!(get(&decoded, "b"), &Value::Int(2));
}

#[test]
fn test_dotted_keys_merge_inline() {
    let decoded = decode("srv.host=web srv.port:80", Shape::ObjectShape).unwrap();
    assert_eq!(get(get(&decoded, "srv"), "host"), &s("web"));
    assert_eq!(get(get(&decoded, "srv"), "port"), &Value::Int(80));
}

#[test]
fn test_row_count_preserved() {
    // Any non-empty array encoded then decoded keeps its element count.
    for n in 1..=5 {
        let mut rows = Vec::new();
        for i in 0..n {
            rows.push(obj(vec![("k", Value::Int(i)), ("w", s(["p", "q", "r", "st", "uv"][i as usize]))]));
        }
        let encoded = encode(&Value::Array(rows)).unwrap();
        let decoded = decode(&encoded, Shape::ArrayShape).unwrap();
        assert_eq!(arr_len(&decoded), n as usize);
    }
}

#[test]
fn test_inline_roundtrip_exact() {
    let cfg = obj(vec![
        ("host", s("example test")),
        ("port", Value::Int(-1)),
        ("on", Value::Bool(true)),
        ("note", Value::Null),
    ]);
    let encoded = encode(&cfg).unwrap();
    assert_eq!(encoded, "host=example_test port:-1 on:y note:~");
    let decoded = decode(&encoded, Shape::ObjectShape).unwrap();
    assert_eq!(decoded, cfg);
}

#[test]
fn test_array_inside_value_is_opaque() {
    let data = obj(vec![("xs", Value::Array(vec![Value::Int(1), Value::Int(2)]))]);
    let encoded = encode(&data).unwrap();
    assert_eq!(encoded, "xs:[...]");
}

#[test]
fn test_unclosed_brace_reads_as_token() {
    // An unbalanced brace block falls back to a plain sniffed token.
    let decoded = decode("a:{x:1", Shape::ObjectShape).unwrap();
    assert_eq!(get(&decoded, "a"), &s("{x:1"));
}

#[test]
fn test_trailing_text_without_separator_discarded() {
    let decoded = decode("a:1 junk", Shape::ObjectShape).unwrap();
    assert_eq!(get(&decoded, "a"), &Value::Int(1));
    match &decoded {
        Value::Object(es) => assert_eq!(es.len(), 1),
        _ => panic!("not an object"),
    }
}

#[test]
fn test_field_overrides_constant() {
    // Fields are applied after constants, so a field with the same name
    // overrides the constant on rows that carry a value for it.
    let decoded = decode("# @a:1 a:i
5", Shape::ArrayShape).unwrap();
    assert_eq!(get(item(&decoded, 0), "a"), &Value::Int(5));
}
