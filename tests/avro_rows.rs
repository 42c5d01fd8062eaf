use apache_avro::types::Record;
use apache_avro::{Schema, Writer};
use datacert::avro::{avro_rows, extract_headers_from_value, flatten_avro_value};
use datacert::json::JsonValue;

fn num(n: i64) -> JsonValue {
    JsonValue::Number(n.to_string())
}

fn text(s: &str) -> JsonValue {
    JsonValue::Text(s.to_string())
}

fn obj(entries: Vec<(&str, JsonValue)>, json: &str) -> JsonValue {
    JsonValue::Object(entries.into_iter().map(|(k, v)| (k.to_string(), v)).collect(), json.to_string())
}

#[test]
fn test_extract_headers() {
    let val = obj(
        vec![
            ("a", num(1)),
            ("b", obj(vec![("c", num(2)), ("d", text("test"))], r#"{"c":2,"d":"test"}"#)),
            ("e", JsonValue::Array(vec![num(1), num(2), num(3)], "[1,2,3]".to_string())),
        ],
        r#"{"a":1,"b":{"c":2,"d":"test"},"e":[1,2,3]}"#,
    );
    let headers = extract_headers_from_value(&val, "");
    assert_eq!(headers, vec!["a", "b.c", "b.d", "e"]);
}

#[test]
fn test_flatten_avro_value() {
    let val = obj(
        vec![
            ("a", num(1)),
            ("b", obj(vec![("c", num(2)), ("d", text("test"))], r#"{"c":2,"d":"test"}"#)),
        ],
        r#"{"a":1,"b":{"c":2,"d":"test"}}"#,
    );
    let headers = vec!["a".to_string(), "b.c".to_string(), "b.d".to_string()];
    let row = flatten_avro_value(&val, &headers);
    assert_eq!(row, vec!["1", "2", "test"]);
}

#[test]
fn test_avro_profiling_logic() {
    let raw_schema = r#"
        {
            "type": "record",
            "name": "test",
            "fields": [
                {"name": "id", "type": "long"},
                {"name": "name", "type": "string"},
                {"name": "nested", "type": {
                    "type": "record",
                    "name": "inner",
                    "fields": [
                        {"name": "val", "type": "int"}
                    ]
                }}
            ]
        }
    "#;
    let schema = Schema::parse_str(raw_schema).unwrap();
    let mut writer = Writer::new(&schema, Vec::new()).unwrap();
    let mut record = Record::new(writer.schema()).unwrap();
    let mut inner_record = Record::new(match &schema {
        Schema::Record(rf) => &rf.fields[2].schema,
        _ => unreachable!(),
    })
    .unwrap();
    inner_record.put("val", 100i32);
    record.put("id", 1i64);
    record.put("name", "Alice");
    record.put("nested", inner_record);
    writer.append_value(record).unwrap();
    let bytes = writer.into_inner().unwrap();

    let (headers, rows) = avro_rows(&bytes).unwrap();
    assert_eq!(headers, vec!["id", "name", "nested.val"]);
    assert_eq!(rows, vec![vec!["1", "Alice", "100"]]);
}

#[test]
fn avro_rows_reject_other_bytes() {
    assert!(avro_rows(b"not an avro file").is_err());
}

#[test]
fn scalar_record_is_one_value_column() {
    assert_eq!(extract_headers_from_value(&num(5), ""), vec!["value"]);
    assert_eq!(extract_headers_from_value(&JsonValue::Null, "x"), vec!["x"]);
    let row = flatten_avro_value(&JsonValue::Bool(true), &["value".to_string()]);
    assert_eq!(row, vec![""]);
}
