use datacert::json::{JsonFormat, JsonParser, JsonParserConfig, JsonStructure};

#[test]
fn test_auto_detect_json_array() {
    let data = r#"[{"id": 1, "name": "Alice"}]"#;
    assert_eq!(JsonParser::auto_detect_format(data), JsonFormat::JsonArray);
}

#[test]
fn test_parse_json_array_objects() {
    let mut parser = JsonParser::new(None);
    let data = r#"[{"id": 1}, {"id": 2}]"#;
    let result = parser.parse_chunk(data.as_bytes());
    assert_eq!(result.structure, JsonStructure::ArrayOfObjects);
    assert_eq!(result.total_rows, 2);
}

#[test]
fn test_parse_json_array_primitives() {
    let mut parser = JsonParser::new(None);
    let data = r#"[1, 2, 3]"#;
    let result = parser.parse_chunk(data.as_bytes());
    assert_eq!(result.structure, JsonStructure::ArrayOfPrimitives);
    assert_eq!(result.total_rows, 3);
    assert_eq!(result.headers, vec!["value"]);
    assert_eq!(result.rows[0][0], "1");
}

#[test]
fn test_parse_mixed_array() {
    let mut parser = JsonParser::new(None);
    let data = r#"[{"id": 1}, 2]"#;
    let result = parser.parse_chunk(data.as_bytes());
    assert_eq!(result.structure, JsonStructure::MixedArray);
    assert_eq!(result.total_rows, 2);
    assert!(result.headers.contains(&"id".to_string()));
    assert!(result.headers.contains(&"value".to_string()));
}

#[test]
fn detects_lines_and_unknown() {
    assert_eq!(JsonParser::auto_detect_format("  {\"a\": 1}\n{\"a\": 2}"), JsonFormat::JsonLines);
    assert_eq!(JsonParser::auto_detect_format("hello"), JsonFormat::Unknown);
    assert_eq!(JsonParser::auto_detect_format(""), JsonFormat::Unknown);
}

#[test]
fn nested_object_is_flattened() {
    let mut parser = JsonParser::new(None);
    let result = parser.parse_chunk(br#"[{"user": {"name": "Alice", "age": 30}}]"#);
    let mut headers = result.headers.clone();
    headers.sort();
    assert_eq!(headers, vec!["user.age", "user.name"]);
    let name_at = result.headers.iter().position(|h| h == "user.name").unwrap();
    let age_at = result.headers.iter().position(|h| h == "user.age").unwrap();
    assert_eq!(result.rows[0][name_at], "Alice");
    assert_eq!(result.rows[0][age_at], "30");
}

#[test]
fn depth_cap_serialises_deeper_objects() {
    let config = JsonParserConfig { max_nested_depth: 2, max_keys_per_object: 500 };
    let mut parser = JsonParser::new(Some(config));
    let result = parser.parse_chunk(br#"[{"a": {"b": {"c": {"d": {"e": 1}}}}}]"#);
    assert_eq!(result.headers, vec!["a.b.c"]);
    assert_eq!(result.rows[0][0], r#"{"d":{"e":1}}"#);
}

#[test]
fn arrays_become_length_markers() {
    let mut parser = JsonParser::new(None);
    let result = parser.parse_chunk(br#"[{"tags": [1, 2, 3]}, {"tags": []}]"#);
    assert_eq!(result.rows[0][0], "[array:3]");
    assert_eq!(result.rows[1][0], "[array:0]");
    let stats = parser.get_array_stats();
    assert_eq!(stats.len(), 1);
    assert_eq!(stats[0].0, "tags");
    assert_eq!(stats[0].1.min_length, 0);
    assert_eq!(stats[0].1.max_length, 3);
    assert_eq!(stats[0].1.total_length, 3);
    assert_eq!(stats[0].1.count, 2);
}

#[test]
fn array_items_split_across_chunks() {
    let mut parser = JsonParser::new(None);
    let r1 = parser.parse_chunk(br#"[{"id": 1}, {"id""#);
    assert_eq!(r1.rows.len(), 1);
    let r2 = parser.parse_chunk(br#": 2}, {"id": 3}]"#);
    assert_eq!(r2.rows.len(), 2);
    assert_eq!(r2.total_rows, 3);
    assert_eq!(r2.rows[1][0], "3");
    let r3 = parser.parse_chunk(br#"[{"id": 4}]"#);
    assert_eq!(r3.rows.len(), 0);
}

#[test]
fn malformed_array_item_is_counted() {
    let mut parser = JsonParser::new(None);
    let result = parser.parse_chunk(br#"[{"id": 1}, {bad}, {"id": 2}]"#);
    assert_eq!(result.total_rows, 2);
    assert_eq!(result.malformed_count, 1);
}

#[test]
fn json_lines_with_flush() {
    let mut parser = JsonParser::new(None);
    let r1 = parser.parse_chunk(b"{\"a\": 1}\n\n{\"a\": 2}\n{\"a\"");
    assert_eq!(parser.get_format(), JsonFormat::JsonLines);
    assert_eq!(r1.rows.len(), 2);
    assert_eq!(r1.structure, JsonStructure::NewlineDelimitedObjects);
    let r2 = parser.parse_chunk(b": 3}");
    assert_eq!(r2.rows.len(), 0);
    let r3 = parser.flush();
    assert_eq!(r3.rows, vec![vec!["3"]]);
    assert_eq!(r3.total_rows, 3);
}

#[test]
fn set_format_overrides_detection() {
    let mut parser = JsonParser::new(None);
    parser.set_format(JsonFormat::JsonLines);
    let r = parser.parse_chunk(b"[1]\n");
    assert_eq!(r.format, JsonFormat::JsonLines);
    assert_eq!(r.rows, vec![vec!["[1]"]]);
}

#[test]
fn key_cap_drops_new_columns() {
    let config = JsonParserConfig { max_nested_depth: 3, max_keys_per_object: 2 };
    let mut parser = JsonParser::new(Some(config));
    let r = parser.parse_chunk(br#"[{"a": 1, "b": 2, "c": 3}]"#);
    assert_eq!(r.headers.len(), 2);
    assert_eq!(r.rows[0].len(), 2);
}

#[test]
fn separator_skips_nested_and_quoted() {
    assert_eq!(JsonParser::find_next_value_separator(br#"{"a": [1, 2]}, 3"#), Some((13, false)));
    assert_eq!(JsonParser::find_next_value_separator(br#""x,]\"y", 1"#), Some((8, false)));
    assert_eq!(JsonParser::find_next_value_separator(b"42]"), Some((2, true)));
    assert_eq!(JsonParser::find_next_value_separator(br#"{"a": 1"#), None);
}

#[test]
fn json_lines_split_matches_whole() {
    let bytes = b"{\"a\": 1}\n{bad}\n\n{\"a\": 2, \"b\": [1]}\n{\"a\": 3}";
    let mut whole = JsonParser::new(None);
    let mut rows = whole.parse_chunk(bytes).rows;
    let last = whole.flush();
    rows.extend(last.rows);

    let mut split = JsonParser::new(None);
    let mut rows2 = Vec::new();
    for piece in [&bytes[..4], &bytes[4..12], &bytes[12..30], &bytes[30..]] {
        rows2.extend(split.parse_chunk(piece).rows);
    }
    let last2 = split.flush();
    rows2.extend(last2.rows);
    assert_eq!(rows, rows2);
    assert_eq!(rows.len(), 3);
    assert_eq!(last.malformed_count, 1);
    assert_eq!(last2.malformed_count, 1);
    assert_eq!(last2.total_rows, 3);
}
