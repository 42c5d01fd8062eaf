use datacert::csv::CsvParser;

#[test]
fn test_auto_detect_delimiter() {
    let comma_data = b"id,name,age\n1,Alice,30\n2,Bob,25";
    assert_eq!(CsvParser::auto_detect_delimiter(comma_data), b',');

    let tab_data = b"id\tname\tage\n1\tAlice\t30\n2\tBob\t25";
    assert_eq!(CsvParser::auto_detect_delimiter(tab_data), b'\t');

    let pipe_data = b"id|name|age\n1|Alice|30\n2|Bob|25";
    assert_eq!(CsvParser::auto_detect_delimiter(pipe_data), b'|');
}

#[test]
fn test_chunked_parsing() {
    let mut parser = CsvParser::new(None, true);

    let chunk1 = b"id,name\n1,Ali";
    let res1 = parser.parse_chunk(chunk1);
    assert_eq!(res1.headers, vec!["id", "name"]);
    assert_eq!(res1.rows.len(), 0);

    let chunk2 = b"ce\n2,Bob\n";
    let res2 = parser.parse_chunk(chunk2);
    assert_eq!(res2.rows, vec![vec!["1", "Alice"], vec!["2", "Bob"]]);

    let chunk3 = b"3,Carol";
    let res3 = parser.parse_chunk(chunk3);
    assert_eq!(res3.rows.len(), 0);

    let res4 = parser.flush();
    assert_eq!(res4.rows, vec![vec!["3", "Carol"]]);
    assert_eq!(res4.total_rows, 3);
}

#[test]
fn test_malformed_row() {
    let mut parser = CsvParser::new(None, true);
    let data = b"id,name\n1,Alice\n2,Bob,Extra\n3,Carol\n";
    let res = parser.parse_chunk(data);
    assert_eq!(res.rows.len(), 2);
    assert_eq!(res.malformed_count, 1);
    assert_eq!(res.total_rows, 3);

    let res2 = parser.flush();
    assert_eq!(res2.total_rows, 3);
}

#[test]
fn semicolon_delimiter_detected() {
    assert_eq!(CsvParser::auto_detect_delimiter(b"a;b\n1;2\n3;4\n"), b';');
}

#[test]
fn single_column_falls_back_to_comma() {
    assert_eq!(CsvParser::auto_detect_delimiter(b"id\n1\n2\n"), b',');
    assert_eq!(CsvParser::auto_detect_delimiter(b""), b',');
}

#[test]
fn chunk_split_matches_single_chunk() {
    let bytes = b"id,name\n1,Alice\n2,Bob\n3,Carol";
    let mut whole = CsvParser::new(None, true);
    let mut rows = whole.parse_chunk(bytes).rows;
    rows.extend(whole.flush().rows);

    let mut split = CsvParser::new(None, true);
    let mut rows2 = Vec::new();
    for piece in [&bytes[..5], &bytes[5..17], &bytes[17..]] {
        rows2.extend(split.parse_chunk(piece).rows);
    }
    rows2.extend(split.flush().rows);
    assert_eq!(rows, rows2);
    assert_eq!(rows.len(), 3);
}

#[test]
fn explicit_delimiter_and_no_headers() {
    let mut parser = CsvParser::new(Some(b';'), false);
    let res = parser.parse_chunk(b"1;2\n3;4\n");
    assert!(res.headers.is_empty());
    assert_eq!(res.rows, vec![vec!["1", "2"], vec!["3", "4"]]);
    parser.set_delimiter(b',');
    let res = parser.parse_chunk(b"5,6\n");
    assert_eq!(res.rows, vec![vec!["5", "6"]]);
    assert_eq!(res.total_rows, 3);
}

#[test]
fn absorbs_reader_output() {
    let mut parser = CsvParser::new(None, true);
    let header = Some(vec!["a".to_string(), "b".to_string()]);
    let records = vec![
        Some(vec!["1".to_string(), "2".to_string()]),
        None,
        Some(vec!["3".to_string(), "4".to_string()]),
    ];
    let rows = parser.absorb_records(header, &records, true);
    assert_eq!(rows, vec![vec!["1", "2"], vec!["3", "4"]]);
    let res = parser.flush();
    assert_eq!(res.headers, vec!["a", "b"]);
    assert_eq!(res.total_rows, 3);
    assert_eq!(res.malformed_count, 1);
    let rows = parser.absorb_records(Some(vec!["x".to_string()]), &Vec::new(), false);
    assert!(rows.is_empty());
    assert_eq!(parser.flush().headers, vec!["a", "b"]);
}

#[test]
fn width_is_kept_across_chunks() {
    let mut parser = CsvParser::new(None, true);
    let r1 = parser.parse_chunk(b"id,name\n1,Alice\n");
    assert_eq!(r1.rows, vec![vec!["1", "Alice"]]);
    let r2 = parser.parse_chunk(b"2,Bob,Extra\n3,Carol\n");
    assert_eq!(r2.rows, vec![vec!["3", "Carol"]]);
    assert_eq!(r2.malformed_count, 1);
    assert_eq!(r2.total_rows, 3);
}

#[test]
fn single_record_scores_its_delimiter() {
    assert_eq!(CsvParser::auto_detect_delimiter(b"a;b"), b';');
}
