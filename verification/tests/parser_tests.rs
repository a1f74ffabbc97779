use ghostdump::parser::schema::extract_metadata;
use ghostdump::parser::state::{
    InsertFormat, InsertHeaderEvent, InsertHeaderState, NormalEvent, NormalState, SqlDialect,
    ValueEvent, ValueState,
};
use ghostdump::parser::tokenizer::{join_tuple, split_tuple};
use ghostdump::parser::{header_echo_len, SqlEvent, SqlParser};

fn payloads(dialect: SqlDialect, sql: &[u8]) -> Vec<String> {
    let mut parser = SqlParser::new(dialect);
    let mut extracted_events = Vec::new();
    for &byte in sql {
        if let Some(event) = parser.handle_byte(byte) {
            let data = match event {
                SqlEvent::Header { raw_bytes, .. } => raw_bytes,
                SqlEvent::Tuple(bytes, _) => bytes,
                SqlEvent::Footer(bytes) => bytes,
                SqlEvent::DefaultStatement(_) => continue,
            };
            extracted_events.push(String::from_utf8_lossy(&data).into_owned());
        }
    }
    extracted_events
}

#[test]
fn test_parser_with_traditional_insert() {
    let mut parser = SqlParser::new(SqlDialect::Mysql);
    let sql = b"INSERT INTO users (id, name) VALUES (1, 'Alice'), (2, 'Bob, the Builder');";
    let mut extracted_events = Vec::new();

    for &byte in sql {
        if let Some(event) = parser.handle_byte(byte) {
            let data = match event {
                SqlEvent::Header { raw_bytes, .. } => raw_bytes,
                SqlEvent::Tuple(bytes, _) => bytes,
                SqlEvent::Footer(bytes) => bytes,
                SqlEvent::DefaultStatement(_) => continue,
            };

            let event_string = String::from_utf8_lossy(&data).into_owned();
            extracted_events.push(event_string);
        }
    }

    assert_eq!(extracted_events.len(), 4);

    assert_eq!(extracted_events[0], "INSERT INTO users (id, name) VALUES");
    assert_eq!(extracted_events[1], "(1, 'Alice')");
    assert_eq!(extracted_events[2], "(2, 'Bob, the Builder')");
    assert_eq!(extracted_events[3], ";");
}

#[test]
fn test_parser_with_postgres_copy() {
    let mut parser = SqlParser::new(SqlDialect::Postgres);
    let sql = b"COPY public.users (id, name) FROM stdin;\n1\tAlice\n2\tBob\n\\.\n";
    let mut extracted_events = Vec::new();

    for &byte in sql {
        if let Some(event) = parser.handle_byte(byte) {
            let data = match event {
                SqlEvent::Header { raw_bytes, .. } => raw_bytes,
                SqlEvent::Tuple(bytes, _) => bytes,
                SqlEvent::Footer(bytes) => bytes,
                SqlEvent::DefaultStatement(_) => continue,
            };

            let event_string = String::from_utf8_lossy(&data).into_owned();
            extracted_events.push(event_string);
        }
    }

    assert_eq!(extracted_events.len(), 4);

    assert_eq!(
        extracted_events[0],
        "COPY public.users (id, name) FROM stdin;"
    );
    assert_eq!(extracted_events[1], "1\tAlice\n");
    assert_eq!(extracted_events[2], "2\tBob\n");
    assert_eq!(extracted_events[3], "\\.\n");
}

#[test]
fn test_tokenizer_split_and_join_copy() {
    let raw_tuple = b"100\t1234-5678-9012\tAlice\n";
    let format = InsertFormat::Copy;

    let columns = split_tuple(raw_tuple, format);
    assert_eq!(columns.len(), 3);
    assert_eq!(columns[0], b"100");
    assert_eq!(columns[1], b"1234-5678-9012");
    assert_eq!(columns[2], b"Alice");

    let joined = join_tuple(&columns, format);
    assert_eq!(joined, raw_tuple);
}

#[test]
fn header_event_names_table_and_columns() {
    let mut parser = SqlParser::new(SqlDialect::Postgres);
    let mut header = None;
    for &byte in b"COPY public.users (id, name) FROM stdin;\n".iter() {
        if let Some(SqlEvent::Header { table_name, columns, .. }) = parser.handle_byte(byte) {
            header = Some((table_name, columns));
        }
    }
    let (table, columns) = header.expect("a header");
    assert_eq!(table, Some(b"users".to_vec()));
    assert_eq!(columns, Some(vec![b"id".to_vec(), b"name".to_vec()]));
}

#[test]
fn extract_metadata_of_insert_header() {
    let (table, columns) = extract_metadata(b"INSERT INTO users (id, name) VALUES").unwrap();
    assert_eq!(table, b"users");
    assert_eq!(columns, Some(vec![b"id".to_vec(), b"name".to_vec()]));
}

#[test]
fn extract_metadata_strips_quotes_and_schema() {
    let (table, columns) =
        extract_metadata(b"insert into `shop`.`orders` (`order_id`, \"total\") VALUES").unwrap();
    assert_eq!(table, b"orders");
    assert_eq!(columns, Some(vec![b"order_id".to_vec(), b"total".to_vec()]));
}

#[test]
fn extract_metadata_without_column_list() {
    let (table, columns) = extract_metadata(b"INSERT INTO logs VALUES").unwrap();
    assert_eq!(table, b"logs");
    assert_eq!(columns, None);
}

#[test]
fn extract_metadata_rejects_headers_without_table() {
    assert_eq!(extract_metadata(b"INSERT VALUES"), None);
    assert_eq!(extract_metadata(b"SELECT 1"), None);
}

#[test]
fn statements_outside_blocks_pass_through() {
    let mut parser = SqlParser::new(SqlDialect::Mysql);
    let sql = b"CREATE TABLE t (a int);\n";
    let mut passed = Vec::new();
    for &byte in sql.iter() {
        match parser.handle_byte(byte) {
            Some(SqlEvent::DefaultStatement(b)) => passed.push(b),
            Some(_) => panic!("no data block expected"),
            None => panic!("every byte passes through"),
        }
    }
    assert_eq!(passed, sql.to_vec());
}

#[test]
fn keywords_match_in_any_case() {
    let events = payloads(SqlDialect::Sqlite, b"insert into t values (1);");
    assert_eq!(events, vec!["insert into t values", "(1)", ";"]);
}

#[test]
fn copy_blocks_need_postgres() {
    let events = payloads(SqlDialect::Mysql, b"COPY t (a) FROM stdin;\n1\n\\.\n");
    assert!(events.is_empty());
}

#[test]
fn normal_state_keeps_a_short_window() {
    let mut state = NormalState::new();
    for &b in b"some long statement without keywords".iter() {
        match state.process_byte(b) {
            NormalEvent::DefaultStatement(x) => assert_eq!(x, b),
            _ => panic!("no keyword here"),
        }
        assert!(state.buf.len() <= 6);
    }
    let mut last = None;
    for &b in b"CoPy".iter() {
        last = Some(state.process_byte(b));
    }
    match last {
        Some(NormalEvent::StartInsertHeader(k)) => assert_eq!(k, b"CoPy"),
        _ => panic!("COPY starts a header"),
    }
}

#[test]
fn header_state_completes_on_values() {
    let mut state = InsertHeaderState::new(SqlDialect::Mysql, b"INSERT".to_vec());
    let mut done = None;
    for &b in b" INTO t VALUES".iter() {
        if let InsertHeaderEvent::HeaderComplete { format, header_bytes } = state.process_byte(b) {
            done = Some((format, header_bytes));
        }
    }
    let (format, header) = done.unwrap();
    assert_eq!(format, InsertFormat::Values);
    assert_eq!(header, b"INSERT INTO t VALUES");
    assert_eq!(state.keyword_buf, b"INSERT INTO t VALUES");
}

#[test]
fn header_state_keeps_its_whole_history() {
    let mut state = InsertHeaderState::new(SqlDialect::Postgres, b"COPY".to_vec());
    let mut formats = Vec::new();
    for &b in b" t VALUES".iter() {
        if let InsertHeaderEvent::HeaderComplete { format, .. } = state.process_byte(b) {
            formats.push(format);
        }
    }
    for &b in b"TDIN;".iter() {
        if let InsertHeaderEvent::HeaderComplete { format, header_bytes } = state.process_byte(b) {
            formats.push(format);
            assert_eq!(header_bytes, b"COPY t VALUESTDIN;");
        }
    }
    assert_eq!(formats, vec![InsertFormat::Values, InsertFormat::Copy]);
}

#[test]
fn keywords_inside_comments_start_nothing() {
    let sql = b"-- INSERT disabled\nSELECT 1;\n/* COPY x */ SELECT 2;\n";
    let mut parser = SqlParser::new(SqlDialect::Postgres);
    let mut passed = Vec::new();
    for &b in sql.iter() {
        match parser.handle_byte(b) {
            Some(SqlEvent::DefaultStatement(x)) => passed.push(x),
            Some(_) => panic!("no data block here"),
            None => panic!("every byte passes through"),
        }
    }
    assert_eq!(passed, sql.to_vec());
}

#[test]
fn a_keyword_after_a_comment_still_counts() {
    let events = payloads(SqlDialect::Mysql, b"/* note */INSERT INTO t VALUES (1);");
    assert_eq!(events, vec!["INSERT INTO t VALUES", "(1)", ";"]);
}

#[test]
fn the_events_give_back_the_dump() {
    let sql = b"CREATE TABLE t (a int);\nINSERT INTO t VALUES (1, 'x'),\n (2, 'y');\n-- end\n";
    let mut parser = SqlParser::new(SqlDialect::Mysql);
    let mut text = Vec::new();
    for &b in sql.iter() {
        match parser.handle_byte(b) {
            Some(SqlEvent::DefaultStatement(x)) => text.push(x),
            Some(SqlEvent::Header { raw_bytes, .. }) => {
                let echo = header_echo_len(&raw_bytes);
                text.extend_from_slice(&raw_bytes[echo..]);
            }
            Some(SqlEvent::Tuple(t, _)) => text.extend_from_slice(&t),
            Some(SqlEvent::Footer(f)) => text.extend_from_slice(&f),
            None => {}
        }
    }
    assert_eq!(text, sql.to_vec());
}

#[test]
fn values_state_handles_nested_parens_and_escapes() {
    let mut state = ValueState::new(SqlDialect::Mysql, InsertFormat::Values);
    let mut tuples = Vec::new();
    let mut footer = None;
    let mut passed = Vec::new();
    for &b in b" (1, f(2), 'a\\'b)'), (3);".iter() {
        match state.process_byte(b) {
            ValueEvent::TupleComplete(t) => tuples.push(t),
            ValueEvent::ExitValuesMode(f) => footer = Some(f),
            ValueEvent::PassThrough(x) => passed.push(x),
            ValueEvent::Continue => {}
        }
    }
    assert_eq!(tuples, vec![b"(1, f(2), 'a\\'b)')".to_vec(), b"(3)".to_vec()]);
    assert_eq!(footer, Some(b";".to_vec()));
    assert_eq!(passed, b" , ".to_vec());
}

#[test]
fn copy_state_passes_blank_lines_and_ends_on_marker() {
    let mut state = ValueState::new(SqlDialect::Postgres, InsertFormat::Copy);
    let mut tuples = Vec::new();
    let mut footer = None;
    let mut passed = Vec::new();
    for &b in b"\r\n1\tx\r\n\\.\r\n".iter() {
        match state.process_byte(b) {
            ValueEvent::TupleComplete(t) => tuples.push(t),
            ValueEvent::ExitValuesMode(f) => footer = Some(f),
            ValueEvent::PassThrough(x) => passed.push(x),
            ValueEvent::Continue => {}
        }
    }
    assert_eq!(passed, b"\r\n".to_vec());
    assert_eq!(tuples, vec![b"1\tx\r\n".to_vec()]);
    assert_eq!(footer, Some(b"\\.\r\n".to_vec()));
}

#[test]
fn split_insert_tuple_respects_strings_and_round_trips() {
    let tuple = b"(2, 'Bob, the Builder', 'it\\'s')";
    let columns = split_tuple(tuple, InsertFormat::Values);
    assert_eq!(
        columns,
        vec![b"(2".to_vec(), b" 'Bob, the Builder'".to_vec(), b" 'it\\'s')".to_vec()]
    );
    assert_eq!(join_tuple(&columns, InsertFormat::Values), tuple.to_vec());
}

#[test]
fn split_copy_tuple_normalises_crlf() {
    let columns = split_tuple(b"a\t\tb\r\n", InsertFormat::Copy);
    assert_eq!(columns, vec![b"a".to_vec(), b"".to_vec(), b"b".to_vec()]);
    assert_eq!(join_tuple(&columns, InsertFormat::Copy), b"a\t\tb\n".to_vec());
}

#[test]
fn comment_marks_inside_strings_open_no_comment() {
    let events = payloads(SqlDialect::Mysql, b"SELECT '/*', 'it''s -- no';INSERT INTO t VALUES (1);");
    assert_eq!(events, vec!["INSERT INTO t VALUES", "(1)", ";"]);
}

#[test]
fn copy_line_starting_with_a_carriage_return_keeps_it() {
    let mut state = ValueState::new(SqlDialect::Postgres, InsertFormat::Copy);
    let mut tuples = Vec::new();
    let mut passed = Vec::new();
    for &b in b"\r1\tx\n\r\n\n2\n".iter() {
        match state.process_byte(b) {
            ValueEvent::TupleComplete(t) => tuples.push(t),
            ValueEvent::PassThrough(x) => passed.push(x),
            _ => {}
        }
    }
    assert_eq!(tuples, vec![b"\r1\tx\n".to_vec(), b"2\n".to_vec()]);
    assert_eq!(passed, b"\r\n\n".to_vec());
}
