use ghostdump::engine::config::{ColumnConfig, Config, TableConfig};
use ghostdump::engine::strategy::StrategyConfig;
use ghostdump::engine::{finish, AnonymizerEngine, DumpState};
use ghostdump::parser::state::SqlDialect;
use ghostdump::parser::SqlParser;
use rand::rngs::StdRng;
use rand::SeedableRng;

fn no_noise(value: &[u8], _epsilon: u64, _sensitivity: u64) -> Vec<u8> {
    value.to_vec()
}

fn users_config() -> Config {
    Config {
        tables: vec![(
            b"users".to_vec(),
            TableConfig {
                columns: vec![
                    ColumnConfig {
                        name: b"name".to_vec(),
                        strategy: StrategyConfig::Fixed { value: b"X".to_vec() },
                    },
                    ColumnConfig {
                        name: b"id".to_vec(),
                        strategy: StrategyConfig::Hmac,
                    },
                ],
            },
        )],
    }
}

fn run(engine: &AnonymizerEngine, dialect: SqlDialect, sql: &[u8], limit: Option<usize>, dry_run: bool) -> (Vec<u8>, bool, usize) {
    let mut parser = SqlParser::new(dialect);
    let mut state = DumpState::new();
    let mut rng = StdRng::seed_from_u64(7);
    let (out, stopped) = engine.process_chunk(&mut parser, &mut state, sql, limit, dry_run, &mut rng, &no_noise);
    (out, stopped, state.rows_processed)
}

#[test]
fn build_strategy_map_follows_the_rules() {
    let engine = AnonymizerEngine::new(users_config(), b"k".to_vec());
    let cols = vec![b"id".to_vec(), b"email".to_vec(), b"name".to_vec()];
    let map = engine.build_strategy_map(b"users", &cols);
    assert_eq!(map.len(), 3);
    assert!(matches!(map[0], Some(StrategyConfig::Hmac)));
    assert!(map[1].is_none());
    assert!(matches!(map[2], Some(StrategyConfig::Fixed { .. })));
    let other = engine.build_strategy_map(b"orders", &cols);
    assert!(other.iter().all(|m| m.is_none()));
}

#[test]
fn process_row_rewrites_only_mapped_columns() {
    let engine = AnonymizerEngine::new(users_config(), b"k".to_vec());
    let fixed = StrategyConfig::Fixed { value: b"X".to_vec() };
    let nullify = StrategyConfig::Nullify;
    let map = vec![None, Some(&fixed), Some(&nullify)];
    let mut rng = StdRng::seed_from_u64(1);
    let row = vec![b"1".to_vec(), b"Alice".to_vec(), b"secret".to_vec(), b"extra".to_vec()];
    let out = engine.process_row(row, &map, &mut rng, &no_noise);
    assert_eq!(
        out,
        vec![b"1".to_vec(), b"X".to_vec(), b"secret".to_vec(), b"extra".to_vec()]
    );
}

#[test]
fn insert_dump_is_rewritten() {
    let engine = AnonymizerEngine::new(users_config(), b"k".to_vec());
    let (out, stopped, rows) = run(
        &engine,
        SqlDialect::Mysql,
        b"INSERT INTO users (id, name) VALUES (1, 'Alice'), (2, 'Bob');",
        None,
        false,
    );
    let text = String::from_utf8(out).unwrap();
    let h1 = String::from_utf8(ghostdump::engine::strategy::hmac_hash(b"1", b"k")).unwrap();
    let h2 = String::from_utf8(ghostdump::engine::strategy::hmac_hash(b"2", b"k")).unwrap();
    assert_eq!(
        text,
        format!(
            "INSERT INTO users (id, name) VALUES ('{}', 'X'), ('{}', 'X');",
            h1, h2
        )
    );
    assert!(!stopped);
    assert_eq!(rows, 2);
}

#[test]
fn unmapped_copy_rows_pass_through() {
    let engine = AnonymizerEngine::new(Config { tables: vec![] }, b"k".to_vec());
    let sql = b"SET x = 1;\nCOPY public.items (id, label) FROM stdin;\n1\tpen\n2\tink\n\\.\n";
    let (out, stopped, rows) = run(&engine, SqlDialect::Postgres, sql, None, false);
    assert_eq!(out, sql.to_vec());
    assert!(!stopped);
    assert_eq!(rows, 2);
}

#[test]
fn limit_stops_after_the_row_that_reaches_it() {
    let engine = AnonymizerEngine::new(users_config(), b"k".to_vec());
    let (out, stopped, rows) = run(
        &engine,
        SqlDialect::Mysql,
        b"INSERT INTO users (name) VALUES ('a'), ('b'), ('c');",
        Some(2),
        false,
    );
    assert!(stopped);
    assert_eq!(rows, 2);
    assert_eq!(
        String::from_utf8(out).unwrap(),
        "INSERT INTO users (name) VALUES ('X'), ('X')"
    );
}

#[test]
fn limit_zero_processes_no_row() {
    let engine = AnonymizerEngine::new(users_config(), b"k".to_vec());
    let (out, stopped, rows) = run(
        &engine,
        SqlDialect::Mysql,
        b"INSERT INTO users (name) VALUES ('a'), ('b');",
        Some(0),
        false,
    );
    assert!(stopped);
    assert_eq!(rows, 0);
    assert_eq!(String::from_utf8(out).unwrap(), "INSERT INTO users (name) VALUES ");
}

#[test]
fn dry_run_counts_as_many_rows_as_a_writing_run() {
    let engine = AnonymizerEngine::new(Config { tables: vec![] }, b"k".to_vec());
    let sql = b"INSERT INTO t VALUES (1), (2), (3);";
    let (dry_out, dry_stopped, dry_rows) = run(&engine, SqlDialect::Mysql, sql, Some(2), true);
    let (_, stopped, rows) = run(&engine, SqlDialect::Mysql, sql, Some(2), false);
    assert!(dry_out.is_empty());
    assert!(dry_stopped && stopped);
    assert_eq!(dry_rows, 2);
    assert_eq!(rows, 2);
}

#[test]
fn unmapped_insert_and_comments_pass_through_untouched() {
    let engine = AnonymizerEngine::new(users_config(), b"k".to_vec());
    let sql = b"-- INSERT INTO users\nINSERT INTO t (a) VALUES (1),\n('x');\n/* COPY */ SELECT 1;\n";
    let (out, stopped, rows) = run(&engine, SqlDialect::Postgres, sql, None, false);
    assert_eq!(out, sql.to_vec());
    assert!(!stopped);
    assert_eq!(rows, 2);
}

#[test]
fn dry_run_writes_nothing_but_counts_rows() {
    let engine = AnonymizerEngine::new(users_config(), b"k".to_vec());
    let (out, stopped, rows) = run(
        &engine,
        SqlDialect::Mysql,
        b"INSERT INTO users (name) VALUES ('a'), ('b');",
        None,
        true,
    );
    assert!(out.is_empty());
    assert!(!stopped);
    assert_eq!(rows, 2);
}

#[test]
fn chunks_can_split_anywhere() {
    let engine = AnonymizerEngine::new(users_config(), b"k".to_vec());
    let sql = b"INSERT INTO users (name) VALUES ('a'), ('b');";
    let mut parser = SqlParser::new(SqlDialect::Mysql);
    let mut state = DumpState::new();
    let mut rng = StdRng::seed_from_u64(3);
    let mut out = Vec::new();
    for chunk in sql.chunks(5) {
        let (o, stopped) =
            engine.process_chunk(&mut parser, &mut state, chunk, None, false, &mut rng, &no_noise);
        assert!(!stopped);
        out.extend(o);
    }
    assert_eq!(
        String::from_utf8(out).unwrap(),
        "INSERT INTO users (name) VALUES ('X'), ('X');"
    );
}

#[test]
fn values_are_read_as_utf8_text_and_trimmed() {
    let config = Config {
        tables: vec![(
            b"t".to_vec(),
            TableConfig {
                columns: vec![ColumnConfig { name: b"c".to_vec(), strategy: StrategyConfig::Hmac }],
            },
        )],
    };
    let engine = AnonymizerEngine::new(config, b"k".to_vec());
    let sql = b"COPY t (a, b, c) FROM stdin;\na\xff\t\xc2\xa0b \t\xc2\xa0z\xff \n\\.\n";
    let (out, _, rows) = run(&engine, SqlDialect::Postgres, sql, None, false);
    let mut expected = b"COPY t (a, b, c) FROM stdin;\na\xff\t\xc2\xa0b \t".to_vec();
    expected.extend(ghostdump::engine::strategy::hmac_hash(b"z\xef\xbf\xbd", b"k"));
    expected.extend_from_slice(b"\n\\.\n");
    assert_eq!(out, expected);
    assert_eq!(rows, 1);
}

#[test]
fn unmapped_columns_of_a_mapped_table_keep_their_bytes() {
    let engine = AnonymizerEngine::new(users_config(), b"k".to_vec());
    let (out, _, _) = run(
        &engine,
        SqlDialect::Mysql,
        b"INSERT INTO users (id, name, age) VALUES (1, 'Alice', NULL);",
        None,
        false,
    );
    let h1 = String::from_utf8(ghostdump::engine::strategy::hmac_hash(b"1", b"k")).unwrap();
    assert_eq!(
        String::from_utf8(out).unwrap(),
        format!("INSERT INTO users (id, name, age) VALUES ('{}', 'X', NULL);", h1)
    );
}

#[test]
fn an_unfinished_tail_is_held_back_and_given_out() {
    let engine = AnonymizerEngine::new(Config { tables: vec![] }, b"k".to_vec());
    let sql = b"COPY t (a) FROM stdin;\n1\n2";
    let mut parser = SqlParser::new(SqlDialect::Postgres);
    let mut state = DumpState::new();
    let mut rng = StdRng::seed_from_u64(5);
    let (mut out, stopped) =
        engine.process_chunk(&mut parser, &mut state, sql, None, false, &mut rng, &no_noise);
    assert!(!stopped);
    assert_eq!(parser.held_back(), b"2".to_vec());
    out.extend(finish(&parser, stopped, false));
    assert_eq!(out, sql.to_vec());
    assert!(finish(&parser, true, false).is_empty());
    assert!(finish(&parser, false, true).is_empty());
}
