use std::path::PathBuf;

use saan::graph::Edge;
use saan::shaver::{Shaver, ShaverError, ShaverRegistry, SqlShaver};
use saan::sql::{check_query_allowed, parse_hazard_present, SqlDialect};
use saan::strand::Strand;

struct DummyShaver;

impl Shaver for DummyShaver {
    fn name(&self) -> &str {
        "dummy"
    }
    fn extensions(&self) -> &[&str] {
        &["dummy"]
    }
    fn shave(&self, input: &PathBuf, _source: &str) -> Result<Strand, ShaverError> {
        Ok(Strand::new(input.clone()))
    }
}

#[test]
fn register_and_lookup_by_extension() {
    let mut r = ShaverRegistry::new();
    r.register(Box::new(DummyShaver));
    assert!(r.for_extension("dummy").is_some());
    assert!(r.for_extension("sql").is_none());
}

#[test]
fn with_builtins_registers_sql_extension() {
    let r = ShaverRegistry::with_builtins();
    assert!(r.for_extension("sql").is_some());
}

#[test]
fn unregistered_extension_returns_none() {
    let r = ShaverRegistry::new();
    assert!(r.for_extension("py").is_none());
}

#[test]
fn with_sql_dialect_replaces_default_sql_shaver() {
    let postgres = ShaverRegistry::with_builtins().with_sql_dialect(SqlDialect::Postgres);
    let shaver = postgres.for_extension("sql").expect("sql must be registered").shaver();
    let strand = shaver
        .shave(&PathBuf::from("cast.sql"), "CREATE TABLE t AS SELECT id::text FROM src")
        .expect("postgres dialect must parse :: cast file");
    assert!(
        strand.nodes.iter().any(|n| n.id == "t"),
        "postgres dialect must produce node 't' from :: cast query"
    );
    assert_eq!(shaver.name(), "sql");
}

struct SqlToo;

impl Shaver for SqlToo {
    fn name(&self) -> &str {
        "sql-too"
    }
    fn extensions(&self) -> &[&str] {
        &["sql", "ddl"]
    }
    fn shave(&self, input: &PathBuf, _source: &str) -> Result<Strand, ShaverError> {
        Ok(Strand::new(input.clone()))
    }
}

fn shave_sql(sql: &str) -> Strand {
    SqlShaver::new().shave_source(&PathBuf::from("test.sql"), sql).unwrap()
}

fn node_ids(strand: &Strand) -> Vec<String> {
    strand.nodes.iter().map(|n| n.id.clone()).collect()
}

fn edge_pairs(strand: &Strand) -> Vec<(String, String)> {
    strand.edges.iter().map(|e| (e.from.clone(), e.to.clone())).collect()
}

#[test]
fn create_table_as_select() {
    let strand = shave_sql("CREATE TABLE stg.orders AS SELECT * FROM raw.orders");
    assert!(node_ids(&strand).contains(&"stg.orders".to_string()));
    assert!(node_ids(&strand).contains(&"raw.orders".to_string()));
    assert!(edge_pairs(&strand).contains(&("raw.orders".into(), "stg.orders".into())));
}

#[test]
fn create_view_as_select() {
    let strand = shave_sql("CREATE VIEW marts.summary AS SELECT * FROM stg.orders");
    assert!(node_ids(&strand).contains(&"marts.summary".to_string()));
    assert!(edge_pairs(&strand).contains(&("stg.orders".into(), "marts.summary".into())));
}

#[test]
fn insert_into_select() {
    let strand = shave_sql("INSERT INTO stg.orders SELECT * FROM raw.orders");
    assert!(edge_pairs(&strand).contains(&("raw.orders".into(), "stg.orders".into())));
}

#[test]
fn bare_select_adds_source_nodes_only() {
    let strand = shave_sql("SELECT * FROM raw.orders");
    assert!(node_ids(&strand).contains(&"raw.orders".to_string()));
    assert!(strand.edges.is_empty());
}

#[test]
fn join_both_sides_captured() {
    let strand = shave_sql(
        "CREATE TABLE stg.orders AS \
         SELECT * FROM raw.orders o JOIN raw.customers c ON o.cid = c.id",
    );
    let ids = node_ids(&strand);
    assert!(ids.contains(&"raw.orders".to_string()));
    assert!(ids.contains(&"raw.customers".to_string()));
    assert!(ids.contains(&"stg.orders".to_string()));
}

#[test]
fn cte_not_exposed_as_upstream_node() {
    let strand = shave_sql(
        "CREATE TABLE marts.summary AS \
         WITH cte AS (SELECT * FROM raw.orders) \
         SELECT * FROM cte",
    );
    let ids = node_ids(&strand);
    assert!(!ids.contains(&"cte".to_string()), "CTE name must not appear as a node");
    assert!(ids.contains(&"raw.orders".to_string()));
    assert!(ids.contains(&"marts.summary".to_string()));
    assert!(strand.edges.iter().any(|e| e.from == "raw.orders" && e.to == "marts.summary"));
}

#[test]
fn subquery_sources_propagate() {
    let strand = shave_sql(
        "CREATE TABLE marts.summary AS \
         SELECT * FROM (SELECT * FROM raw.orders) sub",
    );
    let ids = node_ids(&strand);
    assert!(ids.contains(&"raw.orders".to_string()));
    assert!(ids.contains(&"marts.summary".to_string()));
}

#[test]
fn qualified_name_preserved() {
    let strand = shave_sql("CREATE TABLE prod.raw.orders AS SELECT * FROM staging.src.raw_orders");
    let ids = node_ids(&strand);
    assert!(ids.contains(&"prod.raw.orders".to_string()));
    assert!(ids.contains(&"staging.src.raw_orders".to_string()));
}

#[test]
fn quoted_identifier_preserves_case() {
    let strand = shave_sql(r#"CREATE TABLE "MySchema"."MyTable" AS SELECT * FROM raw.orders"#);
    let ids = node_ids(&strand);
    assert!(ids.contains(&"MySchema.MyTable".to_string()), "got: {ids:?}");
}

#[test]
fn unquoted_identifier_lowercased() {
    let strand = shave_sql("CREATE TABLE STG.ORDERS AS SELECT * FROM RAW.ORDERS");
    let ids = node_ids(&strand);
    assert!(ids.contains(&"stg.orders".to_string()));
    assert!(ids.contains(&"raw.orders".to_string()));
}

#[test]
fn union_both_branches_captured() {
    let strand = shave_sql(
        "CREATE TABLE stg.all_events AS \
         SELECT * FROM raw.events_a \
         UNION ALL \
         SELECT * FROM raw.events_b",
    );
    let ids = node_ids(&strand);
    assert!(ids.contains(&"raw.events_a".to_string()));
    assert!(ids.contains(&"raw.events_b".to_string()));
}

// ── Further cases ───────────────────────────────────────────────────────────

#[test]
fn lineage_nodes_and_edges_in_statement_order() {
    let strand = shave_sql(
        "CREATE TABLE b AS SELECT * FROM a; CREATE TABLE c AS SELECT * FROM b JOIN x ON 1 = 1;",
    );
    assert_eq!(node_ids(&strand), vec!["b", "a", "c", "b", "x"]);
    assert_eq!(
        edge_pairs(&strand),
        vec![("a".into(), "b".into()), ("b".into(), "c".into()), ("x".into(), "c".into())]
    );
    assert!(strand.nodes.iter().all(|n| n.label == n.id && n.source_type == "sql"));
    assert_eq!(strand.source_path, PathBuf::from("test.sql"));
}

#[test]
fn nested_cte_resolves_to_real_tables() {
    let strand = shave_sql(
        "CREATE TABLE out AS WITH x AS (SELECT * FROM raw.t), y AS (SELECT * FROM X) SELECT * FROM y",
    );
    assert_eq!(edge_pairs(&strand), vec![("raw.t".into(), "out".into())]);
}

#[test]
fn other_statements_add_nothing() {
    let strand = shave_sql("DROP TABLE foo; CREATE TABLE t (id INT);");
    assert!(strand.nodes.is_empty());
    assert!(strand.edges.is_empty());
}

#[test]
fn parse_error_is_reported_with_path() {
    let err = SqlShaver::new()
        .shave_source(&PathBuf::from("bad.sql"), "CREATE TABLE AS SELEC")
        .unwrap_err();
    match err {
        ShaverError::Parse { path, message } => {
            assert_eq!(path, PathBuf::from("bad.sql"));
            assert!(!message.is_empty());
        }
        other => panic!("expected a parse error, got {other:?}"),
    }
}

#[test]
fn dialect_names_round_trip() {
    for d in [
        SqlDialect::Generic,
        SqlDialect::Ansi,
        SqlDialect::Postgres,
        SqlDialect::MySql,
        SqlDialect::MsSql,
        SqlDialect::BigQuery,
        SqlDialect::Snowflake,
        SqlDialect::Hive,
        SqlDialect::Redshift,
        SqlDialect::SQLite,
        SqlDialect::DuckDb,
        SqlDialect::ClickHouse,
    ] {
        assert_eq!(SqlDialect::from_name(d.name()), Some(d));
    }
    assert_eq!(SqlDialect::from_name("oracle"), None);
    assert_eq!(SqlDialect::default(), SqlDialect::Generic);
}

#[test]
fn every_dialect_parses_plain_sql() {
    for name in [
        "generic", "ansi", "postgres", "mysql", "mssql", "bigquery", "snowflake", "hive", "redshift",
        "sqlite", "duckdb", "clickhouse",
    ] {
        let d = SqlDialect::from_name(name).unwrap();
        let strand = SqlShaver::with_dialect(d)
            .shave_source(&PathBuf::from("x.sql"), "INSERT INTO t SELECT * FROM s")
            .unwrap();
        assert_eq!(edge_pairs(&strand), vec![("s".into(), "t".into())], "dialect {name}");
    }
}

#[test]
fn sql_shaver_reports_its_name_and_extension() {
    let s = SqlShaver::default();
    assert_eq!(s.name(), "sql");
    assert_eq!(s.extensions(), &["sql"]);
    assert_eq!(s.dialect, SqlDialect::Generic);
}

#[test]
fn later_registration_replaces_earlier_for_same_extension() {
    let mut r = ShaverRegistry::with_builtins();
    r.register(Box::new(SqlToo));
    assert_eq!(r.for_extension("sql").unwrap().shaver().name(), "sql-too");
    assert_eq!(r.for_extension("ddl").unwrap().shaver().name(), "sql-too");
}

#[test]
fn only_select_queries_are_allowed() {
    assert!(check_query_allowed("SELECT COUNT(*) AS cnt FROM nodes").is_ok());
    assert!(check_query_allowed("SELECT 1; SELECT 2").is_ok());
    assert_eq!(
        check_query_allowed("DROP TABLE nodes").unwrap_err(),
        "only SELECT statements are permitted"
    );
    assert!(check_query_allowed("SELECT 1; DELETE FROM edges").is_err());
    // Text that does not parse is left to the database.
    assert!(check_query_allowed("this is not sql at all (").is_ok());
}

#[test]
fn edge_type_is_plain_data() {
    let e = Edge::new("a", "b");
    assert_eq!(e, Edge::new("a", "b"));
    assert_ne!(e, Edge::new("b", "a"));
}

#[test]
fn texts_the_parser_cannot_take_are_refused_not_panicked_on() {
    let shaver = SqlShaver::new();
    for text in [
        "GRANT SELECT ON t TO u GRANTED BY",
        "REVOKE SELECT ON t FROM u granted by",
        "FLUSH RELAY LOGS FOR CHANNEL ;",
    ] {
        match shaver.shave(&PathBuf::from("x.sql"), text) {
            Err(ShaverError::Parse { path, message }) => {
                assert_eq!(path, PathBuf::from("x.sql"));
                assert_eq!(message, "the SQL parser cannot handle this text");
            }
            other => panic!("expected a refusal for {text:?}, got {other:?}"),
        }
    }
    let mysql = SqlShaver::with_dialect(SqlDialect::MySql);
    assert!(matches!(
        mysql.shave(&PathBuf::from("x.sql"), "SELECT 1 DIV"),
        Err(ShaverError::Parse { .. })
    ));
}

#[test]
fn words_in_comments_and_strings_are_no_hazard() {
    let shaver = SqlShaver::new();
    let text = "-- granted by the owner; flush relay logs for channel\nCREATE TABLE a AS SELECT * FROM b";
    let strand = shaver.shave(&PathBuf::from("c.sql"), text).unwrap();
    assert_eq!(strand.edges.len(), 1);
    assert!(!parse_hazard_present(SqlDialect::Generic, "SELECT 'granted by' FROM t"));
    assert!(!parse_hazard_present(SqlDialect::Generic, "GRANT SELECT ON t TO u GRANTED BY admin"));
    assert!(!parse_hazard_present(SqlDialect::MySql, "FLUSH RELAY LOGS FOR CHANNEL a.b"));
    assert!(parse_hazard_present(SqlDialect::MySql, "FLUSH RELAY LOGS FOR CHANNEL a."));
}

#[test]
fn a_delete_with_hazard_words_in_a_comment_is_refused_as_a_non_query() {
    assert_eq!(
        check_query_allowed("/* grant ... granted by */ DELETE FROM nodes").unwrap_err(),
        "only SELECT statements are permitted"
    );
    // A text the parser cannot take is refused too.
    assert_eq!(
        check_query_allowed("GRANT SELECT ON nodes TO u GRANTED BY").unwrap_err(),
        "only SELECT statements are permitted"
    );
}

#[test]
fn parse_hazard_is_token_based() {
    assert!(parse_hazard_present(SqlDialect::Generic, "grant x on t to u granted by"));
    assert!(!parse_hazard_present(SqlDialect::Generic, "SELECT is_granted, granted_at FROM grants"));
    assert!(!parse_hazard_present(SqlDialect::Generic, "SELECT channel FROM marketing"));
    assert!(parse_hazard_present(SqlDialect::MySql, "SELECT a DIV b FROM t"));
    assert!(!parse_hazard_present(SqlDialect::Postgres, "SELECT a DIV b FROM t"));
    assert!(!parse_hazard_present(SqlDialect::MySql, "SELECT divisor FROM t"));
}

#[test]
fn handles_record_name_extensions_and_dialect() {
    let r = ShaverRegistry::with_builtins().with_sql_dialect(SqlDialect::Postgres);
    let h = r.for_extension("sql").unwrap();
    assert_eq!(h.name(), "sql");
    assert_eq!(h.extensions(), &vec!["sql".to_string()]);
    let strand = h
        .shave(&PathBuf::from("cast.sql"), "CREATE TABLE t AS SELECT id::text FROM src")
        .unwrap();
    assert!(strand.nodes.iter().any(|n| n.id == "t"));
    let mut d = ShaverRegistry::new();
    d.register(Box::new(DummyShaver));
    let dh = d.for_extension("dummy").unwrap();
    assert_eq!(dh.name(), "dummy");
    assert!(dh.shave(&PathBuf::from("a.dummy"), "").unwrap().nodes.is_empty());
}
