use context_engine::assets::{accepts_gzip, cache_control_for, is_wasm_path, path_is_gzip_compressible};
use context_engine::crypto::DataKeySource;
use context_engine::graph::{cypher_from_json, split_cypher_payload, CypherPayload};
use context_engine::milvus::{
    classify_milvus_payload, join_collection_names, milvus_answer_value, milvus_op_named,
    milvus_request_op, MilvusAnswer, MilvusOp, MilvusPayload, MilvusRestClient,
};
use context_engine::model::{kind_from_string, node_type_to_kind, NodeKind};
use context_engine::sql::{
    is_safe_identifier, is_safe_table_name, is_sql_driver, quote_ident_mysql, quote_ident_pg,
    quote_ident_sqlite, quote_qualified_table, split_table_name, SqlDialect,
};

#[test]
fn identifiers() {
    assert!(is_safe_identifier("_a1"));
    assert!(is_safe_identifier("Name"));
    assert!(!is_safe_identifier("1a"));
    assert!(!is_safe_identifier(""));
    assert!(!is_safe_identifier("a-b"));
}

#[test]
fn quoting_doubles_quotes() {
    assert_eq!(quote_ident_sqlite("a\"b"), "\"a\"\"b\"");
    assert_eq!(quote_ident_pg("t"), "\"t\"");
    assert_eq!(quote_ident_mysql("a`b"), "`a``b`");
}

#[test]
fn drivers_and_tables() {
    assert!(is_sql_driver("sqlite"));
    assert!(is_sql_driver("postgres"));
    assert!(is_sql_driver("mysql"));
    assert!(!is_sql_driver("oracle"));
    assert!(is_safe_table_name(" public.items "));
    assert!(!is_safe_table_name(".items"));
    assert!(!is_safe_table_name("items."));
    assert!(!is_safe_table_name("a..b"));
    assert!(!is_safe_table_name("a;b"));
    assert!(!is_safe_table_name(""));
    assert!(!is_safe_table_name(&"a".repeat(129)));
    assert!(is_safe_table_name(&"a".repeat(128)));
    assert_eq!(split_table_name("s.t.u"), ("s".to_string(), "t.u".to_string()));
    assert_eq!(split_table_name("items"), ("public".to_string(), "items".to_string()));
}

#[test]
fn gzip_paths() {
    assert!(path_is_gzip_compressible("/assets/APP.JS"));
    assert!(path_is_gzip_compressible("/"));
    assert!(path_is_gzip_compressible("/index.html"));
    assert!(!path_is_gzip_compressible("/logo.png"));
    assert!(!path_is_gzip_compressible(""));
}

#[test]
fn node_kinds() {
    assert_eq!(kind_from_string("tool"), NodeKind::Tool);
    assert_eq!(kind_from_string("other"), NodeKind::Text);
    assert_eq!(node_type_to_kind("system_prompt"), NodeKind::System);
    assert_eq!(node_type_to_kind("messages"), NodeKind::Assistant);
    assert_eq!(node_type_to_kind("custom"), NodeKind::Text);
}

#[test]
fn milvus_addressing_and_ops() {
    let c = MilvusRestClient::new("http://localhost:19530//".to_string(), Some("t".to_string()));
    assert_eq!(c.endpoint_url("/v2/vectordb/collections/list"), "http://localhost:19530/v2/vectordb/collections/list");
    assert_eq!(c.token(), Some("t".to_string()));
    assert_eq!(milvus_op_named("INSERT"), Some(MilvusOp::Insert));
    assert_eq!(milvus_op_named("drop"), None);
    assert!(matches!(classify_milvus_payload("  "), MilvusPayload::ListCollections));
    assert!(matches!(classify_milvus_payload("List_Collections"), MilvusPayload::ListCollections));
    assert!(matches!(classify_milvus_payload(" {\"op\":\"search\"} "), MilvusPayload::JsonObject(ref s) if s == "{\"op\":\"search\"}"));
    assert!(matches!(classify_milvus_payload("drop"), MilvusPayload::Unsupported));
    assert_eq!(join_collection_names(&vec!["a".to_string(), "b".to_string()]), "a, b");
    assert_ne!(DataKeySource::Env, DataKeySource::File);
}

#[test]
fn qualified_tables_are_quoted_piecewise() {
    assert_eq!(quote_qualified_table(" main . items ", SqlDialect::Sqlite), Some("\"main\".\"items\"".to_string()));
    assert_eq!(quote_qualified_table("db.t`x", SqlDialect::Mysql), Some("`db`.`t``x`".to_string()));
    assert_eq!(quote_qualified_table("items", SqlDialect::Postgres), Some("\"items\"".to_string()));
    assert_eq!(quote_qualified_table("a..b", SqlDialect::Postgres), None);
    assert_eq!(quote_qualified_table("", SqlDialect::Postgres), None);
    assert_eq!(quote_qualified_table("a. ", SqlDialect::Sqlite), None);
}

#[test]
fn cache_and_content_decisions() {
    assert_eq!(cache_control_for("/some/route", true), "no-cache");
    assert_eq!(cache_control_for("/", false), "no-cache");
    assert_eq!(cache_control_for("/app/index.html", false), "no-cache");
    assert_eq!(cache_control_for("/assets/app.js", false), "public, max-age=31536000, immutable");
    assert_eq!(cache_control_for("/favicon.ico", false), "public, max-age=3600");
    assert!(is_wasm_path("/pkg/engine_bg.wasm"));
    assert!(!is_wasm_path("/pkg/engine.js"));
    assert!(accepts_gzip(Some("br, gzip;q=0.8")));
    assert!(!accepts_gzip(Some("br")));
    assert!(!accepts_gzip(None));
}

#[test]
fn milvus_json_ops_and_answers() {
    let json = classify_milvus_payload("{\"op\":\"Search\"}");
    assert_eq!(milvus_request_op(&json, Some("Search")), Ok(MilvusOp::Search));
    assert_eq!(milvus_request_op(&json, None), Ok(MilvusOp::ListCollections));
    assert_eq!(milvus_request_op(&json, Some("drop")), Err("unsupported_op".to_string()));
    assert_eq!(milvus_request_op(&MilvusPayload::Unsupported, None), Err("unsupported_op".to_string()));
    assert_eq!(milvus_request_op(&MilvusPayload::ListCollections, Some("x")), Ok(MilvusOp::ListCollections));
    let answer = MilvusAnswer {
        collection_names: Some(vec!["a".to_string(), "b".to_string()]),
        insert_count: Some(3),
        body: "{\"code\":0}".to_string(),
    };
    assert_eq!(milvus_answer_value(MilvusOp::ListCollections, &answer), "a, b");
    assert_eq!(milvus_answer_value(MilvusOp::Insert, &answer), "3");
    assert_eq!(milvus_answer_value(MilvusOp::Query, &answer), "{\"code\":0}");
    let bare = MilvusAnswer { collection_names: None, insert_count: None, body: "{}".to_string() };
    assert_eq!(milvus_answer_value(MilvusOp::ListCollections, &bare), "");
    assert_eq!(milvus_answer_value(MilvusOp::Insert, &bare), "{}");
}

#[test]
fn graph_payloads() {
    assert!(matches!(split_cypher_payload("  RETURN 1 AS value "), CypherPayload::Plain(ref q) if q == "RETURN 1 AS value"));
    assert!(matches!(split_cypher_payload(" {\"cypher\":\"RETURN $x\"} "), CypherPayload::Json(ref j) if j == "{\"cypher\":\"RETURN $x\"}"));
    assert_eq!(cypher_from_json(Some("RETURN $x AS value")), Ok("RETURN $x AS value".to_string()));
    assert_eq!(cypher_from_json(None), Err("missing_cypher".to_string()));
}
