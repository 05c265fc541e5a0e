use context_engine::model::{EngineNode, NodeKind, OutputStyle, TraceSeverity};
use context_engine::render::render_with_trace;
use context_engine::replay::resolved_variables;
use context_engine::resolve::{
    clamp_string, classify_error_code, finish_resolution, parse_scheme, parse_usize,
    plan_resolution, BackendRequest, ResolveStep, ResolvedValue, Scheme, VariableSpec,
    MAX_VALUE_BYTES,
};
use context_engine::session::{render_session_as_text, Session, SessionMessage};

fn var(name: &str, kind: &str, value: &str, resolver: Option<&str>) -> VariableSpec {
    VariableSpec {
        id: format!("id_{name}"),
        name: name.to_string(),
        kind: kind.to_string(),
        value: value.to_string(),
        resolver: resolver.map(|s| s.to_string()),
    }
}

fn done(step: ResolveStep) -> context_engine::resolve::ResolveWithTrace {
    match step {
        ResolveStep::Done(r) => r,
        ResolveStep::Call { .. } => panic!("expected a decided outcome"),
    }
}

#[test]
fn static_variable_passes_through() {
    let r = done(plan_resolution(&var("name", "static", "Alice", None), 3));
    assert_eq!(r.result.as_ref().unwrap().string_value, "Alice");
    assert_eq!(r.trace_message.severity, TraceSeverity::Info);
    assert_eq!(r.trace_message.code, "variable_static");
    let d = r.trace_message.details.unwrap();
    assert_eq!(d.duration_ms, 3);
    assert_eq!(d.truncated, Some(false));
    assert_eq!(d.output_bytes_limit, Some(MAX_VALUE_BYTES));
}

#[test]
fn static_variable_is_clamped() {
    let long = "é".repeat(10_001);
    let r = done(plan_resolution(&var("big", "static", &long, None), 0));
    let value = &r.result.as_ref().unwrap().string_value;
    assert_eq!(value.len(), 20_000);
    assert_eq!(r.trace_message.details.unwrap().truncated, Some(true));
}

#[test]
fn missing_resolver_fails() {
    let r = done(plan_resolution(&var("x", "dynamic", "v", Some("   ")), 0));
    assert_eq!(r.result.as_ref().unwrap_err(), "resolver_missing");
    assert_eq!(r.trace_message.code, "variable_resolve_failed");
    assert_eq!(r.trace_message.severity, TraceSeverity::Warn);
    assert_eq!(r.trace_message.details.unwrap().error_code.as_deref(), Some("resolver_missing"));
    let r = done(plan_resolution(&var("x", "dynamic", "v", None), 0));
    assert!(r.result.is_err());
}

#[test]
fn unsupported_scheme_fails_and_renders_placeholder() {
    let v = var("name", "dynamic", "whatever", Some("badscheme://x"));
    let r = done(plan_resolution(&v, 0));
    let d = r.trace_message.details.as_ref().unwrap();
    assert_eq!(d.error_code.as_deref(), Some("unsupported_scheme"));
    assert_eq!(d.scheme.as_deref(), Some("badscheme"));
    assert_eq!(r.result.as_ref().unwrap_err(), "不支持的 resolver scheme：badscheme");
    let vars = resolved_variables(&vec![v], &vec![r]);
    let nodes = vec![EngineNode {
        id: "n".to_string(),
        label: "S".to_string(),
        kind: NodeKind::System,
        content: "Hi {{name}}".to_string(),
    }];
    let trace = render_with_trace(&nodes, &vars, OutputStyle::Plain, "r", "c");
    assert!(trace.text.contains("[name]"));
    assert_eq!(trace.text, "Hi [name]");
}

#[test]
fn chat_resolver_plans_session_request() {
    match plan_resolution(&var("chat", "dynamic", " 500 ", Some(" chat://s_1 ")), 0) {
        ResolveStep::Call { scheme, resolver, request } => {
            assert_eq!(scheme, Scheme::Chat);
            assert_eq!(resolver, "chat://s_1");
            match request {
                BackendRequest::Chat { session_id, requested, max_messages } => {
                    assert_eq!(session_id, "s_1");
                    assert_eq!(requested, 500);
                    assert_eq!(max_messages, 200);
                }
                other => panic!("unexpected request {other:?}"),
            }
        }
        ResolveStep::Done(_) => panic!("expected a backend call"),
    }
    match plan_resolution(&var("chat", "dynamic", "lots", Some("chat://s_2")), 0) {
        ResolveStep::Call { request: BackendRequest::Chat { requested, max_messages, .. }, .. } => {
            assert_eq!(requested, 20);
            assert_eq!(max_messages, 20);
        }
        _ => panic!("expected a chat request"),
    }
}

#[test]
fn sql_resolver_requires_read_only_query() {
    let r = done(plan_resolution(&var("q", "dynamic", "DELETE FROM items", Some("sql://ds1")), 0));
    assert_eq!(r.result.as_ref().unwrap_err(), "readonly_required");
    assert_eq!(r.trace_message.details.unwrap().error_code.as_deref(), Some("readonly_required"));
    let r = done(plan_resolution(&var("q", "dynamic", "   ", Some("sqlite:///tmp/x.db")), 0));
    assert_eq!(r.trace_message.details.unwrap().error_code.as_deref(), Some("unknown"));
    match plan_resolution(&var("q", "dynamic", " Select 1 ", Some("sql://ds1")), 0) {
        ResolveStep::Call { request: BackendRequest::Sql { datasource_id, query }, .. } => {
            assert_eq!(datasource_id, "ds1");
            assert_eq!(query, "Select 1");
        }
        _ => panic!("expected a sql request"),
    }
    match plan_resolution(&var("q", "dynamic", "with t as (select 1) select * from t", Some("sqlite:///tmp/x.db")), 0) {
        ResolveStep::Call { request: BackendRequest::Sqlite { url, .. }, .. } => {
            assert_eq!(url, "sqlite:///tmp/x.db");
        }
        _ => panic!("expected a sqlite request"),
    }
}

#[test]
fn neo4j_and_milvus_requests() {
    let r = done(plan_resolution(&var("g", "dynamic", "", Some("neo4j://ds")), 0));
    assert!(r.result.is_err());
    match plan_resolution(&var("g", "dynamic", "RETURN 1 AS value", Some("neo4j://ds")), 0) {
        ResolveStep::Call { request: BackendRequest::Neo4j { datasource_id, cypher }, .. } => {
            assert_eq!(datasource_id, "ds");
            assert_eq!(cypher, "RETURN 1 AS value");
        }
        _ => panic!("expected a neo4j request"),
    }
    match plan_resolution(&var("m", "dynamic", "", Some("milvus://m1")), 0) {
        ResolveStep::Call { request: BackendRequest::Milvus { datasource_id, op }, .. } => {
            assert_eq!(datasource_id, "m1");
            assert_eq!(op, "");
        }
        _ => panic!("expected a milvus request"),
    }
}

#[test]
fn finish_clamps_and_records() {
    let v = var("x", "dynamic", "", Some("chat://s"));
    let raw = ResolvedValue { string_value: "a".repeat(20_005), debug: vec![("k".to_string(), "v".to_string())] };
    let r = finish_resolution(&v, Scheme::Chat, "chat://s", 7, Ok(raw));
    assert_eq!(r.trace_message.code, "variable_resolved");
    let d = r.trace_message.details.as_ref().unwrap();
    assert_eq!(d.value_bytes, Some(20_000));
    assert_eq!(d.truncated, Some(true));
    assert_eq!(d.scheme.as_deref(), Some("chat"));
    assert_eq!(d.duration_ms, 7);
    assert_eq!(d.debug.len(), 1);
    assert_eq!(r.result.unwrap().string_value.len(), 20_000);

    let r = finish_resolution(&v, Scheme::Sqlite, "sqlite://x", 1, Err("error returned from database: unable to open database file".to_string()));
    assert_eq!(r.trace_message.details.unwrap().error_code.as_deref(), Some("sqlite_open_failed"));
}

#[test]
fn clamp_never_splits_a_character() {
    assert_eq!(clamp_string("abc", 5), ("abc".to_string(), false));
    assert_eq!(clamp_string("abc", 2), ("ab".to_string(), true));
    assert_eq!(clamp_string("aé", 2), ("a".to_string(), true));
    assert_eq!(clamp_string("é", 1), ("".to_string(), true));
    assert_eq!(clamp_string("", 0), ("".to_string(), false));
}

#[test]
fn error_messages_are_classified() {
    assert_eq!(classify_error_code(" resolver_missing "), "resolver_missing");
    assert_eq!(classify_error_code("readonly_required"), "readonly_required");
    assert_eq!(classify_error_code("feature_not_enabled"), "feature_not_enabled");
    assert_eq!(classify_error_code("unsupported_op"), "unsupported_op");
    assert_eq!(classify_error_code("aead decrypt failed"), "decrypt_failed");
    assert_eq!(classify_error_code("missing DATA_KEY (base64)"), "decrypt_failed");
    assert_eq!(classify_error_code("不支持的 resolver scheme：badscheme"), "unsupported_scheme");
    assert_eq!(classify_error_code("relative URL without a base"), "invalid_url");
    assert_eq!(classify_error_code("error with configuration: bad"), "invalid_url");
    assert_eq!(classify_error_code("unable to open database file"), "sqlite_open_failed");
    assert_eq!(classify_error_code("Connection refused (os error 111)"), "connect_failed");
    assert_eq!(classify_error_code("connection refused"), "connect_failed");
    assert_eq!(classify_error_code("boom"), "unknown");
}

#[test]
fn schemes_parse() {
    assert_eq!(parse_scheme("chat"), Some(Scheme::Chat));
    assert_eq!(parse_scheme("sql"), Some(Scheme::Sql));
    assert_eq!(parse_scheme("sqlite"), Some(Scheme::Sqlite));
    assert_eq!(parse_scheme("neo4j"), Some(Scheme::Neo4j));
    assert_eq!(parse_scheme("milvus"), Some(Scheme::Milvus));
    assert_eq!(parse_scheme("Chat"), None);
    assert_eq!(Scheme::Neo4j.name(), "neo4j");
}

#[test]
fn usize_parses_like_std() {
    assert_eq!(parse_usize("42"), Some(42));
    assert_eq!(parse_usize("+7"), Some(7));
    assert_eq!(parse_usize("-7"), None);
    assert_eq!(parse_usize("+"), None);
    assert_eq!(parse_usize(""), None);
    assert_eq!(parse_usize("1x"), None);
    assert_eq!(parse_usize("18446744073709551615"), Some(usize::MAX));
    assert_eq!(parse_usize("18446744073709551616"), None);
}

#[test]
fn session_renders_last_messages() {
    let msg = |role: &str, content: &str| SessionMessage {
        role: role.to_string(),
        content: content.to_string(),
        created_at: String::new(),
    };
    let s = Session {
        id: "s".to_string(),
        name: "n".to_string(),
        messages: vec![msg("user", " hi "), msg("assistant", "hello"), msg("critic", "meh")],
        updated_at: String::new(),
    };
    assert_eq!(render_session_as_text(&s, 10), "[User]: hi\n[Assistant]: hello\ncritic: meh");
    assert_eq!(render_session_as_text(&s, 1), "critic: meh");
    assert_eq!(render_session_as_text(&s, 0), "");
}
