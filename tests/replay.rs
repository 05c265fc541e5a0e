use context_engine::model::{EngineNode, NodeKind};
use context_engine::replay::{
    digest_text, failed_run, json_value_to_string, replay_window, row_to_variable_overrides,
    run_id_for, select_runs, succeeded_run, DatasetRow, FieldValue, RowError, RowField, RunStatus,
    RunSummary,
};
use context_engine::resolve::{plan_resolution, ResolveStep, VariableSpec};
use context_engine::vars::VarMap;

fn field(key: &str, value: FieldValue) -> RowField {
    RowField { key: key.to_string(), value, members: None }
}

fn project_nodes() -> Vec<EngineNode> {
    vec![EngineNode {
        id: "n1".to_string(),
        label: "System".to_string(),
        kind: NodeKind::System,
        content: "Hello {{name}}".to_string(),
    }]
}

fn project_vars() -> Vec<VariableSpec> {
    vec![VariableSpec {
        id: "v1".to_string(),
        name: "name".to_string(),
        kind: "static".to_string(),
        value: "World".to_string(),
        resolver: None,
    }]
}

fn run_row(row: &DatasetRow, index: u64, time: u64) -> context_engine::replay::RunRecord {
    let nodes = project_nodes();
    match row_to_variable_overrides(row) {
        Err(_) => failed_run(&nodes, "p1", "d1", index, time),
        Ok(overrides) => {
            let vars = project_vars();
            let outcomes = vars
                .iter()
                .map(|v| match plan_resolution(v, 0) {
                    ResolveStep::Done(r) => r,
                    ResolveStep::Call { .. } => panic!("static variables need no backend"),
                })
                .collect::<Vec<_>>();
            succeeded_run(&nodes, &vars, outcomes, &overrides, "p1", "d1", index, time)
        }
    }
}

#[test]
fn digest_is_base64_sha256() {
    assert_eq!(digest_text(""), "47DEQpj8HBSa+/TImW+5JCeuQeRkm5NMpJWZG3hSuFU=");
    assert_eq!(digest_text("Hello Alice"), "124J89/T/T+p1KLUcodVK9HWFyfQZABNqljTGV3Dq8I=");
}

#[test]
fn replaying_twice_gives_identical_digests() {
    let rows = vec![
        DatasetRow::Object(vec![field("name", FieldValue::Str("Alice".to_string()))]),
        DatasetRow::Object(vec![field("name", FieldValue::Str("Bob".to_string()))]),
    ];
    let first: Vec<_> = rows.iter().enumerate().map(|(i, r)| run_row(r, i as u64, 1000)).collect();
    let second: Vec<_> = rows.iter().enumerate().map(|(i, r)| run_row(r, i as u64, 2000)).collect();
    assert_eq!(first[0].output_digest, second[0].output_digest);
    assert_eq!(first[1].output_digest, second[1].output_digest);
    assert_ne!(first[0].output_digest, first[1].output_digest);
    assert_eq!(first[0].trace.text, "--- System ---\nHello Alice");
    assert_eq!(first[0].output_digest, "jeMNR6iSjtwEucD0y3wdiCfN+H3mG0S6ijTytJh/Lo8=");
    assert_eq!(first[0].run_id, "run_1000_0");
    assert_eq!(second[1].run_id, "run_2000_1");
    assert_eq!(first[0].status, RunStatus::Succeeded);
    assert_eq!(first[0].trace.messages.len(), 1);
    assert_eq!(first[0].trace.messages[0].code, "variable_static");
}

#[test]
fn row_overrides_win_over_resolved_values() {
    let nodes = project_nodes();
    let vars = vec![VariableSpec {
        id: "v1".to_string(),
        name: "name".to_string(),
        kind: "static".to_string(),
        value: "FromResolver".to_string(),
        resolver: None,
    }];
    let outcomes = vars
        .iter()
        .map(|v| match plan_resolution(v, 0) {
            ResolveStep::Done(r) => r,
            ResolveStep::Call { .. } => panic!("static"),
        })
        .collect::<Vec<_>>();
    let row = DatasetRow::Object(vec![field("name", FieldValue::Str("FromRow".to_string()))]);
    let overrides = row_to_variable_overrides(&row).unwrap();
    let rec = succeeded_run(&nodes, &vars, outcomes, &overrides, "p", "d", 0, 5);
    assert!(rec.trace.text.contains("FromRow"));
    assert!(!rec.trace.text.contains("FromResolver"));
}

#[test]
fn malformed_row_is_a_failed_run() {
    let rec = run_row(&DatasetRow::NotObject, 3, 9);
    assert_eq!(rec.status, RunStatus::Failed);
    assert_eq!(rec.trace.text, "");
    assert_eq!(rec.output_digest, "47DEQpj8HBSa+/TImW+5JCeuQeRkm5NMpJWZG3hSuFU=");
    assert_eq!(rec.missing_variables_count, 1);
    assert_eq!(rec.row_index, 3);
    assert_eq!(rec.summary().status.as_text(), "failed");
}

#[test]
fn missing_count_is_distinct_names() {
    let nodes = vec![
        EngineNode { id: "a".to_string(), label: "A".to_string(), kind: NodeKind::Text, content: "{{x}} {{y}}".to_string() },
        EngineNode { id: "b".to_string(), label: "B".to_string(), kind: NodeKind::Text, content: "{{y}} {{z}}".to_string() },
    ];
    let rec = succeeded_run(&nodes, &vec![], vec![], &VarMap::new(), "p", "d", 0, 0);
    assert_eq!(rec.missing_variables_count, 3);
}

#[test]
fn overrides_come_from_variables_member() {
    let row = DatasetRow::Object(vec![
        field("name", FieldValue::Str("outer".to_string())),
        RowField {
            key: "variables".to_string(),
            value: FieldValue::Json("{\"n\":1}".to_string()),
            members: Some(vec![
                ("n".to_string(), FieldValue::Int(-12)),
                ("_meta".to_string(), FieldValue::Bool(true)),
                ("flag".to_string(), FieldValue::Bool(false)),
            ]),
        },
    ]);
    let m = row_to_variable_overrides(&row).unwrap();
    assert_eq!(m.get("n").map(|s| s.as_str()), Some("-12"));
    assert_eq!(m.get("flag").map(|s| s.as_str()), Some("false"));
    assert_eq!(m.get("_meta").map(|s| s.as_str()), Some("true"));
    assert_eq!(m.get("name"), None);
}

#[test]
fn underscore_keys_are_skipped_and_bad_rows_rejected() {
    let row = DatasetRow::Object(vec![
        field("_id", FieldValue::Int(1)),
        field("list", FieldValue::Json("[1,2]".to_string())),
        field("big", FieldValue::Number("18446744073709552000".to_string())),
    ]);
    let m = row_to_variable_overrides(&row).unwrap();
    assert_eq!(m.get("_id"), None);
    assert_eq!(m.get("list").map(|s| s.as_str()), Some("[1,2]"));
    assert_eq!(m.get("big").map(|s| s.as_str()), Some("18446744073709552000"));
    let bad = DatasetRow::Object(vec![field("variables", FieldValue::Str("x".to_string()))]);
    assert_eq!(row_to_variable_overrides(&bad).err(), Some(RowError::RowInvalid));
    assert_eq!(row_to_variable_overrides(&DatasetRow::NotObject).err(), Some(RowError::RowInvalid));
}

#[test]
fn values_convert_to_text() {
    assert_eq!(json_value_to_string(&FieldValue::Int(i64::MIN)), "-9223372036854775808");
    assert_eq!(json_value_to_string(&FieldValue::Int(0)), "0");
    assert_eq!(json_value_to_string(&FieldValue::Bool(true)), "true");
    assert_eq!(json_value_to_string(&FieldValue::Json("null".to_string())), "null");
}

#[test]
fn replay_window_bounds() {
    assert_eq!(replay_window(None, None, 50), (0, 20));
    assert_eq!(replay_window(Some(500), Some(10), 1000), (10, 210));
    assert_eq!(replay_window(Some(5), Some(8), 10), (8, 10));
    assert_eq!(replay_window(Some(5), Some(80), 10), (10, 10));
    assert_eq!(run_id_for(0, 42), "run_0_42");
}

fn stored(ds: &str, run: &str, created: &str, row: u64) -> (String, RunSummary) {
    (
        ds.to_string(),
        RunSummary {
            run_id: run.to_string(),
            created_at: created.to_string(),
            row_index: row,
            status: RunStatus::Succeeded,
            output_digest: String::new(),
            missing_variables_count: 0,
        },
    )
}

#[test]
fn run_listing_keeps_the_newest() {
    let runs = vec![
        stored("d1", "a", "100", 0),
        stored("d2", "b", "500", 0),
        stored("d1", "c", "300", 1),
        stored("d1", "d", "200", 0),
        stored("d1", "e", "400", 0),
    ];
    let ids = |v: &[RunSummary]| v.iter().map(|s| s.run_id.clone()).collect::<Vec<_>>();
    let all = select_runs(runs, "d1", None, Some(2));
    assert_eq!(ids(&all), vec!["e", "c"]);
    let runs = vec![stored("d1", "a", "100", 0), stored("d1", "c", "300", 1), stored("d1", "d", "200", 0)];
    let row0 = select_runs(runs, "d1", Some(0), None);
    assert_eq!(ids(&row0), vec!["d", "a"]);
    assert!(select_runs(vec![], "d1", None, None).is_empty());
}
