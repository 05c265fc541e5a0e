use context_engine::engine::ContextEngine;
use context_engine::model::{ContextNode, EngineNode, NodeKind, OutputStyle, TraceSeverity, Variable};
use context_engine::render::{interpolate_template, render_with_trace};
use context_engine::vars::VarMap;

fn node(id: &str, label: &str, kind: NodeKind, content: &str) -> EngineNode {
    EngineNode {
        id: id.to_string(),
        label: label.to_string(),
        kind,
        content: content.to_string(),
    }
}

fn vars(pairs: &[(&str, &str)]) -> VarMap {
    let mut m = VarMap::new();
    for (k, v) in pairs {
        m.insert(k.to_string(), v.to_string());
    }
    m
}

#[test]
fn renders_labeled_and_interpolates() {
    let nodes = vec![
        node("n1", "System", NodeKind::System, "Hello {{name}}"),
        node("n2", "User", NodeKind::User, "Ask: {{q}}"),
    ];
    let vars = vars(&[("name", "Alice"), ("q", "hi")]);

    let trace = render_with_trace(&nodes, &vars, OutputStyle::Labeled, "t1", "now");
    assert_eq!(trace.text, "--- System ---\nHello Alice\n\n--- User ---\nAsk: hi");
    assert_eq!(trace.segments.len(), 2);
    assert!(trace.segments[0].missing_variables.is_empty());
    assert!(trace.segments[1].missing_variables.is_empty());
}

#[test]
fn reports_missing_variable_and_keeps_placeholder() {
    let nodes = vec![node("n1", "System", NodeKind::System, "Hello {{missing}}")];
    let vars = VarMap::new();

    let trace = render_with_trace(&nodes, &vars, OutputStyle::Labeled, "t1", "now");
    assert_eq!(trace.segments.len(), 1);
    assert_eq!(trace.segments[0].missing_variables, vec!["missing"]);
    assert!(trace.segments[0].rendered.contains("Hello {{missing}}"));
    assert!(!trace.segments[0].messages.is_empty());
}

#[test]
fn allows_empty_content() {
    let nodes = vec![node("n1", "Empty", NodeKind::Text, "")];
    let vars = VarMap::new();

    let trace = render_with_trace(&nodes, &vars, OutputStyle::Labeled, "t1", "now");
    assert_eq!(trace.text, "--- Empty ---");
}

#[test]
fn plain_style_renders_body_only() {
    let nodes = vec![node("n1", "System", NodeKind::System, "Hello {{name}}")];
    let trace = render_with_trace(&nodes, &vars(&[("name", "Alice")]), OutputStyle::Plain, "r", "c");
    assert_eq!(trace.text, "Hello Alice");
    assert_eq!(trace.segments[0].rendered, "Hello Alice");
    assert_eq!(trace.run_id, "r");
    assert_eq!(trace.created_at, "c");
    assert_eq!(trace.output_style, OutputStyle::Plain);
}

#[test]
fn labeled_style_prefixes_label_header() {
    let nodes = vec![node("n1", "System", NodeKind::System, "Hello {{name}}")];
    let trace = render_with_trace(&nodes, &vars(&[("name", "Alice")]), OutputStyle::Labeled, "r", "c");
    assert_eq!(trace.text, "--- System ---\nHello Alice");
    assert!(trace.segments[0].rendered.starts_with("--- System ---\n"));
}

#[test]
fn missing_variable_scenario_reports_one_warning() {
    let nodes = vec![node("n1", "System", NodeKind::System, "Hello {{missing}}")];
    let trace = render_with_trace(&nodes, &VarMap::new(), OutputStyle::Plain, "r", "c");
    assert!(trace.text.contains("Hello {{missing}}"));
    assert_eq!(trace.segments[0].missing_variables, vec!["missing"]);
    assert_eq!(trace.segments[0].messages.len(), 1);
    assert_eq!(trace.segments[0].messages[0].severity, TraceSeverity::Warn);
    assert_eq!(trace.segments[0].messages[0].code, "missing_variable");
    assert_eq!(trace.segments[0].messages[0].message, "missing variables: missing");
}

#[test]
fn missing_names_are_sorted_and_deduplicated() {
    let (out, missing) = interpolate_template("{{ b }} {{a}} {{b}} {{c}} {{a}}", &VarMap::new());
    assert_eq!(out, "{{ b }} {{a}} {{b}} {{c}} {{a}}");
    assert_eq!(missing, vec!["a", "b", "c"]);
}

#[test]
fn empty_and_blank_tokens_stay_literal_without_report() {
    let (out, missing) = interpolate_template("x {{}} y {{   }} z", &vars(&[("", "no")]));
    assert_eq!(out, "x {{}} y {{   }} z");
    assert!(missing.is_empty());
}

#[test]
fn unterminated_token_is_copied_through() {
    let (out, missing) = interpolate_template("a {{name} b {{", &vars(&[("name", "N")]));
    assert_eq!(out, "a {{name} b {{");
    assert!(missing.is_empty());
}

#[test]
fn names_are_trimmed_and_values_not_reinterpolated() {
    let (out, missing) = interpolate_template("[{{ name }}]", &vars(&[("name", "{{other}}")]));
    assert_eq!(out, "[{{other}}]");
    assert!(missing.is_empty());
}

#[test]
fn nested_braces_run_to_first_closing_pair() {
    let (out, missing) = interpolate_template("{{a{{b}}c}}", &VarMap::new());
    assert_eq!(out, "{{a{{b}}c}}");
    assert_eq!(missing, vec!["a{{b"]);
}

#[test]
fn non_ascii_text_is_kept() {
    let (out, _) = interpolate_template("héllo {{x}} wörld", &vars(&[("x", "ü")]));
    assert_eq!(out, "héllo ü wörld");
}

#[test]
fn later_binding_wins() {
    let m = vars(&[("a", "1"), ("a", "2")]);
    assert_eq!(m.get("a").map(|s| s.as_str()), Some("2"));
    assert_eq!(m.get("b"), None);
}

#[test]
fn joined_text_is_trimmed() {
    let nodes = vec![
        node("n1", "A", NodeKind::Text, "  first  "),
        node("n2", "B", NodeKind::Text, ""),
    ];
    let trace = render_with_trace(&nodes, &VarMap::new(), OutputStyle::Plain, "r", "c");
    assert_eq!(trace.text, "first");
    assert_eq!(trace.segments[1].rendered, "");
}

#[test]
fn rendering_twice_gives_identical_text() {
    let nodes = vec![node("n1", "System", NodeKind::System, "Hi {{a}} {{b}}")];
    let m = vars(&[("a", "x")]);
    let first = render_with_trace(&nodes, &m, OutputStyle::Labeled, "r1", "1");
    let second = render_with_trace(&nodes, &m, OutputStyle::Labeled, "r2", "2");
    assert_eq!(first.text, second.text);
    assert_eq!(first.segments[0].missing_variables, second.segments[0].missing_variables);
}

#[test]
fn engine_renders_text_nodes_labeled() {
    let mut engine = ContextEngine::new();
    engine.set_variables(vec![
        Variable { id: "v1".to_string(), name: "name".to_string(), value: "Bob".to_string() },
        Variable { id: "v2".to_string(), name: "name".to_string(), value: "Alice".to_string() },
    ]);
    let text = engine.process_context(vec![ContextNode {
        id: "n1".to_string(),
        label: "System".to_string(),
        content: "Hello {{name}}".to_string(),
    }]);
    assert_eq!(text, "--- System ---\nHello Alice");
    engine.set_variables(vec![]);
    let text = engine.process_context(vec![ContextNode {
        id: "n1".to_string(),
        label: "S".to_string(),
        content: "{{name}}".to_string(),
    }]);
    assert_eq!(text, "--- S ---\n{{name}}");
}
