//! The data that flows through a render: content nodes, trace messages,
//! per-node segments and the complete trace of a run.
use vstd::prelude::*;
use crate::text::text_eq;

verus! {

/// How each segment's body is presented in the joined text.
#[derive(Clone, Copy, Debug, PartialEq, Eq, Structural)]
pub enum OutputStyle {
    Plain,
    Labeled,
}

/// The role a content node plays in the prompt.
#[derive(Clone, Copy, Debug, PartialEq, Eq, Structural)]
pub enum NodeKind {
    System,
    User,
    Assistant,
    Tool,
    Memory,
    Retrieval,
    Text,
}

/// A labeled template fragment that becomes one segment of the prompt.
#[derive(Debug)]
pub struct EngineNode {
    pub id: String,
    pub label: String,
    pub kind: NodeKind,
    pub content: String,
}

impl EngineNode {
    /// A field-by-field copy of the node.
    pub fn duplicate(&self) -> (r: EngineNode)
        ensures
            r == *self,
    {
        EngineNode {
            id: self.id.clone(),
            label: self.label.clone(),
            kind: self.kind,
            content: self.content.clone(),
        }
    }
}

/// A node as a browser front end hands it over: it carries no kind.
#[derive(Debug)]
pub struct ContextNode {
    pub id: String,
    pub label: String,
    pub content: String,
}

/// A named static value as a browser front end hands it over.
#[derive(Debug)]
pub struct Variable {
    pub id: String,
    pub name: String,
    pub value: String,
}

#[derive(Clone, Copy, Debug, PartialEq, Eq, Structural)]
pub enum TraceSeverity {
    Info,
    Warn,
    Error,
}

/// Structured facts about one variable resolution.
#[derive(Debug)]
pub struct TraceDetails {
    pub variable_id: String,
    pub variable_name: String,
    pub variable_type: String,
    pub scheme: Option<String>,
    pub resolver: Option<String>,
    pub duration_ms: u64,
    pub value_bytes: Option<usize>,
    pub output_bytes_limit: Option<usize>,
    pub truncated: Option<bool>,
    pub error_code: Option<String>,
    pub error_message: Option<String>,
    /// Backend-specific key/value facts about a successful resolution.
    pub debug: Vec<(String, String)>,
}

/// One entry of a trace: a resolver call or a rendering warning.
#[derive(Debug)]
pub struct TraceMessage {
    pub severity: TraceSeverity,
    pub code: String,
    pub message: String,
    pub details: Option<TraceDetails>,
}

/// What rendering produced for one node.
#[derive(Debug)]
pub struct TraceSegment {
    pub node_id: String,
    pub label: String,
    pub kind: NodeKind,
    pub template: String,
    pub rendered: String,
    pub missing_variables: Vec<String>,
    pub messages: Vec<TraceMessage>,
}

/// The complete output of a render.
#[derive(Debug)]
pub struct TraceRun {
    pub run_id: String,
    pub created_at: String,
    pub output_style: OutputStyle,
    pub text: String,
    pub segments: Vec<TraceSegment>,
    pub messages: Vec<TraceMessage>,
}

/// The kind a node's wire name denotes; unknown names are text.
pub open spec fn kind_named(kind: Seq<char>) -> NodeKind {
    if kind == "system"@ {
        NodeKind::System
    } else if kind == "user"@ {
        NodeKind::User
    } else if kind == "assistant"@ {
        NodeKind::Assistant
    } else if kind == "tool"@ {
        NodeKind::Tool
    } else if kind == "memory"@ {
        NodeKind::Memory
    } else if kind == "retrieval"@ {
        NodeKind::Retrieval
    } else {
        NodeKind::Text
    }
}

/// The kind a node's wire name denotes; unknown names are text.
pub fn kind_from_string(kind: &str) -> (r: NodeKind)
    ensures
        r == kind_named(kind@),
{
    if text_eq(kind, "system") {
        NodeKind::System
    } else if text_eq(kind, "user") {
        NodeKind::User
    } else if text_eq(kind, "assistant") {
        NodeKind::Assistant
    } else if text_eq(kind, "tool") {
        NodeKind::Tool
    } else if text_eq(kind, "memory") {
        NodeKind::Memory
    } else if text_eq(kind, "retrieval") {
        NodeKind::Retrieval
    } else {
        NodeKind::Text
    }
}

/// The kind of a stored flow node, by its editor node type; unknown types
/// are text.
pub open spec fn kind_of_node_type(node_type: Seq<char>) -> NodeKind {
    if node_type == "system_prompt"@ {
        NodeKind::System
    } else if node_type == "user_input"@ {
        NodeKind::User
    } else if node_type == "messages"@ {
        NodeKind::Assistant
    } else if node_type == "tools"@ {
        NodeKind::Tool
    } else if node_type == "memory"@ {
        NodeKind::Memory
    } else if node_type == "retrieval"@ {
        NodeKind::Retrieval
    } else {
        NodeKind::Text
    }
}

/// The kind of a stored flow node, by its editor node type.
pub fn node_type_to_kind(node_type: &str) -> (r: NodeKind)
    ensures
        r == kind_of_node_type(node_type@),
{
    if text_eq(node_type, "system_prompt") {
        NodeKind::System
    } else if text_eq(node_type, "user_input") {
        NodeKind::User
    } else if text_eq(node_type, "messages") {
        NodeKind::Assistant
    } else if text_eq(node_type, "tools") {
        NodeKind::Tool
    } else if text_eq(node_type, "memory") {
        NodeKind::Memory
    } else if text_eq(node_type, "retrieval") {
        NodeKind::Retrieval
    } else {
        NodeKind::Text
    }
}

} // verus!
