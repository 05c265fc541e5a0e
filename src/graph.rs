//! The payload of a `neo4j://` variable: plain Cypher, or a JSON object
//! `{cypher, params}`.
use vstd::prelude::*;
use crate::text::{chars_of, trim, trimmed};

verus! {

/// How a graph variable's payload is read, once trimmed.
#[derive(Debug)]
pub enum CypherPayload {
    /// The text is the query itself.
    Plain(String),
    /// A JSON object to parse for its `cypher` and `params` members.
    Json(String),
}

/// Reads a graph payload: trimmed, text starting with `{` is a JSON object,
/// anything else is the query.
pub fn split_cypher_payload(payload: &str) -> (r: CypherPayload)
    ensures
        ({
            let t = trim(payload@);
            if t.len() > 0 && t[0] == '{' {
                r matches CypherPayload::Json(j) && j@ == t
            } else {
                r matches CypherPayload::Plain(q) && q@ == t
            }
        }),
{
    let t = trimmed(payload);
    let v = chars_of(t.as_str());
    if v.len() > 0 && v[0] == '{' {
        CypherPayload::Json(t)
    } else {
        CypherPayload::Plain(t)
    }
}

/// The query of a JSON payload from the text of its `cypher` member
/// (`None` when absent or not a string); without one it fails with
/// `missing_cypher`.
pub fn cypher_from_json(cypher: Option<&str>) -> (r: Result<String, String>)
    ensures
        match cypher {
            Some(c) => r matches Ok(q) && q@ == c@,
            None => r matches Err(e) && e@ == "missing_cypher"@,
        },
{
    match cypher {
        Some(c) => Ok(c.to_owned()),
        None => Err("missing_cypher".to_owned()),
    }
}

} // verus!
