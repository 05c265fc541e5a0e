//! The vector-store REST client's addressing and the operations a
//! `milvus://` variable may ask for.
use vstd::prelude::*;
use vstd::string::StringExecFns;
use crate::render::{join_with, lemma_join_step, views};
use crate::text::{
    ascii_lower_seq, chars_of, i64_to_text, signed_decimal, starts_with_ascii_ci, string_of, trim,
    trimmed,
};

verus! {

/// Where a vector store listens, and the bearer token it wants, if any.
#[derive(Debug)]
pub struct MilvusRestClient {
    base_url: String,
    token: Option<String>,
}

/// `s` without trailing `c`.
pub open spec fn strip_end(s: Seq<char>, c: char) -> Seq<char>
    decreases s.len(),
{
    if s.len() > 0 && s.last() == c {
        strip_end(s.drop_last(), c)
    } else {
        s
    }
}

/// `s` without leading `c`.
pub open spec fn strip_start(s: Seq<char>, c: char) -> Seq<char>
    decreases s.len(),
{
    if s.len() > 0 && s[0] == c {
        strip_start(s.drop_first(), c)
    } else {
        s
    }
}

impl MilvusRestClient {
    pub closed spec fn spec_base_url(&self) -> Seq<char> {
        self.base_url@
    }

    pub closed spec fn spec_token(&self) -> Option<Seq<char>> {
        match self.token {
            Some(t) => Some(t@),
            None => None,
        }
    }

    /// A client of the store at `base_url`.
    pub fn new(base_url: String, token: Option<String>) -> (r: MilvusRestClient)
        ensures
            r.spec_base_url() == base_url@,
            r.spec_token() == match token {
                Some(t) => Some(t@),
                None => None::<Seq<char>>,
            },
    {
        MilvusRestClient { base_url, token }
    }

    /// The bearer token, if any.
    pub fn token(&self) -> (r: Option<String>)
        ensures
            r is Some <==> self.spec_token() is Some,
            r matches Some(t) ==> self.spec_token() == Some(t@),
    {
        match &self.token {
            Some(t) => Some(t.clone()),
            None => None,
        }
    }

    /// The URL of `path` on the store: the base without trailing `/`, one
    /// `/`, and the path without leading `/`.
    pub fn endpoint_url(&self, path: &str) -> (r: String)
        ensures
            r@ == strip_end(self.spec_base_url(), '/') + seq!['/'] + strip_start(path@, '/'),
    {
        let b = chars_of(self.base_url.as_str());
        let mut e: usize = b.len();
        assert(b@.subrange(0, e as int) =~= b@);
        while e > 0 && b[e - 1] == '/'
            invariant
                b@ == self.base_url@,
                e <= b@.len(),
                strip_end(b@, '/') == strip_end(b@.subrange(0, e as int), '/'),
            decreases e,
        {
            assert(b@.subrange(0, e as int).drop_last() =~= b@.subrange(0, e - 1));
            e = e - 1;
        }
        let p = chars_of(path);
        let mut s: usize = 0;
        assert(p@.subrange(0, p@.len() as int) =~= p@);
        while s < p.len() && p[s] == '/'
            invariant
                p@ == path@,
                s <= p@.len(),
                strip_start(p@, '/') == strip_start(p@.subrange(s as int, p@.len() as int), '/'),
            decreases p@.len() - s,
        {
            assert(p@.subrange(s as int, p@.len() as int).drop_first() =~= p@.subrange(
                s + 1,
                p@.len() as int,
            ));
            s = s + 1;
        }
        let mut r = string_of(&b, 0, e);
        r.push('/');
        r.append(string_of(&p, s, p.len()).as_str());
        r
    }
}

/// The operations a vector-store variable may name.
#[derive(Clone, Copy, Debug, PartialEq, Eq, Structural)]
pub enum MilvusOp {
    ListCollections,
    Insert,
    Search,
    Query,
}

/// `s` equals `lower` once ASCII letters are folded to lower case.
pub open spec fn eq_ignore_case(s: Seq<char>, lower: Seq<char>) -> bool {
    s.len() == lower.len() && ascii_lower_seq(s) == lower
}

pub open spec fn op_named(name: Seq<char>) -> Option<MilvusOp> {
    if eq_ignore_case(name, "list_collections"@) {
        Some(MilvusOp::ListCollections)
    } else if eq_ignore_case(name, "insert"@) {
        Some(MilvusOp::Insert)
    } else if eq_ignore_case(name, "search"@) {
        Some(MilvusOp::Search)
    } else if eq_ignore_case(name, "query"@) {
        Some(MilvusOp::Query)
    } else {
        None
    }
}

fn eq_ignore_ascii_case(s: &str, lower: &str) -> (r: bool)
    ensures
        r == eq_ignore_case(s@, lower@),
{
    let a = chars_of(s);
    let b = chars_of(lower);
    if a.len() != b.len() {
        return false;
    }
    let r = starts_with_ascii_ci(s, lower);
    assert(s@.subrange(0, lower@.len() as int) =~= s@);
    r
}

/// The operation `name` denotes, in any case.
pub fn milvus_op_named(name: &str) -> (r: Option<MilvusOp>)
    ensures
        r == op_named(name@),
{
    if eq_ignore_ascii_case(name, "list_collections") {
        Some(MilvusOp::ListCollections)
    } else if eq_ignore_ascii_case(name, "insert") {
        Some(MilvusOp::Insert)
    } else if eq_ignore_ascii_case(name, "search") {
        Some(MilvusOp::Search)
    } else if eq_ignore_ascii_case(name, "query") {
        Some(MilvusOp::Query)
    } else {
        None
    }
}

/// How a vector-store variable's payload is read.
#[derive(Debug)]
pub enum MilvusPayload {
    /// List the collections.
    ListCollections,
    /// A JSON object whose `op` member names the operation (default: list
    /// the collections) and whose other members form the request body.
    JsonObject(String),
    /// Anything else: no such operation.
    Unsupported,
}

/// Reads the payload of a vector-store variable: once trimmed, empty or
/// `list_collections` in any case lists the collections; a JSON object is
/// handed on for parsing; anything else is unsupported.
pub fn classify_milvus_payload(op: &str) -> (r: MilvusPayload)
    ensures
        ({
            let t = trim(op@);
            if t.len() == 0 || eq_ignore_case(t, "list_collections"@) {
                r is ListCollections
            } else if t[0] == '{' {
                r matches MilvusPayload::JsonObject(j) && j@ == t
            } else {
                r is Unsupported
            }
        }),
{
    let t = trimmed(op);
    if t.as_str().is_empty() || eq_ignore_ascii_case(t.as_str(), "list_collections") {
        return MilvusPayload::ListCollections;
    }
    let v = chars_of(t.as_str());
    if v[0] == '{' {
        MilvusPayload::JsonObject(t)
    } else {
        MilvusPayload::Unsupported
    }
}

/// Collection names as a variable's value: joined by `, `.
pub fn join_collection_names(names: &Vec<String>) -> (r: String)
    ensures
        r@ == join_with(views(names@), ", "@),
{
    let mut out = String::new();
    let mut k: usize = 0;
    assert(views(names@).subrange(0, 0) =~= seq![]);
    while k < names.len()
        invariant
            k <= names@.len(),
            out@ == join_with(views(names@).subrange(0, k as int), ", "@),
        decreases names@.len() - k,
    {
        proof {
            lemma_join_step(views(names@), k as int, ", "@);
        }
        if k > 0 {
            out.append(", ");
        }
        out.append(names[k].as_str());
        k = k + 1;
    }
    assert(views(names@).subrange(0, names@.len() as int) =~= views(names@));
    out
}

/// The operation a payload asks for. A JSON object names it in its `op`
/// member (`json_op`: `None` when absent or not a string), which defaults
/// to listing the collections; an unknown name, or a payload that is
/// neither, fails with `unsupported_op`.
pub open spec fn requested_op(payload: MilvusPayload, json_op: Option<Seq<char>>) -> Result<MilvusOp, Seq<char>> {
    match payload {
        MilvusPayload::ListCollections => Ok(MilvusOp::ListCollections),
        MilvusPayload::JsonObject(_) => match json_op {
            None => Ok(MilvusOp::ListCollections),
            Some(n) => match op_named(n) {
                Some(op) => Ok(op),
                None => Err("unsupported_op"@),
            },
        },
        MilvusPayload::Unsupported => Err("unsupported_op"@),
    }
}

pub open spec fn result_text(r: Result<MilvusOp, String>) -> Result<MilvusOp, Seq<char>> {
    match r {
        Ok(op) => Ok(op),
        Err(e) => Err(e@),
    }
}

/// Decides the operation of a vector-store variable from its read payload
/// and, for a JSON object, the text of its `op` member.
pub fn milvus_request_op(payload: &MilvusPayload, json_op: Option<&str>) -> (r: Result<MilvusOp, String>)
    ensures
        result_text(r) == requested_op(*payload, match json_op {
            Some(s) => Some(s@),
            None => None::<Seq<char>>,
        }),
{
    match payload {
        MilvusPayload::ListCollections => Ok(MilvusOp::ListCollections),
        MilvusPayload::JsonObject(_) => match json_op {
            None => Ok(MilvusOp::ListCollections),
            Some(n) => match milvus_op_named(n) {
                Some(op) => Ok(op),
                None => Err("unsupported_op".to_owned()),
            },
        },
        MilvusPayload::Unsupported => Err("unsupported_op".to_owned()),
    }
}

/// What the store answered, as far as a variable's value reads it.
#[derive(Debug)]
pub struct MilvusAnswer {
    /// `data.collectionNames`, its string entries, when it is an array.
    pub collection_names: Option<Vec<String>>,
    /// `data.insertCount`, when it is an integer.
    pub insert_count: Option<i64>,
    /// The whole answer as compact JSON text.
    pub body: String,
}

/// The value a vector-store variable takes from the answer to `op`: the
/// collection names joined by `, ` (none: empty), the insert count in
/// decimal (else the whole answer), or the whole answer.
pub open spec fn answer_value(op: MilvusOp, a: MilvusAnswer) -> Seq<char> {
    match op {
        MilvusOp::ListCollections => match a.collection_names {
            Some(names) => join_with(views(names@), ", "@),
            None => seq![],
        },
        MilvusOp::Insert => match a.insert_count {
            Some(n) => signed_decimal(n as int),
            None => a.body@,
        },
        _ => a.body@,
    }
}

/// The value a vector-store variable takes from the answer to `op`.
pub fn milvus_answer_value(op: MilvusOp, answer: &MilvusAnswer) -> (r: String)
    ensures
        r@ == answer_value(op, *answer),
{
    match op {
        MilvusOp::ListCollections => match &answer.collection_names {
            Some(names) => join_collection_names(names),
            None => String::new(),
        },
        MilvusOp::Insert => match answer.insert_count {
            Some(n) => i64_to_text(n),
            None => answer.body.clone(),
        },
        _ => answer.body.clone(),
    }
}

} // verus!
