//! The replay and digest recorder: one run per dataset row, with the row's
//! overrides merged over the resolved variables, a content digest of the
//! output, and the count of missing variables.
use vstd::prelude::*;
use vstd::string::StringExecFns;
use crate::model::{EngineNode, OutputStyle, TraceMessage, TraceRun, TraceSegment};
use crate::render::{
    insert_sorted, lemma_render_idempotent, render_with_trace, renders_as, segment_of,
    strictly_sorted, views,
};
use crate::resolve::{
    error_code_of, opt_is, opt_text, planned_as, scheme_of, scheme_part, ResolveStep,
    ResolveWithTrace, VariableSpec,
};
use crate::text::{
    has_infix, is_ws, lemma_trim_concat, occurs_at, trim_end,
    decimal, i64_to_text, lemma_lex_irreflexive, lemma_lex_total, lemma_lex_transitive, lex_le,
    lex_lt, signed_decimal, text_lt, text_eq, trim, trimmed, u64_to_text,
};
use crate::vars::{bindings_map, lemma_bindings_push, VarMap};
use base64::Engine;
use sha2::Digest;

verus! {

broadcast use vstd::seq_lib::group_to_multiset_ensures;

/// The SHA-256 digest of `data`.
pub uninterp spec fn sha256_of(data: Seq<u8>) -> Seq<u8>;

/// The standard, padded base64 encoding of `data`.
pub uninterp spec fn base64_of(data: Seq<u8>) -> Seq<char>;

/// Relies on `sha2::Sha256::digest`: the SHA-256 digest of the input bytes,
/// 32 bytes long.
#[verifier::external_body]
fn sha256(data: &[u8]) -> (r: Vec<u8>)
    ensures
        r@ == sha256_of(data@),
        r@.len() == 32,
{
    sha2::Sha256::digest(data).to_vec()
}

/// Relies on `base64::engine::general_purpose::STANDARD.encode`: the
/// standard alphabet with padding, four characters per started group of
/// three bytes.
#[verifier::external_body]
pub(crate) fn base64_standard(data: &[u8]) -> (r: String)
    ensures
        r@ == base64_of(data@),
        r@.len() == 4 * ((data@.len() + 2) / 3),
{
    base64::engine::general_purpose::STANDARD.encode(data)
}

/// The digest of a run's text: base64 of the SHA-256 of its UTF-8 bytes.
pub open spec fn output_digest(text: Seq<char>) -> Seq<char> {
    base64_of(sha256_of(vstd::utf8::encode_utf8(text)))
}

/// The digest of `text`: 44 characters.
pub fn digest_text(text: &str) -> (r: String)
    ensures
        r@ == output_digest(text@),
        r@.len() == 44,
{
    let hash = sha256(text.as_bytes());
    base64_standard(hash.as_slice())
}

/// A value in a dataset row, as overrides read it.
#[derive(Debug)]
pub enum FieldValue {
    Str(String),
    Int(i64),
    /// Any other number, in the decimal form a float prints as.
    Number(String),
    Bool(bool),
    /// Null, an array or an object, as compact JSON text.
    Json(String),
}

/// One member of a dataset row object.
#[derive(Debug)]
pub struct RowField {
    pub key: String,
    pub value: FieldValue,
    /// The members of the value when it is a JSON object.
    pub members: Option<Vec<(String, FieldValue)>>,
}

/// A dataset row: a JSON object, or any other JSON value.
#[derive(Debug)]
pub enum DatasetRow {
    Object(Vec<RowField>),
    NotObject,
}

/// Why a row yields no overrides.
#[derive(Clone, Copy, Debug, PartialEq, Eq, Structural)]
pub enum RowError {
    /// The row, or its `variables` member, is not an object.
    RowInvalid,
}

/// The text a row value overrides a variable with.
pub open spec fn field_text(v: FieldValue) -> Seq<char> {
    match v {
        FieldValue::Str(s) => s@,
        FieldValue::Int(n) => signed_decimal(n as int),
        FieldValue::Number(t) => t@,
        FieldValue::Bool(b) => if b {
            "true"@
        } else {
            "false"@
        },
        FieldValue::Json(t) => t@,
    }
}

/// The text a row value overrides a variable with.
pub fn json_value_to_string(v: &FieldValue) -> (r: String)
    ensures
        r@ == field_text(*v),
{
    match v {
        FieldValue::Str(s) => s.clone(),
        FieldValue::Int(n) => i64_to_text(*n),
        FieldValue::Number(t) => t.clone(),
        FieldValue::Bool(b) => if *b {
            "true".to_owned()
        } else {
            "false".to_owned()
        },
        FieldValue::Json(t) => t.clone(),
    }
}

/// Keys starting with `_` are metadata, not overrides.
pub open spec fn is_override_key(k: Seq<char>) -> bool {
    !(k.len() > 0 && k[0] == '_')
}

/// The bindings of the members whose keys do not start with `_`, in order.
pub open spec fn member_bindings(ms: Seq<(String, FieldValue)>) -> Seq<(Seq<char>, Seq<char>)>
    decreases ms.len(),
{
    if ms.len() == 0 {
        seq![]
    } else {
        let rest = member_bindings(ms.drop_last());
        if is_override_key(ms.last().0@) {
            rest.push((ms.last().0@, field_text(ms.last().1)))
        } else {
            rest
        }
    }
}

pub open spec fn field_pairs(fs: Seq<RowField>) -> Seq<(String, FieldValue)> {
    fs.map_values(|f: RowField| (f.key, f.value))
}

/// The last member named `variables`, if any.
pub open spec fn variables_field(fs: Seq<RowField>) -> Option<RowField>
    decreases fs.len(),
{
    if fs.len() == 0 {
        None
    } else if fs.last().key@ == "variables"@ {
        Some(fs.last())
    } else {
        variables_field(fs.drop_last())
    }
}

/// The bindings of every member of a `variables` object, in order.
pub open spec fn nested_bindings(ms: Seq<(String, FieldValue)>) -> Seq<(Seq<char>, Seq<char>)>
    decreases ms.len(),
{
    if ms.len() == 0 {
        seq![]
    } else {
        nested_bindings(ms.drop_last()).push((ms.last().0@, field_text(ms.last().1)))
    }
}

/// The overrides a row carries: every member of its `variables` object when
/// it has one, else its own members whose keys do not start with `_`.
/// `None` when the row, or its `variables` member, is not an object.
pub open spec fn row_overrides(row: DatasetRow) -> Option<Map<Seq<char>, Seq<char>>> {
    match row {
        DatasetRow::NotObject => None,
        DatasetRow::Object(fs) => match variables_field(fs@) {
            Some(f) => match f.members {
                Some(ms) => Some(bindings_map(nested_bindings(ms@))),
                None => None,
            },
            None => Some(bindings_map(member_bindings(field_pairs(fs@)))),
        },
    }
}

/// Adds a binding for every member of `ms` to `out`.
fn add_member_bindings(out: &mut VarMap, ms: &Vec<(String, FieldValue)>)
    ensures
        final(out)@ == old(out)@.union_prefer_right(bindings_map(nested_bindings(ms@))),
{
    let mut k: usize = 0;
    assert(nested_bindings(ms@.subrange(0, 0)) =~= seq![]);
    assert(old(out)@ =~= old(out)@.union_prefer_right(bindings_map(seq![])));
    while k < ms.len()
        invariant
            k <= ms@.len(),
            out@ == old(out)@.union_prefer_right(bindings_map(nested_bindings(ms@.subrange(0, k as int)))),
        decreases ms@.len() - k,
    {
        let key = &ms[k].0;
        let ghost before = nested_bindings(ms@.subrange(0, k as int));
        assert(ms@.subrange(0, k + 1).drop_last() =~= ms@.subrange(0, k as int));
        assert(ms@.subrange(0, k + 1).last() == ms@[k as int]);
        let text = json_value_to_string(&ms[k].1);
        proof {
            lemma_bindings_push(before, (key@, text@), old(out)@);
        }
        out.insert(key.clone(), text);
        k = k + 1;
    }
    assert(ms@.subrange(0, ms@.len() as int) =~= ms@);
}

/// Whether `key` names metadata rather than an override.
fn is_meta_key(key: &str) -> (r: bool)
    ensures
        r == !is_override_key(key@),
{
    let v = crate::text::chars_of(key);
    v.len() > 0 && v[0] == '_'
}

/// Adds the bindings of the row members `fs` that are overrides to `out`.
fn add_field_bindings(out: &mut VarMap, fs: &Vec<RowField>)
    ensures
        final(out)@ == old(out)@.union_prefer_right(bindings_map(member_bindings(field_pairs(fs@)))),
{
    let ghost ps = field_pairs(fs@);
    let mut k: usize = 0;
    assert(member_bindings(ps.subrange(0, 0)) =~= seq![]);
    assert(old(out)@ =~= old(out)@.union_prefer_right(bindings_map(seq![])));
    while k < fs.len()
        invariant
            k <= fs@.len(),
            ps == field_pairs(fs@),
            out@ == old(out)@.union_prefer_right(bindings_map(member_bindings(ps.subrange(0, k as int)))),
        decreases fs@.len() - k,
    {
        let key = &fs[k].key;
        assert(ps.subrange(0, k + 1).drop_last() =~= ps.subrange(0, k as int));
        assert(ps[k as int] == (fs@[k as int].key, fs@[k as int].value));
        assert(ps.subrange(0, k + 1).last() == ps[k as int]);
        if !is_meta_key(key.as_str()) {
            let text = json_value_to_string(&fs[k].value);
            proof {
                lemma_bindings_push(member_bindings(ps.subrange(0, k as int)), (key@, text@), old(out)@);
            }
            out.insert(key.clone(), text);
        }
        k = k + 1;
    }
    assert(ps.subrange(0, ps.len() as int) =~= ps);
}

/// The overrides that a dataset row carries.
pub fn row_to_variable_overrides(row: &DatasetRow) -> (r: Result<VarMap, RowError>)
    ensures
        match row_overrides(*row) {
            Some(m) => r matches Ok(vars) && vars@ == m,
            None => r == Err::<VarMap, RowError>(RowError::RowInvalid),
        },
{
    match row {
        DatasetRow::NotObject => Err(RowError::RowInvalid),
        DatasetRow::Object(fs) => {
            let mut k: usize = fs.len();
            assert(fs@.subrange(0, k as int) =~= fs@);
            while k > 0
                invariant
                    k <= fs@.len(),
                    *row == DatasetRow::Object(*fs),
                    variables_field(fs@) == variables_field(fs@.subrange(0, k as int)),
                decreases k,
            {
                assert(fs@.subrange(0, k as int).drop_last() =~= fs@.subrange(0, k - 1));
                assert(fs@.subrange(0, k as int).last() == fs@[k - 1]);
                if text_eq(fs[k - 1].key.as_str(), "variables") {
                    assert(variables_field(fs@) == Some(fs@[k - 1]));
                    let mut out = VarMap::new();
                    match &fs[k - 1].members {
                        Some(ms) => {
                            add_member_bindings(&mut out, ms);
                            assert(out@ =~= bindings_map(nested_bindings(ms@)));
                            return Ok(out);
                        },
                        None => {
                            return Err(RowError::RowInvalid);
                        },
                    }
                }
                k = k - 1;
            }
            assert(fs@.subrange(0, 0) =~= seq![]);
            let mut out = VarMap::new();
            add_field_bindings(&mut out, fs);
            assert(out@ =~= bindings_map(member_bindings(field_pairs(fs@))));
            Ok(out)
        },
    }
}

/// The value a variable contributes to a render: what it resolved to, or
/// the placeholder `[name]` when its resolution failed.
pub open spec fn outcome_value(v: VariableSpec, o: ResolveWithTrace) -> Seq<char> {
    match o.result {
        Ok(val) => val.string_value@,
        Err(_) => seq!['['] + v.name@ + seq![']'],
    }
}

pub open spec fn resolved_bindings(vs: Seq<VariableSpec>, os: Seq<ResolveWithTrace>) -> Seq<
    (Seq<char>, Seq<char>),
> {
    Seq::new(vs.len(), |k: int| (vs[k].name@, outcome_value(vs[k], os[k])))
}

/// The variables of a render once the row's overrides are applied over the
/// resolved values.
pub open spec fn merged_vars(
    vs: Seq<VariableSpec>,
    os: Seq<ResolveWithTrace>,
    overrides: Map<Seq<char>, Seq<char>>,
) -> Map<Seq<char>, Seq<char>> {
    bindings_map(resolved_bindings(vs, os)).union_prefer_right(overrides)
}

/// The variable map of resolved values; a failed variable is bound to
/// `[name]` so rendering proceeds. `outcomes[k]` belongs to `variables[k]`.
pub fn resolved_variables(variables: &Vec<VariableSpec>, outcomes: &Vec<ResolveWithTrace>) -> (r: VarMap)
    requires
        variables@.len() == outcomes@.len(),
    ensures
        r@ == bindings_map(resolved_bindings(variables@, outcomes@)),
{
    let ghost b = resolved_bindings(variables@, outcomes@);
    let mut out = VarMap::new();
    let mut k: usize = 0;
    assert(b.subrange(0, 0) =~= seq![]);
    assert(out@ =~= bindings_map(seq![]));
    while k < variables.len()
        invariant
            k <= variables@.len(),
            variables@.len() == outcomes@.len(),
            b == resolved_bindings(variables@, outcomes@),
            out@ == bindings_map(b.subrange(0, k as int)),
        decreases variables@.len() - k,
    {
        let v = &variables[k];
        let value = match &outcomes[k].result {
            Ok(val) => val.string_value.clone(),
            Err(_) => {
                let mut p = String::new();
                p.push('[');
                p.append(v.name.as_str());
                p.push(']');
                p
            },
        };
        assert(value@ == outcome_value(variables@[k as int], outcomes@[k as int]));
        assert(b[k as int] == (v.name@, value@));
        assert(b.subrange(0, k + 1) =~= b.subrange(0, k as int).push((v.name@, value@)));
        proof {
            lemma_bindings_push(b.subrange(0, k as int), (v.name@, value@), Map::empty());
        }
        out.insert(v.name.clone(), value);
        k = k + 1;
    }
    assert(b.subrange(0, b.len() as int) =~= b);
    out
}

/// `n` is a non-blank name that some segment before position `(k, i)`
/// reports missing.
pub open spec fn seen_missing(segs: Seq<TraceSegment>, k: int, i: int, n: Seq<char>) -> bool {
    exists|a: int, b: int|
        0 <= a < segs.len() && 0 <= b < segs[a].missing_variables@.len() && (a < k || (a == k && b
            < i)) && #[trigger] segs[a].missing_variables@[b]@ == n
}

/// The non-blank names reported missing by any segment.
pub open spec fn missing_name_set(segs: Seq<TraceSegment>) -> Set<Seq<char>> {
    Set::new(|n: Seq<char>| trim(n).len() > 0 && seen_missing(segs, segs.len() as int, 0, n))
}

proof fn lemma_sorted_no_duplicates(s: Seq<Seq<char>>)
    requires
        strictly_sorted(s),
    ensures
        s.no_duplicates(),
{
    assert forall|i: int, j: int| 0 <= i < s.len() && 0 <= j < s.len() && i != j implies s[i]
        != s[j] by {
        if s[i] == s[j] {
            lemma_lex_irreflexive(s[i]);
        }
    }
}

/// The number of distinct non-blank names that the segments report missing.
pub fn missing_variables_count(trace: &TraceRun) -> (r: u64)
    ensures
        r == missing_name_set(trace.segments@).len(),
{
    let ghost segs = trace.segments@;
    let mut names: Vec<String> = Vec::new();
    let mut k: usize = 0;
    assert(views(names@).to_set() =~= Set::empty());
    while k < trace.segments.len()
        invariant
            segs == trace.segments@,
            k <= segs.len(),
            strictly_sorted(views(names@)),
            forall|n: Seq<char>|
                #[trigger] views(names@).to_set().contains(n) <==> (trim(n).len() > 0 && seen_missing(
                    segs,
                    k as int,
                    0,
                    n,
                )),
        decreases segs.len() - k,
    {
        let seg = &trace.segments[k];
        let mut i: usize = 0;
        assert forall|n: Seq<char>|
            #[trigger] views(names@).to_set().contains(n) <==> (trim(n).len() > 0 && seen_missing(
                segs,
                k as int,
                i as int,
                n,
            )) by {
            assert(seen_missing(segs, k as int, i as int, n) == seen_missing(segs, k as int, 0, n));
        }
        while i < seg.missing_variables.len()
            invariant
                segs == trace.segments@,
                k < segs.len(),
                *seg == segs[k as int],
                i <= seg.missing_variables@.len(),
                strictly_sorted(views(names@)),
                forall|n: Seq<char>|
                    #[trigger] views(names@).to_set().contains(n) <==> (trim(n).len() > 0 && seen_missing(
                        segs,
                        k as int,
                        i as int,
                        n,
                    )),
            decreases seg.missing_variables@.len() - i,
        {
            let name = &seg.missing_variables[i];
            let blank = trimmed(name.as_str()).as_str().is_empty();
            let ghost before = views(names@).to_set();
            if !blank {
                insert_sorted(&mut names, name.clone());
            }
            assert forall|n: Seq<char>|
                #[trigger] views(names@).to_set().contains(n) <==> (trim(n).len() > 0 && seen_missing(
                    segs,
                    k as int,
                    i + 1,
                    n,
                )) by {
                if seen_missing(segs, k as int, i + 1, n) && !seen_missing(segs, k as int, i as int, n) {
                    let (a, b) = choose|a: int, b: int|
                        0 <= a < segs.len() && 0 <= b < segs[a].missing_variables@.len() && (a < k
                            || (a == k && b < i + 1)) && #[trigger] segs[a].missing_variables@[b]@
                            == n;
                    assert(a == k && b == i);
                }
                if seen_missing(segs, k as int, i as int, n) {
                    let (a, b) = choose|a: int, b: int|
                        0 <= a < segs.len() && 0 <= b < segs[a].missing_variables@.len() && (a < k
                            || (a == k && b < i)) && #[trigger] segs[a].missing_variables@[b]@ == n;
                    assert(seen_missing(segs, k as int, i + 1, n));
                }
                if n == name@ {
                    assert(segs[k as int].missing_variables@[i as int]@ == n);
                }
            }
            i = i + 1;
        }
        assert forall|n: Seq<char>|
            seen_missing(segs, k as int, seg.missing_variables@.len() as int, n) <==> seen_missing(
                segs,
                k + 1,
                0,
                n,
            ) by {
            assert(views(names@).to_set().contains(n) <==> (trim(n).len() > 0 && seen_missing(
                segs,
                k as int,
                seg.missing_variables@.len() as int,
                n,
            )));
            if seen_missing(segs, k + 1, 0, n) {
                let (a, b) = choose|a: int, b: int|
                    0 <= a < segs.len() && 0 <= b < segs[a].missing_variables@.len() && (a < k + 1
                        || (a == k + 1 && b < 0)) && #[trigger] segs[a].missing_variables@[b]@ == n;
                assert(seen_missing(segs, k as int, seg.missing_variables@.len() as int, n));
            }
            if seen_missing(segs, k as int, seg.missing_variables@.len() as int, n) {
                let (a, b) = choose|a: int, b: int|
                    0 <= a < segs.len() && 0 <= b < segs[a].missing_variables@.len() && (a < k || (a
                        == k && b < seg.missing_variables@.len())) && #[trigger] segs[a].missing_variables@[b]@
                        == n;
                assert(seen_missing(segs, k + 1, 0, n));
            }
        }
        k = k + 1;
    }
    proof {
        assert forall|n: Seq<char>| views(names@).to_set().contains(n) <==> missing_name_set(segs).contains(n) by {
            assert(seen_missing(segs, k as int, 0, n) == seen_missing(segs, segs.len() as int, 0, n));
        }
        lemma_sorted_no_duplicates(views(names@));
        views(names@).unique_seq_to_set();
        assert(views(names@).to_set() =~= missing_name_set(segs));
    }
    names.len() as u64
}

/// Whether a run completed or its row was malformed.
#[derive(Clone, Copy, Debug, PartialEq, Eq, Structural)]
pub enum RunStatus {
    Succeeded,
    Failed,
}

impl RunStatus {
    /// The status as stored: `succeeded` or `failed`.
    pub fn as_text(&self) -> (r: String)
        ensures
            r@ == (match *self {
                RunStatus::Succeeded => "succeeded"@,
                RunStatus::Failed => "failed"@,
            }),
    {
        match self {
            RunStatus::Succeeded => "succeeded".to_owned(),
            RunStatus::Failed => "failed".to_owned(),
        }
    }
}

/// The immutable record of one run against one dataset row.
#[derive(Debug)]
pub struct RunRecord {
    pub run_id: String,
    pub created_at: String,
    pub project_id: String,
    pub dataset_id: String,
    pub row_index: u64,
    pub status: RunStatus,
    pub output_digest: String,
    pub missing_variables_count: u64,
    pub trace: TraceRun,
}

/// What a replay reports for each run.
#[derive(Debug)]
pub struct RunSummary {
    pub run_id: String,
    pub created_at: String,
    pub row_index: u64,
    pub status: RunStatus,
    pub output_digest: String,
    pub missing_variables_count: u64,
}

impl RunRecord {
    /// The summary of the record.
    pub fn summary(&self) -> (r: RunSummary)
        ensures
            r.run_id@ == self.run_id@,
            r.created_at@ == self.created_at@,
            r.row_index == self.row_index,
            r.status == self.status,
            r.output_digest@ == self.output_digest@,
            r.missing_variables_count == self.missing_variables_count,
    {
        RunSummary {
            run_id: self.run_id.clone(),
            created_at: self.created_at.clone(),
            row_index: self.row_index,
            status: self.status,
            output_digest: self.output_digest.clone(),
            missing_variables_count: self.missing_variables_count,
        }
    }
}

/// The id of the run of row `row_index` made at `time_ms`.
pub open spec fn run_id_text(time_ms: u64, row_index: u64) -> Seq<char> {
    "run_"@ + decimal(time_ms as nat) + "_"@ + decimal(row_index as nat)
}

/// The id of the run of row `row_index` made at `time_ms`.
pub fn run_id_for(time_ms: u64, row_index: u64) -> (r: String)
    ensures
        r@ == run_id_text(time_ms, row_index),
{
    let mut r = "run_".to_owned();
    r.append(u64_to_text(time_ms).as_str());
    r.append("_");
    r.append(u64_to_text(row_index).as_str());
    r
}

/// The fields every run record of a row carries.
pub open spec fn record_ids(
    rec: RunRecord,
    project_id: Seq<char>,
    dataset_id: Seq<char>,
    row_index: u64,
    time_ms: u64,
) -> bool {
    &&& rec.run_id@ == run_id_text(time_ms, row_index)
    &&& rec.created_at@ == decimal(time_ms as nat)
    &&& rec.project_id@ == project_id
    &&& rec.dataset_id@ == dataset_id
    &&& rec.row_index == row_index
    &&& rec.trace.run_id@ == rec.run_id@
    &&& rec.trace.created_at@ == rec.created_at@
    &&& rec.trace.output_style == OutputStyle::Labeled
}

/// The run of a malformed row: its segments rendered with no variables, an
/// empty text, and the digest of the empty text.
pub open spec fn failed_as(nodes: Seq<EngineNode>, rec: RunRecord) -> bool {
    &&& rec.status == RunStatus::Failed
    &&& rec.trace.text@ == Seq::<char>::empty()
    &&& rec.output_digest@ == output_digest(Seq::<char>::empty())
    &&& rec.trace.segments@.len() == nodes.len()
    &&& forall|k: int|
        0 <= k < nodes.len() ==> #[trigger] segment_of(
            rec.trace.segments@[k],
            nodes[k],
            Map::empty(),
            OutputStyle::Labeled,
        )
    &&& rec.trace.messages@.len() == 0
    &&& rec.missing_variables_count == missing_name_set(rec.trace.segments@).len()
}

/// The run of a row whose variables were `merged`: the labeled render of
/// `nodes`, the digest of its text, and its missing-variable count.
pub open spec fn replayed_as(nodes: Seq<EngineNode>, merged: Map<Seq<char>, Seq<char>>, rec: RunRecord) -> bool {
    &&& rec.status == RunStatus::Succeeded
    &&& renders_as(nodes, merged, OutputStyle::Labeled, rec.trace)
    &&& rec.output_digest@ == output_digest(rec.trace.text@)
    &&& rec.missing_variables_count == missing_name_set(rec.trace.segments@).len()
}

/// Records the run of a malformed row `row_index` of a replay at `time_ms`.
pub fn failed_run(
    nodes: &Vec<EngineNode>,
    project_id: &str,
    dataset_id: &str,
    row_index: u64,
    time_ms: u64,
) -> (r: RunRecord)
    ensures
        record_ids(r, project_id@, dataset_id@, row_index, time_ms),
        failed_as(nodes@, r),
{
    let run_id = run_id_for(time_ms, row_index);
    let created_at = u64_to_text(time_ms);
    let empty = VarMap::new();
    let mut trace = render_with_trace(
        nodes,
        &empty,
        OutputStyle::Labeled,
        run_id.as_str(),
        created_at.as_str(),
    );
    trace.text = String::new();
    let missing = missing_variables_count(&trace);
    let digest = digest_text(trace.text.as_str());
    RunRecord {
        run_id,
        created_at,
        project_id: project_id.to_owned(),
        dataset_id: dataset_id.to_owned(),
        row_index,
        status: RunStatus::Failed,
        output_digest: digest,
        missing_variables_count: missing,
        trace,
    }
}

/// Records the run of row `row_index` of a replay at `time_ms`: the
/// project's variables resolved to `outcomes` (`outcomes[k]` belongs to
/// `variables[k]`), the row's `overrides` applied over them, the ordered
/// `nodes` rendered in labeled style, and the resolution messages appended
/// to the trace in order.
pub fn succeeded_run(
    nodes: &Vec<EngineNode>,
    variables: &Vec<VariableSpec>,
    outcomes: Vec<ResolveWithTrace>,
    overrides: &VarMap,
    project_id: &str,
    dataset_id: &str,
    row_index: u64,
    time_ms: u64,
) -> (r: RunRecord)
    requires
        variables@.len() == outcomes@.len(),
    ensures
        record_ids(r, project_id@, dataset_id@, row_index, time_ms),
        replayed_as(nodes@, merged_vars(variables@, outcomes@, overrides@), r),
        r.trace.messages@ == outcomes@.map_values(|o: ResolveWithTrace| o.trace_message),
{
    let mut merged = resolved_variables(variables, &outcomes);
    merged.extend_from(overrides);
    let run_id = run_id_for(time_ms, row_index);
    let created_at = u64_to_text(time_ms);
    let mut trace = render_with_trace(
        nodes,
        &merged,
        OutputStyle::Labeled,
        run_id.as_str(),
        created_at.as_str(),
    );
    let ghost all = outcomes@;
    let mut rest = outcomes;
    let mut messages: Vec<TraceMessage> = Vec::new();
    while rest.len() > 0
        invariant
            messages@.len() + rest@.len() == all.len(),
            rest@ == all.subrange(messages@.len() as int, all.len() as int),
            messages@ == all.map_values(|o: ResolveWithTrace| o.trace_message).subrange(
                0,
                messages@.len() as int,
            ),
        decreases rest@.len(),
    {
        let o = rest.remove(0);
        messages.push(o.trace_message);
        assert(rest@ =~= all.subrange(messages@.len() as int, all.len() as int));
        assert(messages@ =~= all.map_values(|o: ResolveWithTrace| o.trace_message).subrange(
            0,
            messages@.len() as int,
        ));
    }
    assert(messages@ =~= all.map_values(|o: ResolveWithTrace| o.trace_message));
    trace.messages = messages;
    let digest = digest_text(trace.text.as_str());
    let missing = missing_variables_count(&trace);
    RunRecord {
        run_id,
        created_at,
        project_id: project_id.to_owned(),
        dataset_id: dataset_id.to_owned(),
        row_index,
        status: RunStatus::Succeeded,
        output_digest: digest,
        missing_variables_count: missing,
        trace,
    }
}

/// The rows `[start, end)` a replay visits: `limit` defaults to 20 and is
/// capped at 200, `offset` defaults to 0, and both ends stay within the
/// dataset.
pub fn replay_window(limit: Option<u32>, offset: Option<u32>, row_count: usize) -> (r: (usize, usize))
    ensures
        ({
            let lim: int = match limit {
                Some(l) => if l < 200 {
                    l as int
                } else {
                    200
                },
                None => 20,
            };
            let off: int = match offset {
                Some(o) => o as int,
                None => 0,
            };
            let start = if off < row_count {
                off
            } else {
                row_count as int
            };
            &&& r.0 == start
            &&& r.1 == if start + lim < row_count {
                start + lim
            } else {
                row_count as int
            }
        }),
{
    let lim: usize = match limit {
        Some(l) => if l < 200 {
            l as usize
        } else {
            200
        },
        None => 20,
    };
    let off: usize = match offset {
        Some(o) => o as usize,
        None => 0,
    };
    let start = if off < row_count {
        off
    } else {
        row_count
    };
    let end = if lim < row_count - start {
        start + lim
    } else {
        row_count
    };
    (start, end)
}

/// Row overrides win: a name that the row overrides is rendered with the
/// row's value, whatever its resolver produced.
pub proof fn lemma_overrides_win(
    vs: Seq<VariableSpec>,
    os: Seq<ResolveWithTrace>,
    overrides: Map<Seq<char>, Seq<char>>,
    name: Seq<char>,
)
    requires
        overrides.contains_key(name),
    ensures
        merged_vars(vs, os, overrides).contains_key(name),
        merged_vars(vs, os, overrides)[name] == overrides[name],
{
}

/// Replaying a row twice against the same project state gives the same
/// text, digest and missing-variable count, whatever the clock reads.
pub proof fn lemma_replay_idempotent(
    nodes: Seq<EngineNode>,
    merged: Map<Seq<char>, Seq<char>>,
    first: RunRecord,
    second: RunRecord,
)
    requires
        replayed_as(nodes, merged, first),
        replayed_as(nodes, merged, second),
    ensures
        first.trace.text@ == second.trace.text@,
        first.output_digest@ == second.output_digest@,
        first.missing_variables_count == second.missing_variables_count,
{
    lemma_render_idempotent(nodes, merged, OutputStyle::Labeled, first.trace, second.trace);
    let a = first.trace.segments@;
    let b = second.trace.segments@;
    assert forall|n: Seq<char>| missing_name_set(a).contains(n) <==> missing_name_set(b).contains(n) by {
        if seen_missing(a, a.len() as int, 0, n) {
            let (k, i) = choose|k: int, i: int|
                0 <= k < a.len() && 0 <= i < a[k].missing_variables@.len() && (k < a.len() || (k
                    == a.len() && i < 0)) && #[trigger] a[k].missing_variables@[i]@ == n;
            assert(first.trace.segments@[k] == a[k]);
            assert(views(a[k].missing_variables@) == views(b[k].missing_variables@));
            assert(views(a[k].missing_variables@)[i] == a[k].missing_variables@[i]@);
            assert(views(b[k].missing_variables@)[i] == b[k].missing_variables@[i]@);
            assert(b[k].missing_variables@[i]@ == n);
        }
        if seen_missing(b, b.len() as int, 0, n) {
            let (k, i) = choose|k: int, i: int|
                0 <= k < b.len() && 0 <= i < b[k].missing_variables@.len() && (k < b.len() || (k
                    == b.len() && i < 0)) && #[trigger] b[k].missing_variables@[i]@ == n;
            assert(first.trace.segments@[k] == a[k]);
            assert(views(a[k].missing_variables@) == views(b[k].missing_variables@));
            assert(views(a[k].missing_variables@)[i] == a[k].missing_variables@[i]@);
            assert(views(b[k].missing_variables@)[i] == b[k].missing_variables@[i]@);
            assert(a[k].missing_variables@[i]@ == n);
        }
    }
    assert(missing_name_set(a) =~= missing_name_set(b));
}

/// A stored run belongs to the listing of `dataset_id`, at `row_index`
/// when one is asked for.
pub open spec fn listed(p: (String, RunSummary), dataset_id: Seq<char>, row_index: Option<u64>) -> bool {
    p.0@ == dataset_id && (row_index matches Some(i) ==> p.1.row_index == i)
}

/// Runs in order of `created_at`, newest first.
pub open spec fn newest_first(s: Seq<RunSummary>) -> bool {
    forall|i: int, j: int| 0 <= i < j < s.len() ==> lex_le(s[j].created_at@, s[i].created_at@)
}

/// Lists stored runs, each given with the id of its dataset: those of
/// `dataset_id` (at `row_index` when given), newest `created_at` first, at
/// most `limit` of them.
pub fn select_runs(
    runs: Vec<(String, RunSummary)>,
    dataset_id: &str,
    row_index: Option<u64>,
    limit: Option<u32>,
) -> (r: Vec<RunSummary>)
    ensures
        ({
            let kept = runs@.filter(|p: (String, RunSummary)| listed(p, dataset_id@, row_index)).map_values(
                |p: (String, RunSummary)| p.1,
            );
            &&& r@.len() == match limit {
                Some(l) => if (l as int) < kept.len() {
                    l as int
                } else {
                    kept.len() as int
                },
                None => kept.len() as int,
            }
            &&& r@.to_multiset().subset_of(kept.to_multiset())
            &&& newest_first(r@)
            &&& exists|full: Seq<RunSummary>|
                #[trigger] full.to_multiset() == kept.to_multiset() && newest_first(full) && r@
                    == full.subrange(0, r@.len() as int)
        }),
{
    let total = runs.len();
    let ghost all = runs@;
    assert(all.len() == total);
    let ghost pred = |p: (String, RunSummary)| listed(p, dataset_id@, row_index);
    let mut rest = runs;
    let mut sorted: Vec<RunSummary> = Vec::new();
    let mut taken: usize = 0;
    let key = dataset_id.to_owned();
    assert(all.subrange(0, 0).filter(pred) =~= seq![]);
    assert(all.subrange(0, 0).filter(pred).map_values(|p: (String, RunSummary)| p.1) =~= seq![]);
    assert(sorted@ =~= seq![]);
    while rest.len() > 0
        invariant
            all.len() <= usize::MAX,
            taken + rest@.len() == all.len(),
            rest@ == all.subrange(taken as int, all.len() as int),
            key@ == dataset_id@,
            pred == (|p: (String, RunSummary)| listed(p, dataset_id@, row_index)),
            sorted@.to_multiset() == all.subrange(0, taken as int).filter(pred).map_values(
                |p: (String, RunSummary)| p.1,
            ).to_multiset(),
            forall|i: int, j: int|
                0 <= i < j < sorted@.len() ==> lex_le(sorted@[j].created_at@, sorted@[i].created_at@),
        decreases rest@.len(),
    {
        let (ds, summary) = rest.remove(0);
        let ghost item = all[taken as int];
        assert(item == (ds, summary));
        let ghost prev = all.subrange(0, taken as int);
        assert(all.subrange(0, taken + 1) =~= prev.push(item));
        proof {
            prev.lemma_filter_push(item, pred);
        }
        let wanted = ds == key && match row_index {
            Some(i) => summary.row_index == i,
            None => true,
        };
        if wanted {
            let mut p: usize = sorted.len();
            while p > 0 && text_lt(sorted[p - 1].created_at.as_str(), summary.created_at.as_str())
                invariant
                    p <= sorted@.len(),
                    forall|q: int| p <= q < sorted@.len() ==> lex_lt(#[trigger] sorted@[q].created_at@, summary.created_at@),
                decreases p,
            {
                p = p - 1;
            }
            let ghost old_s = sorted@;
            let ghost x = summary;
            proof {
                if p > 0 {
                    if old_s[p - 1].created_at@ != x.created_at@ {
                        lemma_lex_total(old_s[p - 1].created_at@, x.created_at@);
                    }
                }
            }
            sorted.insert(p, summary);
            assert(sorted@.remove(p as int) =~= old_s);
            assert(sorted@.to_multiset() == old_s.to_multiset().insert(x)) by {
                assert(sorted@.remove(p as int).to_multiset() == sorted@.to_multiset().remove(x));
                assert(sorted@.to_multiset().count(x) > 0);
                assert(sorted@.to_multiset() =~= sorted@.to_multiset().remove(x).insert(x));
            }
            assert(prev.push(item).filter(pred).map_values(|p: (String, RunSummary)| p.1) =~= prev.filter(pred).map_values(|p: (String, RunSummary)| p.1).push(x));
            assert forall|i: int, j: int| 0 <= i < j < sorted@.len() implies lex_le(
                sorted@[j].created_at@,
                sorted@[i].created_at@,
            ) by {
                if j < p {
                    assert(sorted@[i] == old_s[i] && sorted@[j] == old_s[j]);
                } else if j == p {
                    assert(sorted@[i] == old_s[i]);
                    if i < p - 1 {
                        assert(lex_le(old_s[p - 1].created_at@, old_s[i].created_at@));
                        if old_s[i].created_at@ != old_s[p - 1].created_at@ && old_s[p - 1].created_at@ != x.created_at@ {
                            lemma_lex_transitive(x.created_at@, old_s[p - 1].created_at@, old_s[i].created_at@);
                        }
                    }
                } else if i < p {
                    assert(sorted@[i] == old_s[i] && sorted@[j] == old_s[j - 1]);
                    assert(lex_le(old_s[j - 1].created_at@, old_s[i].created_at@));
                } else if i == p {
                    assert(sorted@[j] == old_s[j - 1]);
                    assert(lex_lt(old_s[j - 1].created_at@, x.created_at@));
                } else {
                    assert(sorted@[i] == old_s[i - 1] && sorted@[j] == old_s[j - 1]);
                }
            }
        } else {
            assert(prev.push(item).filter(pred) =~= prev.filter(pred));
        }
        taken = taken + 1;
        assert(rest@ =~= all.subrange(taken as int, all.len() as int));
    }
    assert(all.subrange(0, all.len() as int) =~= all);
    let ghost kept = all.filter(pred).map_values(|p: (String, RunSummary)| p.1);
    assert(sorted@.len() == kept.len()) by {
        assert(all.subrange(0, taken as int) =~= all);
        assert(sorted@.to_multiset().len() == kept.to_multiset().len());
    }
    let cap: usize = match limit {
        Some(l) => l as usize,
        None => sorted.len(),
    };
    let ghost full = sorted@;
    if cap < sorted.len() {
        sorted.truncate(cap);
        assert(sorted@ =~= full.subrange(0, cap as int));
        proof {
            lemma_prefix_submultiset(full, cap as int);
        }
    } else {
        assert(sorted@ =~= full.subrange(0, sorted@.len() as int));
    }
    assert(full.to_multiset() == kept.to_multiset() && newest_first(full) && sorted@ == full.subrange(
        0,
        sorted@.len() as int,
    ));
    sorted
}

proof fn lemma_prefix_submultiset<A>(s: Seq<A>, k: int)
    requires
        0 <= k <= s.len(),
    ensures
        s.subrange(0, k).to_multiset().subset_of(s.to_multiset()),
    decreases s.len() - k,
{
    broadcast use vstd::seq_lib::group_to_multiset_ensures;
    if k < s.len() {
        lemma_prefix_submultiset(s, k + 1);
        assert(s.subrange(0, k + 1) =~= s.subrange(0, k).push(s[k]));
    } else {
        assert(s.subrange(0, k) =~= s);
    }
}

/// The error message of a resolver whose scheme part `part` is unsupported.
pub open spec fn unsupported_message(part: Seq<char>) -> Seq<char> {
    "不支持的 resolver scheme："@ + part
}

/// That message is classified `unsupported_scheme`, unless the scheme part
/// itself spells an earlier class (`decrypt failed`, `missing DATA_KEY`).
pub proof fn lemma_unsupported_message_code(part: Seq<char>)
    requires
        !has_infix(trim(unsupported_message(part)), "decrypt failed"@),
        !has_infix(trim(unsupported_message(part)), "missing DATA_KEY"@),
    ensures
        error_code_of(unsupported_message(part)) == "unsupported_scheme"@,
{
    let lit = "不支持的 resolver scheme："@;
    reveal_strlit("不支持的 resolver scheme：");
    reveal_strlit("不支持的 resolver scheme");
    reveal_strlit("resolver_missing");
    reveal_strlit("readonly_required");
    reveal_strlit("feature_not_enabled");
    reveal_strlit("unsupported_op");
    assert(lit.len() == 21);
    assert(!is_ws(lit[0]));
    assert(!is_ws(lit.last()));
    lemma_trim_concat(lit, part);
    let t = trim(unsupported_message(part));
    assert(t == lit + trim_end(part));
    assert(t.len() >= 21);
    assert(t.subrange(0, 20) =~= "不支持的 resolver scheme"@);
    assert(occurs_at(t, "不支持的 resolver scheme"@, 0));
}

/// A dynamic variable whose resolver names no supported scheme fails before
/// any backend is asked, is recorded as `unsupported_scheme`, and renders as
/// the placeholder `[name]`.
pub proof fn lemma_unsupported_scheme(v: VariableSpec, duration: u64, step: ResolveStep)
    requires
        planned_as(v, duration, step),
        v.kind@ == "dynamic"@,
        trim(opt_text(v.resolver)).len() > 0,
        scheme_of(scheme_part(trim(opt_text(v.resolver)))) is None,
        !has_infix(
            trim(unsupported_message(scheme_part(trim(opt_text(v.resolver))))),
            "decrypt failed"@,
        ),
        !has_infix(
            trim(unsupported_message(scheme_part(trim(opt_text(v.resolver))))),
            "missing DATA_KEY"@,
        ),
    ensures
        step matches ResolveStep::Done(r) && {
            &&& r.result is Err
            &&& r.trace_message.details matches Some(d) && opt_is(
                d.error_code,
                "unsupported_scheme"@,
            )
            &&& bindings_map(resolved_bindings(seq![v], seq![r])).contains_key(v.name@)
            &&& bindings_map(resolved_bindings(seq![v], seq![r]))[v.name@] == seq!['['] + v.name@
                + seq![']']
        },
{
    let part = scheme_part(trim(opt_text(v.resolver)));
    lemma_unsupported_message_code(part);
    assert(unsupported_message(part) == "不支持的 resolver scheme："@ + part);
    if let ResolveStep::Done(r) = step {
        let b = resolved_bindings(seq![v], seq![r]);
        assert(b.len() == 1);
        assert(b.drop_last() =~= Seq::<(Seq<char>, Seq<char>)>::empty());
        assert(b.last() == (v.name@, outcome_value(v, r)));
    }
}

} // verus!
