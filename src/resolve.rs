//! The variable resolver registry: static values pass through, dynamic ones
//! are dispatched by the scheme of their resolver URI, and every attempt is
//! clamped to a byte budget and recorded as one trace message.
use vstd::prelude::*;
use vstd::string::StringExecFns;
use crate::model::{TraceDetails, TraceMessage, TraceSeverity};
use crate::text::{
    char_width_of, chars_of, contains_text, has_infix, string_of, starts_with_ascii_ci,
    ascii_lower_seq, lemma_trim_idempotent, text_eq, trim, trimmed, utf8_len,
};

verus! {

/// Largest number of bytes a resolved value may hold.
pub const MAX_VALUE_BYTES: usize = 20000;

/// `r` is the longest prefix of `s` that fits in `max` bytes of UTF-8.
pub open spec fn is_clamp_of(r: Seq<char>, s: Seq<char>, max: nat) -> bool {
    &&& r.len() <= s.len()
    &&& r == s.subrange(0, r.len() as int)
    &&& utf8_len(r) <= max
    &&& r.len() < s.len() ==> utf8_len(s.subrange(0, r.len() + 1 as int)) > max
}

proof fn lemma_utf8_len_prefix(s: Seq<char>, k: int)
    requires
        0 <= k <= s.len(),
    ensures
        utf8_len(s.subrange(0, k)) <= utf8_len(s),
    decreases s.len() - k,
{
    if k < s.len() {
        lemma_utf8_len_prefix(s, k + 1);
        assert(s.subrange(0, k + 1).drop_last() =~= s.subrange(0, k));
    } else {
        assert(s.subrange(0, k) =~= s);
    }
}

/// Cuts `s` to at most `max_bytes` bytes without splitting a character.
/// Returns the kept prefix and whether anything was cut.
pub fn clamp_string(s: &str, max_bytes: usize) -> (r: (String, bool))
    ensures
        is_clamp_of(r.0@, s@, max_bytes as nat),
        r.1 == (utf8_len(s@) > max_bytes),
{
    let (kept, truncated, _) = clamp_measured(s, max_bytes);
    (kept, truncated)
}

/// As `clamp_string`, with the byte length of the kept prefix.
fn clamp_measured(s: &str, max_bytes: usize) -> (r: (String, bool, usize))
    ensures
        is_clamp_of(r.0@, s@, max_bytes as nat),
        r.1 == (utf8_len(s@) > max_bytes),
        r.2 == utf8_len(r.0@),
{
    let v = chars_of(s);
    let mut k: usize = 0;
    let mut total: usize = 0;
    assert(v@.subrange(0, 0) =~= seq![]);
    while k < v.len()
        invariant
            v@ == s@,
            k <= v@.len(),
            total <= max_bytes,
            total == utf8_len(v@.subrange(0, k as int)),
        ensures
            v@ == s@,
            k <= v@.len(),
            total <= max_bytes,
            total == utf8_len(v@.subrange(0, k as int)),
            k < v@.len() ==> utf8_len(v@.subrange(0, k + 1)) > max_bytes,
        decreases v@.len() - k,
    {
        let w = char_width_of(v[k]);
        assert(v@.subrange(0, k + 1).drop_last() =~= v@.subrange(0, k as int));
        if w > max_bytes - total {
            break;
        }
        total = total + w;
        k = k + 1;
    }
    let truncated = k < v.len();
    proof {
        if truncated {
            lemma_utf8_len_prefix(v@, k + 1);
        } else {
            assert(v@.subrange(0, k as int) =~= v@);
        }
    }
    (string_of(&v, 0, k), truncated, total)
}

/// The machine-readable code of a resolution error message.
pub open spec fn error_code_of(err: Seq<char>) -> Seq<char> {
    let e = trim(err);
    if e == "resolver_missing"@ {
        "resolver_missing"@
    } else if e == "readonly_required"@ {
        "readonly_required"@
    } else if e == "feature_not_enabled"@ {
        "feature_not_enabled"@
    } else if e == "unsupported_op"@ {
        "unsupported_op"@
    } else if has_infix(e, "decrypt failed"@) || has_infix(e, "missing DATA_KEY"@) {
        "decrypt_failed"@
    } else if has_infix(e, "不支持的 resolver scheme"@) {
        "unsupported_scheme"@
    } else if has_infix(e, "relative URL without a base"@) || has_infix(
        e,
        "error with configuration"@,
    ) {
        "invalid_url"@
    } else if has_infix(e, "unable to open database file"@) {
        "sqlite_open_failed"@
    } else if has_infix(e, "connection refused"@) || has_infix(e, "Connection refused"@) {
        "connect_failed"@
    } else {
        "unknown"@
    }
}

/// Classifies a resolution error message into the fixed set of codes.
pub fn classify_error_code(err: &str) -> (r: String)
    ensures
        r@ == error_code_of(err@),
{
    let e = trimmed(err);
    let e = e.as_str();
    if text_eq(e, "resolver_missing") {
        "resolver_missing".to_owned()
    } else if text_eq(e, "readonly_required") {
        "readonly_required".to_owned()
    } else if text_eq(e, "feature_not_enabled") {
        "feature_not_enabled".to_owned()
    } else if text_eq(e, "unsupported_op") {
        "unsupported_op".to_owned()
    } else if contains_text(e, "decrypt failed") || contains_text(e, "missing DATA_KEY") {
        "decrypt_failed".to_owned()
    } else if contains_text(e, "不支持的 resolver scheme") {
        "unsupported_scheme".to_owned()
    } else if contains_text(e, "relative URL without a base") || contains_text(
        e,
        "error with configuration",
    ) {
        "invalid_url".to_owned()
    } else if contains_text(e, "unable to open database file") {
        "sqlite_open_failed".to_owned()
    } else if contains_text(e, "connection refused") || contains_text(e, "Connection refused") {
        "connect_failed".to_owned()
    } else {
        "unknown".to_owned()
    }
}

/// The backends a dynamic variable can be resolved from.
#[derive(Clone, Copy, Debug, PartialEq, Eq, Structural)]
pub enum Scheme {
    Chat,
    Sql,
    Sqlite,
    Neo4j,
    Milvus,
}

pub open spec fn scheme_of(name: Seq<char>) -> Option<Scheme> {
    if name == "chat"@ {
        Some(Scheme::Chat)
    } else if name == "sql"@ {
        Some(Scheme::Sql)
    } else if name == "sqlite"@ {
        Some(Scheme::Sqlite)
    } else if name == "neo4j"@ {
        Some(Scheme::Neo4j)
    } else if name == "milvus"@ {
        Some(Scheme::Milvus)
    } else {
        None
    }
}

pub open spec fn scheme_name(s: Scheme) -> Seq<char> {
    match s {
        Scheme::Chat => "chat"@,
        Scheme::Sql => "sql"@,
        Scheme::Sqlite => "sqlite"@,
        Scheme::Neo4j => "neo4j"@,
        Scheme::Milvus => "milvus"@,
    }
}

/// The scheme that a scheme name denotes, if any.
pub fn parse_scheme(name: &str) -> (r: Option<Scheme>)
    ensures
        r == scheme_of(name@),
{
    if text_eq(name, "chat") {
        Some(Scheme::Chat)
    } else if text_eq(name, "sql") {
        Some(Scheme::Sql)
    } else if text_eq(name, "sqlite") {
        Some(Scheme::Sqlite)
    } else if text_eq(name, "neo4j") {
        Some(Scheme::Neo4j)
    } else if text_eq(name, "milvus") {
        Some(Scheme::Milvus)
    } else {
        None
    }
}

impl Scheme {
    /// The scheme's name as it stands in a resolver URI.
    pub fn name(&self) -> (r: String)
        ensures
            r@ == scheme_name(*self),
    {
        match self {
            Scheme::Chat => "chat".to_owned(),
            Scheme::Sql => "sql".to_owned(),
            Scheme::Sqlite => "sqlite".to_owned(),
            Scheme::Neo4j => "neo4j".to_owned(),
            Scheme::Milvus => "milvus".to_owned(),
        }
    }

    /// The URI prefix `name://` of the scheme.
    pub fn prefix(&self) -> (r: String)
        ensures
            r@ == scheme_name(*self) + seq![':', '/', '/'],
    {
        let mut r = self.name();
        r.push(':');
        r.push('/');
        r.push('/');
        r
    }
}

/// `://` starts at `i`.
pub open spec fn is_separator(s: Seq<char>, i: int) -> bool {
    0 <= i && i + 3 <= s.len() && s[i] == ':' && s[i + 1] == '/' && s[i + 2] == '/'
}

/// The position of the first `://` at or after `i`, or the length when none.
pub open spec fn separator_from(s: Seq<char>, i: int) -> int
    decreases s.len() - i,
{
    if i < 0 || i + 3 > s.len() {
        s.len() as int
    } else if is_separator(s, i) {
        i
    } else {
        separator_from(s, i + 1)
    }
}

/// The scheme part of a resolver URI: what precedes the first `://`, trimmed.
pub open spec fn scheme_part(resolver: Seq<char>) -> Seq<char> {
    trim(resolver.subrange(0, separator_from(resolver, 0)))
}


/// The scheme part of a resolver URI.
pub fn scheme_part_of(resolver: &str) -> (r: String)
    ensures
        r@ == scheme_part(resolver@),
{
    let v = chars_of(resolver);
    let n = v.len();
    let mut i: usize = 0;
    while n - i >= 3 && !(v[i] == ':' && v[i + 1] == '/' && v[i + 2] == '/')
        invariant
            v@ == resolver@,
            n == v@.len(),
            i <= n,
            separator_from(v@, 0) == separator_from(v@, i as int),
        decreases n - i,
    {
        i = i + 1;
    }
    let end = if n - i >= 3 {
        i
    } else {
        n
    };
    assert(separator_from(v@, 0) == end);
    let part = string_of(&v, 0, end);
    trimmed(part.as_str())
}

/// `s` with every leading repetition of `p` removed.
pub open spec fn strip_all(s: Seq<char>, p: Seq<char>) -> Seq<char>
    decreases s.len(),
{
    if p.len() > 0 && p.len() <= s.len() && s.subrange(0, p.len() as int) == p {
        strip_all(s.subrange(p.len() as int, s.len() as int), p)
    } else {
        s
    }
}

/// `s` with every leading repetition of `p` removed.
pub fn strip_prefixes(s: &str, p: &str) -> (r: String)
    ensures
        r@ == strip_all(s@, p@),
{
    let v = chars_of(s);
    let w = chars_of(p);
    let mut i: usize = 0;
    assert(v@.subrange(0, v@.len() as int) =~= v@);
    if w.len() == 0 {
        return string_of(&v, 0, v.len());
    }
    loop
        invariant
            v@ == s@,
            w@ == p@,
            w@.len() > 0,
            i <= v@.len(),
            strip_all(s@, p@) == strip_all(v@.subrange(i as int, v@.len() as int), p@),
        decreases v@.len() - i,
    {
        if w.len() > v.len() - i {
            return string_of(&v, i, v.len());
        }
        let mut k: usize = 0;
        while k < w.len() && v[i + k] == w[k]
            invariant
                v@ == s@,
                w@ == p@,
                i + w@.len() <= v@.len(),
                v@.len() <= usize::MAX,
                k <= w@.len(),
                forall|q: int| 0 <= q < k ==> v@[i + q] == w@[q],
            decreases w@.len() - k,
        {
            k = k + 1;
        }
        let ghost rest = v@.subrange(i as int, v@.len() as int);
        if k < w.len() {
            assert(rest.subrange(0, w@.len() as int)[k as int] != w@[k as int]);
            return string_of(&v, i, v.len());
        }
        assert(rest.subrange(0, w@.len() as int) =~= w@);
        assert(rest.subrange(w@.len() as int, rest.len() as int) =~= v@.subrange(
            i + w@.len(),
            v@.len() as int,
        ));
        i = i + w.len();
    }
}

/// A query that only reads: it starts with `select` or `with`, in any case,
/// once trimmed.
pub open spec fn is_read_only(query: Seq<char>) -> bool {
    let q = trim(query);
    ||| (6 <= q.len() && ascii_lower_seq(q.subrange(0, 6)) == "select"@)
    ||| (4 <= q.len() && ascii_lower_seq(q.subrange(0, 4)) == "with"@)
}

/// Whether `query` only reads.
pub fn is_read_only_query(query: &str) -> (r: bool)
    ensures
        r == is_read_only(query@),
{
    let q = trimmed(query);
    proof {
        reveal_strlit("select");
        reveal_strlit("with");
    }
    starts_with_ascii_ci(q.as_str(), "select") || starts_with_ascii_ci(q.as_str(), "with")
}

/// The value of a run of decimal digits.
pub open spec fn digits_value(s: Seq<char>) -> nat
    decreases s.len(),
{
    if s.len() == 0 {
        0
    } else {
        digits_value(s.drop_last()) * 10 + ((s.last() as u32) - 48) as nat
    }
}

pub open spec fn is_digit(c: char) -> bool {
    '0' <= c && c <= '9'
}

/// `s` without a leading `+`.
pub open spec fn unsigned_digits(s: Seq<char>) -> Seq<char> {
    if s.len() > 0 && s[0] == '+' {
        s.drop_first()
    } else {
        s
    }
}

/// What `usize::from_str` accepts: an optional `+`, then one or more decimal
/// digits whose value fits in `usize`.
pub open spec fn parsed_usize(s: Seq<char>) -> Option<usize> {
    let d = unsigned_digits(s);
    if d.len() > 0 && (forall|i: int| 0 <= i < d.len() ==> is_digit(#[trigger] d[i]))
        && digits_value(d) <= usize::MAX {
        Some(digits_value(d) as usize)
    } else {
        None
    }
}

proof fn lemma_digits_value_grows(d: Seq<char>, k: int)
    requires
        0 <= k <= d.len(),
    ensures
        digits_value(d.subrange(0, k)) <= digits_value(d),
    decreases d.len() - k,
{
    if k < d.len() {
        lemma_digits_value_grows(d, k + 1);
        assert(d.subrange(0, k + 1).drop_last() =~= d.subrange(0, k));
    } else {
        assert(d.subrange(0, k) =~= d);
    }
}

/// Parses a `usize` as `usize::from_str` does.
pub fn parse_usize(s: &str) -> (r: Option<usize>)
    ensures
        r == parsed_usize(s@),
{
    let v = chars_of(s);
    let start: usize = if v.len() > 0 && v[0] == '+' {
        1
    } else {
        0
    };
    let ghost d = v@.subrange(start as int, v@.len() as int);
    assert(d =~= if s@.len() > 0 && s@[0] == '+' {
        s@.drop_first()
    } else {
        s@
    });
    if start == v.len() {
        return None;
    }
    let mut acc: usize = 0;
    let mut k: usize = start;
    assert(d.subrange(0, 0) =~= seq![]);
    while k < v.len()
        invariant
            v@ == s@,
            start <= k <= v@.len(),
            d == v@.subrange(start as int, v@.len() as int),
            d == unsigned_digits(s@),
            forall|i: int| 0 <= i < k - start ==> is_digit(#[trigger] d[i]),
            acc == digits_value(d.subrange(0, k - start)),
        decreases v@.len() - k,
    {
        let c = v[k];
        assert(d[k - start] == c);
        if !('0' <= c && c <= '9') {
            assert(!is_digit(unsigned_digits(s@)[k - start]));
            return None;
        }
        let digit = (c as u32 - 48) as usize;
        assert(d.subrange(0, k - start + 1).drop_last() =~= d.subrange(0, k - start));
        if acc > (usize::MAX - digit) / 10 {
            proof {
                assert(acc * 10 + digit > usize::MAX) by (nonlinear_arith)
                    requires
                        acc > (usize::MAX - digit) / 10,
                        digit <= 9,
                ;
                lemma_digits_value_grows(d, k - start + 1);
            }
            return None;
        }
        assert(acc * 10 + digit <= usize::MAX) by (nonlinear_arith)
            requires
                acc <= (usize::MAX - digit) / 10,
                digit <= 9,
        ;
        acc = acc * 10 + digit;
        k = k + 1;
    }
    assert(d.subrange(0, d.len() as int) =~= d);
    Some(acc)
}

/// A variable as a project declares it.
#[derive(Debug)]
pub struct VariableSpec {
    pub id: String,
    pub name: String,
    /// `dynamic` for a resolver-backed variable; anything else is static.
    pub kind: String,
    pub value: String,
    pub resolver: Option<String>,
}

/// What a resolver produced.
#[derive(Debug)]
pub struct ResolvedValue {
    pub string_value: String,
    /// Backend-specific key/value facts about the resolution.
    pub debug: Vec<(String, String)>,
}

/// The outcome of one resolution and the trace message that records it.
#[derive(Debug)]
pub struct ResolveWithTrace {
    pub result: Result<ResolvedValue, String>,
    pub trace_message: TraceMessage,
}

/// What a backend must be asked for a dynamic variable.
#[derive(Debug)]
pub enum BackendRequest {
    /// Render the last `max_messages` messages of a chat session.
    Chat { session_id: String, requested: usize, max_messages: usize },
    /// Run a read-only query against a stored, encrypted datasource.
    Sql { datasource_id: String, query: String },
    /// Run a read-only query against a literal sqlite URI.
    Sqlite { url: String, query: String },
    /// Run Cypher, plain or as a JSON `{cypher, params}` object.
    Neo4j { datasource_id: String, cypher: String },
    /// Run a vector-store operation named plainly or as a JSON `{op, ...}`.
    Milvus { datasource_id: String, op: String },
}

/// The first step of a resolution: either it is already decided, or a
/// backend must be called and its answer handed to `finish_resolution`.
#[derive(Debug)]
pub enum ResolveStep {
    Done(ResolveWithTrace),
    Call { scheme: Scheme, resolver: String, request: BackendRequest },
}

pub open spec fn opt_text(o: Option<String>) -> Seq<char> {
    match o {
        Some(s) => s@,
        None => seq![],
    }
}

pub open spec fn opt_is(o: Option<String>, s: Seq<char>) -> bool {
    o matches Some(x) && x@ == s
}

pub open spec fn pairs_view(v: Seq<(String, String)>) -> Seq<(Seq<char>, Seq<char>)> {
    v.map_values(|p: (String, String)| (p.0@, p.1@))
}

/// The facts every resolution records about its variable.
pub open spec fn details_name(d: TraceDetails, v: VariableSpec, duration: u64) -> bool {
    &&& d.variable_id@ == v.id@
    &&& d.variable_name@ == v.name@
    &&& d.variable_type@ == v.kind@
    &&& d.duration_ms == duration
}

/// `r` records that `v` failed with `err`.
pub open spec fn is_failure(
    v: VariableSpec,
    scheme: Seq<char>,
    resolver: Seq<char>,
    duration: u64,
    err: Seq<char>,
    r: ResolveWithTrace,
) -> bool {
    &&& r.result matches Err(e) && e@ == err
    &&& r.trace_message.severity == TraceSeverity::Warn
    &&& r.trace_message.code@ == "variable_resolve_failed"@
    &&& r.trace_message.message@ == "variable "@ + v.name@ + " could not be resolved: "@ + err
    &&& r.trace_message.details matches Some(d) && {
        &&& details_name(d, v, duration)
        &&& opt_is(d.scheme, scheme)
        &&& opt_is(d.resolver, resolver)
        &&& d.value_bytes is None
        &&& d.output_bytes_limit is None
        &&& d.truncated is None
        &&& opt_is(d.error_code, error_code_of(err))
        &&& opt_is(d.error_message, err)
        &&& d.debug@.len() == 0
    }
}

/// `r` records the static value of `v`.
pub open spec fn is_static_outcome(v: VariableSpec, duration: u64, r: ResolveWithTrace) -> bool {
    &&& r.result matches Ok(val) && is_clamp_of(val.string_value@, v.value@, MAX_VALUE_BYTES as nat)
        && val.debug@.len() == 0
    &&& r.trace_message.severity == TraceSeverity::Info
    &&& r.trace_message.code@ == "variable_static"@
    &&& r.trace_message.message@ == "variable "@ + v.name@ + " uses its static value"@
    &&& r.trace_message.details matches Some(d) && {
        &&& details_name(d, v, duration)
        &&& d.scheme is None
        &&& d.resolver is None
        &&& d.value_bytes is None
        &&& d.output_bytes_limit == Some(MAX_VALUE_BYTES)
        &&& d.truncated == Some(utf8_len(v.value@) > MAX_VALUE_BYTES)
        &&& d.error_code is None
        &&& d.error_message is None
        &&& d.debug@.len() == 0
    }
}

/// `r` records that `v` resolved to `raw`, clamped.
pub open spec fn is_resolved_outcome(
    v: VariableSpec,
    scheme: Seq<char>,
    resolver: Seq<char>,
    duration: u64,
    raw: ResolvedValue,
    r: ResolveWithTrace,
) -> bool {
    &&& r.result matches Ok(val) && {
        &&& is_clamp_of(val.string_value@, raw.string_value@, MAX_VALUE_BYTES as nat)
        &&& pairs_view(val.debug@) == pairs_view(raw.debug@)
    }
    &&& r.trace_message.severity == TraceSeverity::Info
    &&& r.trace_message.code@ == "variable_resolved"@
    &&& r.trace_message.message@ == "variable "@ + v.name@ + " resolved"@
    &&& r.trace_message.details matches Some(d) && {
        &&& details_name(d, v, duration)
        &&& opt_is(d.scheme, scheme)
        &&& opt_is(d.resolver, resolver)
        &&& r.result matches Ok(val) && d.value_bytes == Some(utf8_len(val.string_value@) as usize)
        &&& d.output_bytes_limit == Some(MAX_VALUE_BYTES)
        &&& d.truncated == Some(utf8_len(raw.string_value@) > MAX_VALUE_BYTES)
        &&& d.error_code is None
        &&& d.error_message is None
        &&& pairs_view(d.debug@) == pairs_view(raw.debug@)
    }
}

/// `prefix`, then `name`, then `suffix`.
fn three_part(prefix: &str, name: &str, suffix: &str) -> (r: String)
    ensures
        r@ == prefix@ + name@ + suffix@,
{
    let mut r = prefix.to_owned();
    r.append(name);
    r.append(suffix);
    r
}

/// A copy of a list of key/value pairs.
fn copy_pairs(v: &Vec<(String, String)>) -> (r: Vec<(String, String)>)
    ensures
        pairs_view(r@) == pairs_view(v@),
{
    let mut r: Vec<(String, String)> = Vec::new();
    let mut k: usize = 0;
    while k < v.len()
        invariant
            k <= v@.len(),
            r@.len() == k,
            pairs_view(r@) == pairs_view(v@).subrange(0, k as int),
        decreases v@.len() - k,
    {
        let a = v[k].0.clone();
        let b = v[k].1.clone();
        r.push((a, b));
        assert(r@[k as int] == (a, b));
        assert(pairs_view(r@)[k as int] == (v@[k as int].0@, v@[k as int].1@));
        assert(pairs_view(r@) =~= pairs_view(v@).subrange(0, k + 1));
        k = k + 1;
    }
    assert(pairs_view(v@).subrange(0, v@.len() as int) =~= pairs_view(v@));
    r
}

/// Records that `v` failed with `err`.
pub fn resolution_failure(
    v: &VariableSpec,
    scheme: String,
    resolver: String,
    duration_ms: u64,
    err: String,
) -> (r: ResolveWithTrace)
    ensures
        is_failure(*v, scheme@, resolver@, duration_ms, err@, r),
{
    let code = classify_error_code(err.as_str());
    let message = three_part("variable ", v.name.as_str(), " could not be resolved: ");
    let mut message = message;
    message.append(err.as_str());
    let details = TraceDetails {
        variable_id: v.id.clone(),
        variable_name: v.name.clone(),
        variable_type: v.kind.clone(),
        scheme: Some(scheme),
        resolver: Some(resolver),
        duration_ms,
        value_bytes: None,
        output_bytes_limit: None,
        truncated: None,
        error_code: Some(code),
        error_message: Some(err.clone()),
        debug: Vec::new(),
    };
    ResolveWithTrace {
        result: Err(err),
        trace_message: TraceMessage {
            severity: TraceSeverity::Warn,
            code: "variable_resolve_failed".to_owned(),
            message,
            details: Some(details),
        },
    }
}

/// Records the static value of `v`, clamped to the byte budget.
pub fn resolve_static(v: &VariableSpec, duration_ms: u64) -> (r: ResolveWithTrace)
    ensures
        is_static_outcome(*v, duration_ms, r),
{
    let (clamped, truncated) = clamp_string(v.value.as_str(), MAX_VALUE_BYTES);
    let details = TraceDetails {
        variable_id: v.id.clone(),
        variable_name: v.name.clone(),
        variable_type: v.kind.clone(),
        scheme: None,
        resolver: None,
        duration_ms,
        value_bytes: None,
        output_bytes_limit: Some(MAX_VALUE_BYTES),
        truncated: Some(truncated),
        error_code: None,
        error_message: None,
        debug: Vec::new(),
    };
    ResolveWithTrace {
        result: Ok(ResolvedValue { string_value: clamped, debug: Vec::new() }),
        trace_message: TraceMessage {
            severity: TraceSeverity::Info,
            code: "variable_static".to_owned(),
            message: three_part("variable ", v.name.as_str(), " uses its static value"),
            details: Some(details),
        },
    }
}

/// Completes a dispatched resolution with what the backend answered: a
/// value is clamped to the byte budget, an error is classified.
pub fn finish_resolution(
    v: &VariableSpec,
    scheme: Scheme,
    resolver: &str,
    duration_ms: u64,
    outcome: Result<ResolvedValue, String>,
) -> (r: ResolveWithTrace)
    ensures
        outcome matches Ok(raw) ==> is_resolved_outcome(
            *v,
            scheme_name(scheme),
            resolver@,
            duration_ms,
            raw,
            r,
        ),
        outcome matches Err(e) ==> is_failure(*v, scheme_name(scheme), resolver@, duration_ms, e@, r),
{
    match outcome {
        Ok(raw) => {
            let (clamped, truncated, value_bytes) = clamp_measured(
                raw.string_value.as_str(),
                MAX_VALUE_BYTES,
            );
            let debug = copy_pairs(&raw.debug);
            let details = TraceDetails {
                variable_id: v.id.clone(),
                variable_name: v.name.clone(),
                variable_type: v.kind.clone(),
                scheme: Some(scheme.name()),
                resolver: Some(resolver.to_owned()),
                duration_ms,
                value_bytes: Some(value_bytes),
                output_bytes_limit: Some(MAX_VALUE_BYTES),
                truncated: Some(truncated),
                error_code: None,
                error_message: None,
                debug,
            };
            ResolveWithTrace {
                result: Ok(ResolvedValue { string_value: clamped, debug: raw.debug }),
                trace_message: TraceMessage {
                    severity: TraceSeverity::Info,
                    code: "variable_resolved".to_owned(),
                    message: three_part("variable ", v.name.as_str(), " resolved"),
                    details: Some(details),
                },
            }
        },
        Err(e) => resolution_failure(v, scheme.name(), resolver.to_owned(), duration_ms, e),
    }
}

pub open spec fn uri_prefix(s: Scheme) -> Seq<char> {
    scheme_name(s) + seq![':', '/', '/']
}

/// `step` calls the backend of `s` with `req`.
pub open spec fn calls_with(step: ResolveStep, s: Scheme, resolver: Seq<char>, req: spec_fn(BackendRequest) -> bool) -> bool {
    match step {
        ResolveStep::Call { scheme, resolver: r, request } => scheme == s && r@ == resolver && req(
            request,
        ),
        _ => false,
    }
}

/// `step` records the failure `err`.
pub open spec fn fails_with(
    step: ResolveStep,
    v: VariableSpec,
    scheme: Seq<char>,
    resolver: Seq<char>,
    duration: u64,
    err: Seq<char>,
) -> bool {
    match step {
        ResolveStep::Done(r) => is_failure(v, scheme, resolver, duration, err, r),
        _ => false,
    }
}

pub open spec fn chat_request(req: BackendRequest, id: Seq<char>, value: Seq<char>) -> bool {
    match req {
        BackendRequest::Chat { session_id, requested, max_messages } => {
            &&& session_id@ == id
            &&& requested == match parsed_usize(value) {
                Some(n) => n,
                None => 20,
            }
            &&& max_messages == if requested < 200 {
                requested
            } else {
                200
            }
        },
        _ => false,
    }
}

pub open spec fn sql_request(req: BackendRequest, s: Scheme, id: Seq<char>, resolver: Seq<char>, value: Seq<char>) -> bool {
    match req {
        BackendRequest::Sql { datasource_id, query } => s == Scheme::Sql && datasource_id@ == id
            && query@ == value,
        BackendRequest::Sqlite { url, query } => s == Scheme::Sqlite && url@ == resolver && query@
            == value,
        _ => false,
    }
}

pub open spec fn neo4j_request(req: BackendRequest, id: Seq<char>, value: Seq<char>) -> bool {
    match req {
        BackendRequest::Neo4j { datasource_id, cypher } => datasource_id@ == id && cypher@ == value,
        _ => false,
    }
}

pub open spec fn milvus_request(req: BackendRequest, id: Seq<char>, value: Seq<char>) -> bool {
    match req {
        BackendRequest::Milvus { datasource_id, op } => datasource_id@ == id && op@ == value,
        _ => false,
    }
}

/// The request planned for a dynamic variable of scheme `s`, or the failure
/// decided before any backend is asked.
pub open spec fn request_planned(
    v: VariableSpec,
    s: Scheme,
    resolver: Seq<char>,
    duration: u64,
    step: ResolveStep,
) -> bool {
    let value = trim(v.value@);
    let id = strip_all(resolver, uri_prefix(s));
    let name = scheme_name(s);
    match s {
        Scheme::Chat => calls_with(step, s, resolver, |q: BackendRequest| chat_request(q, id, value)),
        Scheme::Sql | Scheme::Sqlite => if value.len() == 0 {
            fails_with(step, v, name, resolver, duration, "SQL must not be empty"@)
        } else if !is_read_only(value) {
            fails_with(step, v, name, resolver, duration, "readonly_required"@)
        } else {
            calls_with(step, s, resolver, |q: BackendRequest| sql_request(q, s, id, resolver, value))
        },
        Scheme::Neo4j => if value.len() == 0 {
            fails_with(step, v, name, resolver, duration, "Cypher must not be empty"@)
        } else {
            calls_with(step, s, resolver, |q: BackendRequest| neo4j_request(q, id, value))
        },
        Scheme::Milvus => calls_with(
            step,
            s,
            resolver,
            |q: BackendRequest| milvus_request(q, id, v.value@),
        ),
    }
}

/// The first step of resolving `v`: a static value is recorded as it is; a
/// dynamic one needs a resolver whose scheme is supported, and then either
/// fails on its payload or names the backend request to make.
pub open spec fn planned_as(v: VariableSpec, duration: u64, step: ResolveStep) -> bool {
    if v.kind@ != "dynamic"@ {
        match step {
            ResolveStep::Done(r) => is_static_outcome(v, duration, r),
            _ => false,
        }
    } else {
        let resolver = trim(opt_text(v.resolver));
        let part = scheme_part(resolver);
        if resolver.len() == 0 {
            fails_with(step, v, seq![], seq![], duration, "resolver_missing"@)
        } else {
            match scheme_of(part) {
                None => fails_with(
                    step,
                    v,
                    part,
                    resolver,
                    duration,
                    "不支持的 resolver scheme："@ + part,
                ),
                Some(s) => request_planned(v, s, resolver, duration, step),
            }
        }
    }
}

/// Decides the first step of resolving `v`; `elapsed_ms` is the time spent
/// so far, recorded when the outcome is already decided.
pub fn plan_resolution(v: &VariableSpec, elapsed_ms: u64) -> (r: ResolveStep)
    ensures
        planned_as(*v, elapsed_ms, r),
{
    if !text_eq(v.kind.as_str(), "dynamic") {
        return ResolveStep::Done(resolve_static(v, elapsed_ms));
    }
    let resolver = match &v.resolver {
        Some(r) => trimmed(r.as_str()),
        None => String::new(),
    };
    assert(resolver@ == trim(opt_text(v.resolver))) by {
        if v.resolver is None {
            assert(trim(seq![]) =~= seq![]);
        }
    }
    if resolver.as_str().is_empty() {
        return ResolveStep::Done(
            resolution_failure(v, String::new(), String::new(), elapsed_ms, "resolver_missing".to_owned()),
        );
    }
    let part = scheme_part_of(resolver.as_str());
    let scheme = match parse_scheme(part.as_str()) {
        Some(s) => s,
        None => {
            let mut err = "不支持的 resolver scheme：".to_owned();
            err.append(part.as_str());
            return ResolveStep::Done(resolution_failure(v, part, resolver, elapsed_ms, err));
        },
    };
    let value = trimmed(v.value.as_str());
    let prefix = scheme.prefix();
    match scheme {
        Scheme::Chat => {
            let requested = match parse_usize(value.as_str()) {
                Some(n) => n,
                None => 20,
            };
            let max_messages = if requested < 200 {
                requested
            } else {
                200
            };
            let session_id = strip_prefixes(resolver.as_str(), prefix.as_str());
            ResolveStep::Call {
                scheme,
                resolver,
                request: BackendRequest::Chat { session_id, requested, max_messages },
            }
        },
        Scheme::Sql | Scheme::Sqlite => {
            if value.as_str().is_empty() {
                return ResolveStep::Done(
                    resolution_failure(
                        v,
                        scheme.name(),
                        resolver,
                        elapsed_ms,
                        "SQL must not be empty".to_owned(),
                    ),
                );
            }
            if !is_read_only_query(value.as_str()) {
                proof {
                    assert(trim(value@) == value@) by {
                        lemma_trim_idempotent(v.value@);
                    }
                }
                return ResolveStep::Done(
                    resolution_failure(
                        v,
                        scheme.name(),
                        resolver,
                        elapsed_ms,
                        "readonly_required".to_owned(),
                    ),
                );
            }
            proof {
                lemma_trim_idempotent(v.value@);
            }
            let request = match scheme {
                Scheme::Sql => BackendRequest::Sql {
                    datasource_id: strip_prefixes(resolver.as_str(), prefix.as_str()),
                    query: value,
                },
                _ => BackendRequest::Sqlite { url: resolver.clone(), query: value },
            };
            ResolveStep::Call { scheme, resolver, request }
        },
        Scheme::Neo4j => {
            if value.as_str().is_empty() {
                return ResolveStep::Done(
                    resolution_failure(
                        v,
                        scheme.name(),
                        resolver,
                        elapsed_ms,
                        "Cypher must not be empty".to_owned(),
                    ),
                );
            }
            let datasource_id = strip_prefixes(resolver.as_str(), prefix.as_str());
            ResolveStep::Call {
                scheme,
                resolver,
                request: BackendRequest::Neo4j { datasource_id, cypher: value },
            }
        },
        Scheme::Milvus => {
            let datasource_id = strip_prefixes(resolver.as_str(), prefix.as_str());
            ResolveStep::Call {
                scheme,
                resolver,
                request: BackendRequest::Milvus { datasource_id, op: v.value.clone() },
            }
        },
    }
}

} // verus!
