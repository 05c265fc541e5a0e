//! The template renderer: `{{name}}` interpolation over ordered nodes, with a
//! trace of what was substituted and what was missing.
use vstd::prelude::*;
use crate::model::{EngineNode, OutputStyle, TraceMessage, TraceRun, TraceSegment, TraceSeverity};
use crate::text::{
    chars_of, trimmed, lemma_lex_irreflexive, lemma_lex_total, lemma_lex_transitive, lex_lt, push_range, string_of, text_lt, trim,
    trim_bounds,
};
use crate::replay::output_digest;
use crate::vars::VarMap;
use vstd::string::StringExecFns;

verus! {

/// `{{` starts at `i`.
pub open spec fn is_open(t: Seq<char>, i: int) -> bool {
    0 <= i && i + 1 < t.len() && t[i] == '{' && t[i + 1] == '{'
}

/// `}}` starts at `j`.
pub open spec fn is_close(t: Seq<char>, j: int) -> bool {
    0 <= j && j + 1 < t.len() && t[j] == '}' && t[j + 1] == '}'
}

/// The first `}}` at or after `j`, if any.
pub open spec fn close_from(t: Seq<char>, j: int) -> Option<int>
    decreases t.len() - j,
{
    if j < 0 || j + 1 >= t.len() {
        None
    } else if is_close(t, j) {
        Some(j)
    } else {
        close_from(t, j + 1)
    }
}

/// The name of the token `t[i..j+2]`, whitespace trimmed.
pub open spec fn token_name(t: Seq<char>, i: int, j: int) -> Seq<char> {
    trim(t.subrange(i + 2, j))
}

/// What the token `t[i..j+2]` becomes: the variable's value when the name is
/// bound, else the placeholder itself.
pub open spec fn token_output(
    t: Seq<char>,
    i: int,
    j: int,
    vars: Map<Seq<char>, Seq<char>>,
) -> Seq<char> {
    let name = token_name(t, i, j);
    if name.len() > 0 && vars.contains_key(name) {
        vars[name]
    } else {
        t.subrange(i, j + 2)
    }
}

/// The names that the token `t[i..j+2]` leaves unresolved.
pub open spec fn token_missing(
    t: Seq<char>,
    i: int,
    j: int,
    vars: Map<Seq<char>, Seq<char>>,
) -> Seq<Seq<char>> {
    let name = token_name(t, i, j);
    if name.len() > 0 && !vars.contains_key(name) {
        seq![name]
    } else {
        seq![]
    }
}

/// The interpolation of `t[i..]`.
pub open spec fn interp(t: Seq<char>, i: int, vars: Map<Seq<char>, Seq<char>>) -> Seq<char>
    decreases t.len() - i,
{
    if i < 0 || i >= t.len() {
        seq![]
    } else if is_open(t, i) {
        match close_from(t, i + 2) {
            None => t.subrange(i, t.len() as int),
            Some(j) => if i <= j && j + 2 <= t.len() {
                token_output(t, i, j, vars) + interp(t, j + 2, vars)
            } else {
                seq![]
            },
        }
    } else {
        seq![t[i]] + interp(t, i + 1, vars)
    }
}

/// The names, in order of appearance, that `t[i..]` leaves unresolved.
pub open spec fn missing_in(t: Seq<char>, i: int, vars: Map<Seq<char>, Seq<char>>) -> Seq<
    Seq<char>,
>
    decreases t.len() - i,
{
    if i < 0 || i >= t.len() {
        seq![]
    } else if is_open(t, i) {
        match close_from(t, i + 2) {
            None => seq![],
            Some(j) => if i <= j && j + 2 <= t.len() {
                token_missing(t, i, j, vars) + missing_in(t, j + 2, vars)
            } else {
                seq![]
            },
        }
    } else {
        missing_in(t, i + 1, vars)
    }
}

pub open spec fn strictly_sorted(s: Seq<Seq<char>>) -> bool {
    forall|a: int, b: int| 0 <= a < b < s.len() ==> lex_lt(s[a], s[b])
}

pub open spec fn views(v: Seq<String>) -> Seq<Seq<char>> {
    v.map_values(|x: String| x@)
}

/// `v` lists the names of `names` once each, in ascending order.
pub open spec fn is_sorted_set_of(v: Seq<Seq<char>>, names: Seq<Seq<char>>) -> bool {
    strictly_sorted(v) && v.to_set() == names.to_set()
}

/// `parts` joined with `sep` between neighbours.
pub open spec fn join_with(parts: Seq<Seq<char>>, sep: Seq<char>) -> Seq<char>
    decreases parts.len(),
{
    if parts.len() == 0 {
        seq![]
    } else if parts.len() == 1 {
        parts[0]
    } else {
        join_with(parts.drop_last(), sep) + sep + parts.last()
    }
}

/// A segment's body as the output style presents it.
pub open spec fn styled(style: OutputStyle, label: Seq<char>, body: Seq<char>) -> Seq<char> {
    match style {
        OutputStyle::Plain => body,
        OutputStyle::Labeled => "--- "@ + label + " ---\n"@ + body,
    }
}

/// What one node renders to.
pub open spec fn node_rendered(
    n: EngineNode,
    vars: Map<Seq<char>, Seq<char>>,
    style: OutputStyle,
) -> Seq<char> {
    styled(style, n.label@, interp(n.content@, 0, vars))
}

pub open spec fn rendered_parts(
    nodes: Seq<EngineNode>,
    vars: Map<Seq<char>, Seq<char>>,
    style: OutputStyle,
) -> Seq<Seq<char>> {
    nodes.map_values(|n: EngineNode| node_rendered(n, vars, style))
}

/// The text of a render: the segments joined by blank lines, trimmed.
pub open spec fn rendered_text(
    nodes: Seq<EngineNode>,
    vars: Map<Seq<char>, Seq<char>>,
    style: OutputStyle,
) -> Seq<char> {
    trim(join_with(rendered_parts(nodes, vars, style), "\n\n"@))
}

/// The warning of a segment that left `names` unresolved.
pub open spec fn is_missing_warning(m: TraceMessage, names: Seq<Seq<char>>) -> bool {
    &&& m.severity == TraceSeverity::Warn
    &&& m.code@ == "missing_variable"@
    &&& m.message@ == "missing variables: "@ + join_with(names, ", "@)
    &&& m.details is None
}

/// The segment that `n` renders to.
pub open spec fn segment_of(
    seg: TraceSegment,
    n: EngineNode,
    vars: Map<Seq<char>, Seq<char>>,
    style: OutputStyle,
) -> bool {
    let missing = views(seg.missing_variables@);
    &&& seg.node_id@ == n.id@
    &&& seg.label@ == n.label@
    &&& seg.kind == n.kind
    &&& seg.template@ == n.content@
    &&& seg.rendered@ == node_rendered(n, vars, style)
    &&& is_sorted_set_of(missing, missing_in(n.content@, 0, vars))
    &&& if missing.len() == 0 {
        seg.messages@.len() == 0
    } else {
        seg.messages@.len() == 1 && is_missing_warning(seg.messages@[0], missing)
    }
}

/// What a render of `nodes` over `vars` in `style` produces, identifiers aside.
pub open spec fn renders_as(
    nodes: Seq<EngineNode>,
    vars: Map<Seq<char>, Seq<char>>,
    style: OutputStyle,
    run: TraceRun,
) -> bool {
    &&& run.output_style == style
    &&& run.text@ == rendered_text(nodes, vars, style)
    &&& run.segments@.len() == nodes.len()
    &&& forall|k: int|
        0 <= k < nodes.len() ==> #[trigger] segment_of(run.segments@[k], nodes[k], vars, style)
}


/// Adds `s` to a strictly ascending list of names, keeping it so.
pub(crate) fn insert_sorted(v: &mut Vec<String>, s: String)
    requires
        strictly_sorted(views(old(v)@)),
    ensures
        strictly_sorted(views(final(v)@)),
        views(final(v)@).to_set() == views(old(v)@).to_set().insert(s@),
{
    let mut p: usize = 0;
    while p < v.len() && text_lt(v[p].as_str(), s.as_str())
        invariant
            p <= v@.len(),
            v@ == old(v)@,
            strictly_sorted(views(v@)),
            forall|q: int| 0 <= q < p ==> lex_lt(#[trigger] v@[q]@, s@),
        decreases v@.len() - p,
    {
        p = p + 1;
    }
    if p < v.len() && v[p] == s {
        assert(views(v@).to_set() =~= views(v@).to_set().insert(s@)) by {
            assert(views(v@)[p as int] == s@);
        }
        return;
    }
    let ghost old_views = views(v@);
    proof {
        if p < v@.len() {
            lemma_lex_total(v@[p as int]@, s@);
        }
    }
    v.insert(p, s);
    let ghost new_views = views(v@);
    assert(new_views =~= old_views.insert(p as int, s@));
    assert forall|a: int, b: int| 0 <= a < b < new_views.len() implies lex_lt(
        new_views[a],
        new_views[b],
    ) by {
        if b < p {
        } else if b == p {
            assert(new_views[a] == old_views[a]);
        } else if a < p {
            assert(new_views[b] == old_views[b - 1]);
            assert(lex_lt(old_views[a], s@));
            assert(lex_lt(s@, old_views[p as int]));
            if b - 1 > p {
                lemma_lex_transitive(s@, old_views[p as int], old_views[b - 1]);
            }
            lemma_lex_transitive(old_views[a], s@, old_views[b - 1]);
        } else if a == p {
            assert(new_views[b] == old_views[b - 1]);
            if b - 1 > p {
                lemma_lex_transitive(s@, old_views[p as int], old_views[b - 1]);
            }
        } else {
            assert(new_views[a] == old_views[a - 1]);
            assert(new_views[b] == old_views[b - 1]);
        }
    }
    assert(new_views.to_set() =~= old_views.to_set().insert(s@)) by {
        assert forall|x: Seq<char>| new_views.to_set().contains(x) implies old_views.to_set().insert(
            s@,
        ).contains(x) by {
            let i = choose|i: int| 0 <= i < new_views.len() && new_views[i] == x;
            if i < p {
                assert(old_views[i] == x);
            } else if i > p {
                assert(old_views[i - 1] == x);
            }
        }
        assert forall|x: Seq<char>| old_views.to_set().insert(s@).contains(x) implies new_views.to_set().contains(x) by {
            if x == s@ {
                assert(new_views[p as int] == x);
            } else {
                let i = choose|i: int| 0 <= i < old_views.len() && old_views[i] == x;
                if i < p {
                    assert(new_views[i] == x);
                } else {
                    assert(new_views[i + 1] == x);
                }
            }
        }
    }
}

proof fn lemma_singleton_to_set(x: Seq<char>)
    ensures
        seq![x].to_set() == set![x],
{
    assert(seq![x][0] == x);
    assert(seq![x].to_set() =~= set![x]);
}

proof fn lemma_to_set_concat(a: Seq<Seq<char>>, b: Seq<Seq<char>>)
    ensures
        (a + b).to_set() == a.to_set() + b.to_set(),
{
    assert forall|x: Seq<char>| (a + b).to_set().contains(x) implies (a.to_set() + b.to_set()).contains(
        x,
    ) by {
        let i = choose|i: int| 0 <= i < (a + b).len() && (a + b)[i] == x;
        if i < a.len() {
            assert(a[i] == x);
        } else {
            assert(b[i - a.len()] == x);
        }
    }
    assert forall|x: Seq<char>| (a.to_set() + b.to_set()).contains(x) implies (a + b).to_set().contains(
        x,
    ) by {
        if a.to_set().contains(x) {
            let i = choose|i: int| 0 <= i < a.len() && a[i] == x;
            assert((a + b)[i] == x);
        } else {
            let i = choose|i: int| 0 <= i < b.len() && b[i] == x;
            assert((a + b)[a.len() + i] == x);
        }
    }
    assert((a + b).to_set() =~= a.to_set() + b.to_set());
}

/// Interpolates the `{{name}}` tokens of `template` from `vars`. Returns the
/// text and the names left unresolved, ascending and each once.
pub fn interpolate_template(template: &str, vars: &VarMap) -> (r: (String, Vec<String>))
    ensures
        r.0@ == interp(template@, 0, vars@),
        is_sorted_set_of(views(r.1@), missing_in(template@, 0, vars@)),
{
    let t = chars_of(template);
    let n = t.len();
    let mut out = String::new();
    let mut missing: Vec<String> = Vec::new();
    let mut i: usize = 0;
    assert(views(missing@).to_set() =~= Set::<Seq<char>>::empty());
    assert(Set::<Seq<char>>::empty() + missing_in(t@, 0, vars@).to_set() =~= missing_in(
        t@,
        0,
        vars@,
    ).to_set());
    while i < n
        invariant
            t@ == template@,
            n == t@.len(),
            i <= n,
            out@ + interp(t@, i as int, vars@) == interp(t@, 0, vars@),
            strictly_sorted(views(missing@)),
            views(missing@).to_set() + missing_in(t@, i as int, vars@).to_set() == missing_in(
                t@,
                0,
                vars@,
            ).to_set(),
        decreases n - i,
    {
        if i + 1 < n && t[i] == '{' && t[i + 1] == '{' {
            let mut j: usize = i + 2;
            while j < n - 1 && !(t[j] == '}' && t[j + 1] == '}')
                invariant
                    t@ == template@,
                    n == t@.len(),
                    i + 1 < n,
                    i + 2 <= j <= n,
                    close_from(t@, (i + 2) as int) == close_from(t@, j as int),
                decreases n - j,
            {
                j = j + 1;
            }
            if j >= n - 1 {
                assert(close_from(t@, j as int) is None);
                let ghost before = out@;
                push_range(&mut out, &t, i, n);
                assert(interp(t@, n as int, vars@) =~= seq![]);
                assert(out@ + interp(t@, n as int, vars@) =~= before + interp(t@, i as int, vars@));
                assert(missing_in(t@, i as int, vars@) =~= seq![]);
                assert(missing_in(t@, n as int, vars@) =~= seq![]);
                i = n;
            } else {
                assert(is_close(t@, j as int));
                assert(close_from(t@, j as int) == Some(j as int));
                let ghost rest = interp(t@, j + 2, vars@);
                let ghost rest_missing = missing_in(t@, j + 2, vars@);
                assert(interp(t@, i as int, vars@) == token_output(t@, i as int, j as int, vars@)
                    + rest);
                assert(missing_in(t@, i as int, vars@) == token_missing(
                    t@,
                    i as int,
                    j as int,
                    vars@,
                ) + rest_missing);
                proof {
                    lemma_to_set_concat(token_missing(t@, i as int, j as int, vars@), rest_missing);
                }
                let ghost before = out@;
                let ghost before_set = views(missing@).to_set();
                let (a, b) = trim_bounds(&t, i + 2, j);
                if a == b {
                    push_range(&mut out, &t, i, j + 2);
                    assert(token_missing(t@, i as int, j as int, vars@) =~= seq![]);
                    assert(before_set + rest_missing.to_set() =~= before_set + (Set::empty()
                        + rest_missing.to_set()));
                } else {
                    let name = string_of(&t, a, b);
                    match vars.get(name.as_str()) {
                        Some(v) => {
                            out.append(v.as_str());
                            assert(token_missing(t@, i as int, j as int, vars@) =~= seq![]);
                            assert(before_set + rest_missing.to_set() =~= before_set + (
                            Set::empty() + rest_missing.to_set()));
                        },
                        None => {
                            insert_sorted(&mut missing, name);
                            push_range(&mut out, &t, i, j + 2);
                            assert(token_missing(t@, i as int, j as int, vars@) =~= seq![
                                token_name(t@, i as int, j as int),
                            ]);
                            proof {
                                lemma_singleton_to_set(token_name(t@, i as int, j as int));
                            }
                            assert(views(missing@).to_set() + rest_missing.to_set() =~= before_set
                                + (seq![token_name(t@, i as int, j as int)].to_set()
                                + rest_missing.to_set()));
                        },
                    }
                }
                assert(out@ + rest =~= before + interp(t@, i as int, vars@));
                i = j + 2;
            }
        } else {
            let ghost before = out@;
            out.push(t[i]);
            assert(out@ + interp(t@, i + 1, vars@) =~= before + interp(t@, i as int, vars@));
            i = i + 1;
        }
    }
    assert(interp(t@, n as int, vars@) =~= seq![]);
    assert(out@ =~= out@ + interp(t@, n as int, vars@));
    assert(missing_in(t@, n as int, vars@) =~= seq![]);
    assert(views(missing@).to_set() =~= views(missing@).to_set() + seq![].to_set());
    (out, missing)
}

pub(crate) proof fn lemma_join_step(s: Seq<Seq<char>>, k: int, sep: Seq<char>)
    requires
        0 <= k < s.len(),
    ensures
        join_with(s.subrange(0, k + 1), sep) == if k == 0 {
            s[0]
        } else {
            join_with(s.subrange(0, k), sep) + sep + s[k]
        },
{
    assert(s.subrange(0, k + 1).drop_last() =~= s.subrange(0, k));
}

/// The warning for a segment that left `names` unresolved.
fn missing_message(names: &Vec<String>) -> (r: TraceMessage)
    ensures
        is_missing_warning(r, views(names@)),
{
    let mut msg = "missing variables: ".to_owned();
    let mut k: usize = 0;
    assert(views(names@).subrange(0, 0) =~= seq![]);
    while k < names.len()
        invariant
            k <= names@.len(),
            msg@ == "missing variables: "@ + join_with(views(names@).subrange(0, k as int), ", "@),
        decreases names@.len() - k,
    {
        proof {
            lemma_join_step(views(names@), k as int, ", "@);
        }
        if k > 0 {
            msg.append(", ");
        }
        msg.append(names[k].as_str());
        k = k + 1;
    }
    assert(views(names@).subrange(0, names@.len() as int) =~= views(names@));
    TraceMessage {
        severity: TraceSeverity::Warn,
        code: "missing_variable".to_owned(),
        message: msg,
        details: None,
    }
}

/// Renders `nodes` in order over `variables`: one segment per node, and the
/// segments' outputs joined by blank lines and trimmed as the run's text.
pub fn render_with_trace(
    nodes: &Vec<EngineNode>,
    variables: &VarMap,
    output_style: OutputStyle,
    run_id: &str,
    created_at: &str,
) -> (r: TraceRun)
    ensures
        renders_as(nodes@, variables@, output_style, r),
        r.run_id@ == run_id@,
        r.created_at@ == created_at@,
        r.messages@.len() == 0,
{
    let ghost parts = rendered_parts(nodes@, variables@, output_style);
    let mut segments: Vec<TraceSegment> = Vec::new();
    let mut joined = String::new();
    let mut k: usize = 0;
    assert(parts.subrange(0, 0) =~= seq![]);
    while k < nodes.len()
        invariant
            k <= nodes@.len(),
            parts == rendered_parts(nodes@, variables@, output_style),
            segments@.len() == k,
            forall|q: int|
                0 <= q < k ==> #[trigger] segment_of(
                    segments@[q],
                    nodes@[q],
                    variables@,
                    output_style,
                ),
            joined@ == join_with(parts.subrange(0, k as int), "\n\n"@),
        decreases nodes@.len() - k,
    {
        let node = &nodes[k];
        let (body, missing) = interpolate_template(node.content.as_str(), variables);
        let mut messages: Vec<TraceMessage> = Vec::new();
        if missing.len() > 0 {
            messages.push(missing_message(&missing));
        }
        let rendered = match output_style {
            OutputStyle::Plain => body,
            OutputStyle::Labeled => {
                let mut s = "--- ".to_owned();
                s.append(node.label.as_str());
                s.append(" ---\n");
                s.append(body.as_str());
                s
            },
        };
        assert(rendered@ == parts[k as int]);
        proof {
            lemma_join_step(parts, k as int, "\n\n"@);
        }
        if k > 0 {
            joined.append("\n\n");
        }
        joined.append(rendered.as_str());
        let seg = TraceSegment {
            node_id: node.id.clone(),
            label: node.label.clone(),
            kind: node.kind,
            template: node.content.clone(),
            rendered,
            missing_variables: missing,
            messages,
        };
        assert(segment_of(seg, nodes@[k as int], variables@, output_style));
        segments.push(seg);
        k = k + 1;
    }
    assert(parts.subrange(0, nodes@.len() as int) =~= parts);
    let text = trimmed(joined.as_str());
    TraceRun {
        run_id: run_id.to_owned(),
        created_at: created_at.to_owned(),
        output_style,
        text,
        segments,
        messages: Vec::new(),
    }
}

/// Rendering is deterministic: two renders of the same nodes over the same
/// variables in the same style produce the same text, hence the same digest,
/// and the same segments.
pub proof fn lemma_render_idempotent(
    nodes: Seq<EngineNode>,
    vars: Map<Seq<char>, Seq<char>>,
    style: OutputStyle,
    first: TraceRun,
    second: TraceRun,
)
    requires
        renders_as(nodes, vars, style, first),
        renders_as(nodes, vars, style, second),
    ensures
        first.text@ == second.text@,
        output_digest(first.text@) == output_digest(second.text@),
        first.segments@.len() == second.segments@.len(),
        forall|k: int|
            0 <= k < nodes.len() ==> {
                &&& (#[trigger] first.segments@[k]).rendered@ == second.segments@[k].rendered@
                &&& views(first.segments@[k].missing_variables@) == views(
                    second.segments@[k].missing_variables@,
                )
            },
{
    assert forall|k: int| 0 <= k < nodes.len() implies {
        &&& (#[trigger] first.segments@[k]).rendered@ == second.segments@[k].rendered@
        &&& views(first.segments@[k].missing_variables@) == views(
            second.segments@[k].missing_variables@,
        )
    } by {
        assert(segment_of(first.segments@[k], nodes[k], vars, style));
        assert(segment_of(second.segments@[k], nodes[k], vars, style));
        lemma_sorted_set_unique(
            views(first.segments@[k].missing_variables@),
            views(second.segments@[k].missing_variables@),
            missing_in(nodes[k].content@, 0, vars),
        );
    }
}

/// Two ascending lists without repeats that hold the same names are equal.
pub proof fn lemma_sorted_set_unique(a: Seq<Seq<char>>, b: Seq<Seq<char>>, names: Seq<Seq<char>>)
    requires
        is_sorted_set_of(a, names),
        is_sorted_set_of(b, names),
    ensures
        a == b,
    decreases a.len() + b.len(),
{
    if a.len() == 0 || b.len() == 0 {
        if a.len() > 0 {
            assert(a.to_set().contains(a[0]));
        }
        if b.len() > 0 {
            assert(b.to_set().contains(b[0]));
        }
        assert(a =~= b);
    } else {
        // the smallest names agree
        assert(a.to_set().contains(a[0]));
        assert(b.to_set().contains(b[0]));
        let ia = choose|i: int| 0 <= i < a.len() && a[i] == b[0];
        let ib = choose|i: int| 0 <= i < b.len() && b[i] == a[0];
        if ia > 0 {
            assert(lex_lt(a[0], a[ia]));
            if ib > 0 {
                assert(lex_lt(b[0], b[ib]));
                lemma_lex_transitive(a[0], b[0], a[0]);
                lemma_lex_irreflexive(a[0]);
            }
        }
        assert(a[0] == b[0]);
        let rest = names.to_set().remove(a[0]);
        let ra = a.drop_first();
        let rb = b.drop_first();
        assert forall|x: Seq<char>| ra.to_set().contains(x) <==> rb.to_set().contains(x) by {
            if ra.to_set().contains(x) {
                let i = choose|i: int| 0 <= i < ra.len() && ra[i] == x;
                assert(a[i + 1] == x);
                assert(lex_lt(a[0], x));
                lemma_lex_irreflexive(x);
                assert(b.to_set().contains(x));
                let j = choose|j: int| 0 <= j < b.len() && b[j] == x;
                assert(j != 0);
                assert(rb[j - 1] == x);
            }
            if rb.to_set().contains(x) {
                let i = choose|i: int| 0 <= i < rb.len() && rb[i] == x;
                assert(b[i + 1] == x);
                assert(lex_lt(b[0], x));
                lemma_lex_irreflexive(x);
                assert(a.to_set().contains(x));
                let j = choose|j: int| 0 <= j < a.len() && a[j] == x;
                assert(j != 0);
                assert(ra[j - 1] == x);
            }
        }
        assert(ra.to_set() =~= rb.to_set());
        lemma_sorted_set_unique(ra, rb, ra);
        assert(a =~= seq![a[0]] + ra);
        assert(b =~= seq![b[0]] + rb);
    }
}

/// In labeled style each segment is exactly `--- {label} ---\n` followed by
/// the interpolated body; in plain style it is the body with nothing added.
pub proof fn lemma_style_prefix(
    nodes: Seq<EngineNode>,
    vars: Map<Seq<char>, Seq<char>>,
    style: OutputStyle,
    run: TraceRun,
)
    requires
        renders_as(nodes, vars, style, run),
    ensures
        forall|k: int|
            0 <= k < nodes.len() ==> (#[trigger] run.segments@[k]).rendered@ == if style
                == OutputStyle::Labeled {
                "--- "@ + nodes[k].label@ + " ---\n"@ + interp(nodes[k].content@, 0, vars)
            } else {
                interp(nodes[k].content@, 0, vars)
            },
{
    assert forall|k: int| 0 <= k < nodes.len() implies (#[trigger] run.segments@[k]).rendered@
        == if style == OutputStyle::Labeled {
        "--- "@ + nodes[k].label@ + " ---\n"@ + interp(nodes[k].content@, 0, vars)
    } else {
        interp(nodes[k].content@, 0, vars)
    } by {
        assert(segment_of(run.segments@[k], nodes[k], vars, style));
    }
}

} // verus!
