//! Identifier checks and quoting for the SQL dialects the datasources use.
use vstd::prelude::*;
use vstd::string::StringExecFns;
use crate::render::{join_with, lemma_join_step, views};
use crate::text::{chars_of, contains_text, has_infix, string_of, text_eq, trim, trimmed};

verus! {

pub open spec fn is_ascii_alpha(c: char) -> bool {
    ('a' <= c && c <= 'z') || ('A' <= c && c <= 'Z')
}

pub open spec fn is_ascii_alnum(c: char) -> bool {
    is_ascii_alpha(c) || ('0' <= c && c <= '9')
}

/// A plain identifier: a letter or `_`, then letters, digits or `_`.
pub open spec fn safe_identifier(s: Seq<char>) -> bool {
    &&& s.len() > 0
    &&& (is_ascii_alpha(s[0]) || s[0] == '_')
    &&& forall|i: int| 1 <= i < s.len() ==> is_ascii_alnum(#[trigger] s[i]) || s[i] == '_'
}

/// Whether `name` is a plain identifier.
pub fn is_safe_identifier(name: &str) -> (r: bool)
    ensures
        r == safe_identifier(name@),
{
    let v = chars_of(name);
    if v.len() == 0 {
        return false;
    }
    let first = v[0];
    if !(('a' <= first && first <= 'z') || ('A' <= first && first <= 'Z') || first == '_') {
        return false;
    }
    let mut k: usize = 1;
    while k < v.len()
        invariant
            v@ == name@,
            1 <= k <= v@.len(),
            forall|i: int| 1 <= i < k ==> is_ascii_alnum(#[trigger] v@[i]) || v@[i] == '_',
        decreases v@.len() - k,
    {
        let c = v[k];
        if !(('a' <= c && c <= 'z') || ('A' <= c && c <= 'Z') || ('0' <= c && c <= '9') || c
            == '_') {
            return false;
        }
        k = k + 1;
    }
    true
}

/// `s` with every `q` doubled.
pub open spec fn doubled(s: Seq<char>, q: char) -> Seq<char>
    decreases s.len(),
{
    if s.len() == 0 {
        seq![]
    } else if s.last() == q {
        doubled(s.drop_last(), q) + seq![q, q]
    } else {
        doubled(s.drop_last(), q) + seq![s.last()]
    }
}

/// `s` between two `q`, with every `q` inside doubled.
pub open spec fn quoted(s: Seq<char>, q: char) -> Seq<char> {
    seq![q] + doubled(s, q) + seq![q]
}

fn quote_with(ident: &str, q: char) -> (r: String)
    ensures
        r@ == quoted(ident@, q),
{
    let v = chars_of(ident);
    let mut out = String::new();
    out.push(q);
    let mut k: usize = 0;
    assert(v@.subrange(0, 0) =~= seq![]);
    while k < v.len()
        invariant
            v@ == ident@,
            k <= v@.len(),
            out@ == seq![q] + doubled(v@.subrange(0, k as int), q),
        decreases v@.len() - k,
    {
        assert(v@.subrange(0, k + 1).drop_last() =~= v@.subrange(0, k as int));
        if v[k] == q {
            out.push(q);
            out.push(q);
        } else {
            out.push(v[k]);
        }
        assert(out@ =~= seq![q] + doubled(v@.subrange(0, k + 1), q));
        k = k + 1;
    }
    assert(v@.subrange(0, v@.len() as int) =~= v@);
    out.push(q);
    out
}

/// `ident` as a sqlite quoted identifier.
pub fn quote_ident_sqlite(ident: &str) -> (r: String)
    ensures
        r@ == quoted(ident@, '"'),
{
    quote_with(ident, '"')
}

/// `ident` as a PostgreSQL quoted identifier.
pub fn quote_ident_pg(ident: &str) -> (r: String)
    ensures
        r@ == quoted(ident@, '"'),
{
    quote_with(ident, '"')
}

/// `ident` as a MySQL quoted identifier.
pub fn quote_ident_mysql(ident: &str) -> (r: String)
    ensures
        r@ == quoted(ident@, '`'),
{
    quote_with(ident, '`')
}

/// Whether a driver name denotes one of the SQL engines.
pub fn is_sql_driver(driver: &str) -> (r: bool)
    ensures
        r == (driver@ == "sqlite"@ || driver@ == "postgres"@ || driver@ == "mysql"@),
{
    text_eq(driver, "sqlite") || text_eq(driver, "postgres") || text_eq(driver, "mysql")
}

/// A table name, possibly schema-qualified, that is safe to splice into SQL:
/// once trimmed, 1 to 128 letters, digits, `_` or `.`, with no leading,
/// trailing or doubled `.`.
pub open spec fn safe_table_name(name: Seq<char>) -> bool {
    let t = trim(name);
    &&& 0 < t.len() <= 128
    &&& forall|i: int| 0 <= i < t.len() ==> is_ascii_alnum(#[trigger] t[i]) || t[i] == '_' || t[i] == '.'
    &&& t[0] != '.'
    &&& t.last() != '.'
    &&& !has_infix(t, seq!['.', '.'])
}

/// Whether `name` is a safe table name.
pub fn is_safe_table_name(name: &str) -> (r: bool)
    ensures
        r == safe_table_name(name@),
{
    let t = trimmed(name);
    let v = chars_of(t.as_str());
    if v.len() == 0 || v.len() > 128 {
        return false;
    }
    let mut k: usize = 0;
    while k < v.len()
        invariant
            v@ == trim(name@),
            k <= v@.len(),
            forall|i: int| 0 <= i < k ==> is_ascii_alnum(#[trigger] v@[i]) || v@[i] == '_' || v@[i] == '.',
        decreases v@.len() - k,
    {
        let c = v[k];
        if !(('a' <= c && c <= 'z') || ('A' <= c && c <= 'Z') || ('0' <= c && c <= '9') || c
            == '_' || c == '.') {
            return false;
        }
        k = k + 1;
    }
    let mut dots = String::new();
    dots.push('.');
    dots.push('.');
    assert(dots@ =~= seq!['.', '.']);
    assert(v@.last() == v@[v@.len() - 1]);
    v[0] != '.' && v[v.len() - 1] != '.' && !contains_text(t.as_str(), dots.as_str())
}

/// The position of the first `.` in `s`, if any.
pub open spec fn first_dot(s: Seq<char>) -> Option<int> {
    if exists|i: int| 0 <= i < s.len() && s[i] == '.' {
        Some(choose|i: int| 0 <= i < s.len() && s[i] == '.' && forall|j: int| 0 <= j < i ==> s[j] != '.')
    } else {
        None
    }
}

/// Splits `schema.table` at its first `.`; a name without one is a table of
/// the `public` schema.
pub fn split_table_name(input: &str) -> (r: (String, String))
    ensures
        ({
            let s = input@;
            match first_dot(s) {
                Some(i) => r.0@ == s.subrange(0, i) && r.1@ == s.subrange(i + 1, s.len() as int),
                None => r.0@ == "public"@ && r.1@ == s,
            }
        }),
{
    let v = chars_of(input);
    let mut k: usize = 0;
    while k < v.len() && v[k] != '.'
        invariant
            v@ == input@,
            k <= v@.len(),
            forall|j: int| 0 <= j < k ==> v@[j] != '.',
        decreases v@.len() - k,
    {
        k = k + 1;
    }
    if k < v.len() {
        proof {
            let i = choose|i: int| 0 <= i < input@.len() && input@[i] == '.' && forall|j: int| 0 <= j < i ==> input@[j] != '.';
            assert(i == k) by {
                if i < k {
                    assert(v@[i] != '.');
                } else if i > k {
                    assert(input@[k as int] != '.');
                }
            }
        }
        (string_of(&v, 0, k), string_of(&v, k + 1, v.len()))
    } else {
        assert(v@.subrange(0, v@.len() as int) =~= v@);
        ("public".to_owned(), string_of(&v, 0, v.len()))
    }
}

/// The SQL dialects whose identifiers can be quoted.
#[derive(Clone, Copy, Debug, PartialEq, Eq, Structural)]
pub enum SqlDialect {
    Sqlite,
    Postgres,
    Mysql,
}

pub open spec fn quote_char(d: SqlDialect) -> char {
    match d {
        SqlDialect::Mysql => '`',
        _ => '"',
    }
}

/// The pieces of `s` between dots; a string without dots is one piece.
pub open spec fn split_dots(s: Seq<char>) -> Seq<Seq<char>>
    decreases s.len(),
{
    if s.len() == 0 {
        seq![seq![]]
    } else {
        let rest = split_dots(s.drop_last());
        if s.last() == '.' {
            rest.push(seq![])
        } else {
            rest.update(rest.len() - 1, rest.last().push(s.last()))
        }
    }
}

proof fn lemma_split_dots_nonempty(s: Seq<char>)
    ensures
        split_dots(s).len() >= 1,
    decreases s.len(),
{
    if s.len() > 0 {
        lemma_split_dots_nonempty(s.drop_last());
    }
}

/// The trimmed pieces of a dotted table name.
pub open spec fn name_parts(name: Seq<char>) -> Seq<Seq<char>> {
    split_dots(name).map_values(|p: Seq<char>| trim(p))
}

/// `name` split at its dots, each piece trimmed and quoted for `dialect`,
/// joined by dots; `None` when a piece is empty.
pub fn quote_qualified_table(name: &str, dialect: SqlDialect) -> (r: Option<String>)
    ensures
        ({
            let parts = name_parts(name@);
            if exists|i: int| 0 <= i < parts.len() && (#[trigger] parts[i]).len() == 0 {
                r is None
            } else {
                r matches Some(q) && q@ == join_with(
                    parts.map_values(|p: Seq<char>| quoted(p, quote_char(dialect))),
                    "."@,
                )
            }
        }),
{
    let v = chars_of(name);
    let mut pieces: Vec<String> = Vec::new();
    let mut cur = String::new();
    let mut k: usize = 0;
    assert(v@.subrange(0, 0) =~= seq![]);
    assert(views(pieces@) + seq![cur@] =~= split_dots(seq![]));
    while k < v.len()
        invariant
            v@ == name@,
            k <= v@.len(),
            views(pieces@) + seq![cur@] == split_dots(v@.subrange(0, k as int)),
        decreases v@.len() - k,
    {
        let ghost pre = v@.subrange(0, k as int);
        assert(v@.subrange(0, k + 1).drop_last() =~= pre);
        assert(v@.subrange(0, k + 1).last() == v@[k as int]);
        proof {
            lemma_split_dots_nonempty(pre);
        }
        if v[k] == '.' {
            let done = cur;
            pieces.push(done);
            cur = String::new();
            assert(views(pieces@) + seq![cur@] =~= split_dots(pre).push(seq![]));
        } else {
            let ghost before = cur@;
            cur.push(v[k]);
            assert(views(pieces@) + seq![cur@] =~= split_dots(pre).update(
                split_dots(pre).len() - 1,
                split_dots(pre).last().push(v@[k as int]),
            ));
        }
        k = k + 1;
    }
    assert(v@.subrange(0, v@.len() as int) =~= v@);
    pieces.push(cur);
    assert(views(pieces@) =~= split_dots(name@));
    let ghost parts = name_parts(name@);
    let ghost q = quote_char(dialect);
    let ghost quoted_parts = parts.map_values(|p: Seq<char>| quoted(p, quote_char(dialect)));
    let qc = match dialect {
        SqlDialect::Mysql => '`',
        _ => '"',
    };
    let mut out = String::new();
    let mut i: usize = 0;
    assert(quoted_parts.subrange(0, 0) =~= seq![]);
    while i < pieces.len()
        invariant
            views(pieces@) == split_dots(name@),
            parts == name_parts(name@),
            quoted_parts == parts.map_values(|p: Seq<char>| quoted(p, quote_char(dialect))),
            qc == quote_char(dialect),
            i <= pieces@.len(),
            forall|j: int| 0 <= j < i ==> (#[trigger] parts[j]).len() > 0,
            out@ == join_with(quoted_parts.subrange(0, i as int), "."@),
        decreases pieces@.len() - i,
    {
        let t = trimmed(pieces[i].as_str());
        assert(t@ == parts[i as int]);
        if t.as_str().is_empty() {
            return None;
        }
        let qt = quote_with(t.as_str(), qc);
        proof {
            lemma_join_step(quoted_parts, i as int, "."@);
        }
        if i > 0 {
            out.append(".");
        }
        out.append(qt.as_str());
        i = i + 1;
    }
    assert(quoted_parts.subrange(0, pieces@.len() as int) =~= quoted_parts);
    Some(out)
}

} // verus!
