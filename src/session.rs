//! Chat sessions rendered as context text for `chat://` variables.
use vstd::prelude::*;
use vstd::string::StringExecFns;
use crate::text::{text_eq, trim, trimmed};

verus! {

#[derive(Debug)]
pub struct SessionMessage {
    pub role: String,
    pub content: String,
    pub created_at: String,
}

#[derive(Debug)]
pub struct Session {
    pub id: String,
    pub name: String,
    pub messages: Vec<SessionMessage>,
    pub updated_at: String,
}

/// The tag a role is shown with; unknown roles are shown as they are.
pub open spec fn role_label(role: Seq<char>) -> Seq<char> {
    if role == "user"@ {
        "[User]"@
    } else if role == "assistant"@ {
        "[Assistant]"@
    } else if role == "system"@ {
        "[System]"@
    } else if role == "tool"@ {
        "[Tool]"@
    } else {
        role
    }
}

pub open spec fn message_line(m: SessionMessage) -> Seq<char> {
    role_label(m.role@) + ": "@ + trim(m.content@) + "\n"@
}

pub open spec fn lines_of(ms: Seq<SessionMessage>) -> Seq<char>
    decreases ms.len(),
{
    if ms.len() == 0 {
        seq![]
    } else {
        lines_of(ms.drop_last()) + message_line(ms.last())
    }
}

/// The text of the last `max` messages (at most 200), one line each, trimmed.
pub open spec fn session_text(ms: Seq<SessionMessage>, max: nat) -> Seq<char> {
    let cap = if max < 200 {
        max
    } else {
        200
    };
    let start = if ms.len() > cap {
        ms.len() - cap
    } else {
        0
    };
    trim(lines_of(ms.subrange(start as int, ms.len() as int)))
}

fn role_tag(role: &str) -> (r: String)
    ensures
        r@ == role_label(role@),
{
    if text_eq(role, "user") {
        "[User]".to_owned()
    } else if text_eq(role, "assistant") {
        "[Assistant]".to_owned()
    } else if text_eq(role, "system") {
        "[System]".to_owned()
    } else if text_eq(role, "tool") {
        "[Tool]".to_owned()
    } else {
        role.to_owned()
    }
}

/// Renders the last `max_messages` messages of `s` (never more than 200) as
/// `[Role]: content` lines, trimmed as a whole.
pub fn render_session_as_text(s: &Session, max_messages: usize) -> (r: String)
    ensures
        r@ == session_text(s.messages@, max_messages as nat),
{
    let max: usize = if max_messages < 200 {
        max_messages
    } else {
        200
    };
    let n = s.messages.len();
    let start: usize = if n > max {
        n - max
    } else {
        0
    };
    let ghost ms = s.messages@.subrange(start as int, n as int);
    let mut out = String::new();
    let mut k: usize = start;
    assert(ms.subrange(0, 0) =~= seq![]);
    while k < n
        invariant
            start <= k <= n,
            n == s.messages@.len(),
            ms == s.messages@.subrange(start as int, n as int),
            out@ == lines_of(ms.subrange(0, k - start)),
        decreases n - k,
    {
        let m = &s.messages[k];
        out.append(role_tag(m.role.as_str()).as_str());
        out.append(": ");
        out.append(trimmed(m.content.as_str()).as_str());
        out.append("\n");
        assert(ms.subrange(0, k - start + 1).drop_last() =~= ms.subrange(0, k - start));
        assert(ms[k - start] == s.messages@[k as int]);
        k = k + 1;
    }
    assert(ms.subrange(0, n - start) =~= ms);
    trimmed(out.as_str())
}

} // verus!
