//! The audit trail: one JSON object per line for every answered request.
use crate::api::auth::filled;
use crate::api::auth::opt_view;
use crate::text;
use vstd::prelude::*;

verus! {

/// A record of one inference request.
#[derive(Debug, Clone, PartialEq, Eq)]
pub struct AuditEntry {
    /// A random UUID.
    pub id: String,
    /// When the request was recorded, in UTC, as RFC 3339.
    pub timestamp: String,
    /// The model that answered.
    pub model: String,
    /// The type of request (generate, chat, embedding).
    pub request_type: String,
    pub input_tokens: u32,
    pub output_tokens: u32,
    pub duration_ms: u64,
    /// The key that the request was made with.
    pub user_id: Option<String>,
}

pub open spec fn hex_digit(c: char) -> bool {
    text::is_digit(c) || 'a' <= c <= 'f'
}

/// The text of a random UUID: 32 hexadecimal digits in five groups, the version
/// 4 and the variant of RFC 4122.
pub open spec fn random_id(s: Seq<char>) -> bool {
    &&& s.len() == 36
    &&& s[8] == '-' && s[13] == '-' && s[18] == '-' && s[23] == '-'
    &&& s[14] == '4'
    &&& s[19] == '8' || s[19] == '9' || s[19] == 'a' || s[19] == 'b'
    &&& forall|i: int|
        0 <= i < 36 && i != 8 && i != 13 && i != 18 && i != 23 ==> hex_digit(#[trigger] s[i])
}

/// `uuid::Uuid::new_v4`, as text. Claimed of it: the text has the shape of a
/// version 4 UUID in lower case. Which one it is, is chance.
#[verifier::external_body]
pub(crate) fn fresh_id() -> (r: String)
    ensures
        random_id(r@),
{
    uuid::Uuid::new_v4().to_string()
}

/// `chrono::Utc::now`, written by `to_rfc3339`. Claimed of it: the text ends in
/// the offset of UTC. Which moment it names is the clock's matter.
#[verifier::external_body]
pub(crate) fn now_text() -> (r: String)
    ensures
        text::is_suffix("+00:00"@, r@),
{
    chrono::Utc::now().to_rfc3339()
}

impl AuditEntry {
    /// The record of a request that was given `id` at `timestamp`, nothing
    /// counted yet.
    pub open spec fn is_fresh(self, model: Seq<char>, request_type: Seq<char>) -> bool {
        &&& self.model@ == model
        &&& self.request_type@ == request_type
        &&& self.input_tokens == 0
        &&& self.output_tokens == 0
        &&& self.duration_ms == 0
        &&& self.user_id is None
    }

    /// A record under a fresh id, as of now.
    pub fn new(model: String, request_type: String) -> (r: Self)
        ensures
            r.is_fresh(model@, request_type@),
            random_id(r.id@),
            text::is_suffix("+00:00"@, r.timestamp@),
    {
        AuditEntry {
            id: fresh_id(),
            timestamp: now_text(),
            model,
            request_type,
            input_tokens: 0,
            output_tokens: 0,
            duration_ms: 0,
            user_id: None,
        }
    }

    /// The record with what the request came to.
    pub fn completed(
        self,
        input_tokens: u32,
        output_tokens: u32,
        duration_ms: u64,
        user_id: Option<String>,
    ) -> (r: Self)
        ensures
            r == (AuditEntry { input_tokens, output_tokens, duration_ms, user_id, ..self }),
    {
        AuditEntry {
            id: self.id,
            timestamp: self.timestamp,
            model: self.model,
            request_type: self.request_type,
            input_tokens,
            output_tokens,
            duration_ms,
            user_id,
        }
    }
}

/// `s` without its control characters.
pub open spec fn sanitized(s: Seq<char>) -> Seq<char> {
    s.filter(|c: char| !text::control(c))
}

/// Strips control characters, newlines among them, from text that a client
/// controls before it goes into a log line.
pub fn sanitize_for_log(s: &str) -> (r: String)
    ensures
        r@ == sanitized(s@),
{
    let c: Vec<char> = text::to_chars(s);
    let mut r: Vec<char> = Vec::new();
    let mut i: usize = 0;
    let ghost keep = |c: char| !text::control(c);
    proof {
        reveal(Seq::filter);
        assert(c@.take(0) =~= Seq::empty());
    }
    while i < c.len()
        invariant
            i <= c@.len(),
            keep == (|c: char| !text::control(c)),
            r@ == c@.take(i as int).filter(keep),
        decreases c.len() - i,
    {
        proof {
            reveal(Seq::filter);
            assert(c@.take(i + 1).drop_last() =~= c@.take(i as int));
        }
        if !text::is_control(c[i]) {
            r.push(c[i]);
        }
        i = i + 1;
    }
    assert(c@.take(i as int) =~= c@);
    text::from_chars(&r)
}

/// Nothing that a client sends can start a line of its own in the log.
pub proof fn law_a_log_line_cannot_be_forged(s: Seq<char>, i: int)
    requires
        0 <= i < sanitized(s).len(),
    ensures
        sanitized(s)[i] != '\n',
        sanitized(s)[i] != '\r',
        !text::control(sanitized(s)[i]),
{
    s.lemma_filter_pred(|c: char| !text::control(c), i);
}

/// A name under a directory.
pub open spec fn under(dir: Seq<char>, name: Seq<char>) -> Seq<char> {
    if dir.len() == 0 {
        name
    } else if dir.last() == '/' {
        dir + name
    } else {
        dir + "/"@ + name
    }
}

fn join(dir: &str, name: &str) -> (r: String)
    ensures
        r@ == under(dir@, name@),
{
    let c: Vec<char> = text::to_chars(dir);
    let mut r: String = text::copy_text(dir);
    if c.len() > 0 && c[c.len() - 1] != '/' {
        r.append("/");
    }
    r.append(name);
    assert(r@ =~= under(dir@, name@));
    r
}

/// Where the trail is kept: in the configured directory, blanks around its name
/// left out, or else in the home directory.
pub open spec fn trail_path(audit_dir: Option<Seq<char>>, home: Seq<char>) -> Seq<char> {
    match filled(audit_dir) {
        Some(d) => under(d, "audit.jsonl"@),
        None => under(under(under(home, ".eullm"@), "audit"@), "audit.jsonl"@),
    }
}

/// What an append-only file of records is written and read with.
#[derive(Debug, Clone, PartialEq, Eq)]
pub struct AuditLogger {
    pub log_path: String,
}

impl AuditLogger {
    /// A logger at the place that the environment gives.
    pub fn new(audit_dir: Option<&str>, home: &str) -> (r: Self)
        ensures
            r.log_path@ == trail_path(opt_view(audit_dir), home@),
    {
        AuditLogger { log_path: AuditLogger::resolve_path(audit_dir, home) }
    }

    /// A logger that writes to a path of the caller's.
    pub fn with_path(log_path: String) -> (r: Self)
        ensures
            r.log_path == log_path,
    {
        AuditLogger { log_path }
    }

    /// `$EULLM_AUDIT_DIR/audit.jsonl` where that variable is set and not blank,
    /// else `~/.eullm/audit/audit.jsonl`.
    pub fn resolve_path(audit_dir: Option<&str>, home: &str) -> (r: String)
        ensures
            r@ == trail_path(opt_view(audit_dir), home@),
    {
        match audit_dir {
            Some(d) => {
                let c: Vec<char> = text::to_chars(d);
                let t: &[char] = text::trim(&c);
                if t.len() > 0 {
                    let dir: String = text::from_chars(t);
                    return join(dir.as_str(), "audit.jsonl");
                }
            },
            None => {},
        }
        let a: String = join(home, ".eullm");
        let b: String = join(a.as_str(), "audit");
        join(b.as_str(), "audit.jsonl")
    }

    /// Whether the operator chose a place for the trail. One who did has said
    /// that the trail matters, and is not served without it.
    pub fn is_explicitly_configured(audit_dir: Option<&str>) -> (r: bool)
        ensures
            r == filled(opt_view(audit_dir)) is Some,
    {
        match audit_dir {
            Some(d) => {
                let c: Vec<char> = text::to_chars(d);
                text::trim(&c).len() > 0
            },
            None => false,
        }
    }

    pub fn log_path(&self) -> (r: &str)
        ensures
            r@ == self.log_path@,
    {
        self.log_path.as_str()
    }
}

/// The lines that hold something.
pub open spec fn filled_lines(lines: Seq<Seq<char>>) -> Seq<Seq<char>>
    decreases lines.len(),
{
    if lines.len() == 0 {
        Seq::empty()
    } else if text::trimmed(lines.last()).len() > 0 {
        filled_lines(lines.drop_last()).push(lines.last())
    } else {
        filled_lines(lines.drop_last())
    }
}

/// The records of a trail: its lines, blank ones left out.
pub open spec fn records(content: Seq<char>) -> Seq<Seq<char>> {
    filled_lines(text::lines_of(content))
}

/// The records in the text of a trail.
pub fn read_records(content: &str) -> (r: Vec<String>)
    ensures
        text::views(r@) == records(content@),
{
    let c: Vec<char> = text::to_chars(content);
    let lines: Vec<Vec<char>> = text::lines(&c);
    let ghost all = text::rows(lines@);
    let mut r: Vec<String> = Vec::new();
    let mut i: usize = 0;
    assert(all.take(0) =~= Seq::empty());
    assert(text::views(r@) =~= Seq::empty());
    while i < lines.len()
        invariant
            i <= lines@.len(),
            all == text::rows(lines@),
            text::views(r@) == filled_lines(all.take(i as int)),
        decreases lines.len() - i,
    {
        proof {
            assert(all.take(i + 1).drop_last() =~= all.take(i as int));
            assert(all[i as int] == lines@[i as int]@);
        }
        if text::trim(&lines[i]).len() > 0 {
            let ghost before = r@;
            r.push(text::from_chars(&lines[i]));
            assert(text::views(r@) =~= text::views(before).push(all[i as int]));
        }
        i = i + 1;
    }
    assert(all.take(i as int) =~= all);
    r
}

/// How many records a trail holds.
pub fn count_records(content: &str) -> (r: u64)
    ensures
        r == records(content@).len(),
{
    let r: Vec<String> = read_records(content);
    assert(text::views(r@).len() == r@.len());
    r.len() as u64
}

/// The trail that appending the given records, one after the other, leaves: each
/// as a line, written in one piece, so that two writers cannot come between.
pub open spec fn trail(entries: Seq<Seq<char>>) -> Seq<char>
    decreases entries.len(),
{
    if entries.len() == 0 {
        Seq::empty()
    } else {
        trail(entries.drop_last()) + entries.last().push('\n')
    }
}

/// A record that keeps to its line: it holds no line end, and not only blanks.
pub open spec fn one_line(s: Seq<char>) -> bool {
    &&& forall|i: int| 0 <= i < s.len() ==> s[i] != '\n' && s[i] != '\r'
    &&& text::trimmed(s).len() > 0
}

proof fn lemma_pieces_append(s: Seq<char>, line: Seq<char>)
    requires
        forall|i: int| 0 <= i < line.len() ==> line[i] != '\n',
    ensures
        text::pieces(s + line.push('\n'), '\n') == text::pieces(s, '\n').drop_last().push(
            text::pieces(s, '\n').last() + line,
        ).push(Seq::empty()),
        text::pieces(s, '\n').len() > 0,
    decreases s.len(),
{
    let whole = s + line.push('\n');
    let i = text::index_of(s, '\n');
    text::lemma_index_of(s, '\n');
    if i < s.len() {
        text::lemma_index_of_is(whole, '\n', i);
        assert(whole.take(i) =~= s.take(i));
        assert(whole.skip(i + 1) =~= s.skip(i + 1) + line.push('\n'));
        lemma_pieces_append(s.skip(i + 1), line);
        let p = text::pieces(s.skip(i + 1), '\n');
        assert(text::pieces(s, '\n') == seq![s.take(i)] + p);
        assert((seq![s.take(i)] + p).drop_last() =~= seq![s.take(i)] + p.drop_last());
        assert(text::pieces(whole, '\n') =~= text::pieces(s, '\n').drop_last().push(
            text::pieces(s, '\n').last() + line,
        ).push(Seq::empty()));
    } else {
        text::lemma_index_of_is(whole, '\n', (s.len() + line.len()) as int);
        assert(whole.take((s.len() + line.len()) as int) =~= s + line);
        assert(whole.skip((s.len() + line.len()) as int + 1) =~= Seq::empty());
        let none = Seq::<char>::empty();
        assert(text::pieces(none, '\n') =~= seq![none]);
        assert(text::pieces(s, '\n') =~= seq![s]);
        assert(text::pieces(whole, '\n') =~= text::pieces(s, '\n').drop_last().push(
            text::pieces(s, '\n').last() + line,
        ).push(Seq::empty()));
    }
}

proof fn lemma_trail(entries: Seq<Seq<char>>)
    requires
        forall|i: int| 0 <= i < entries.len() ==> one_line(#[trigger] entries[i]),
    ensures
        text::pieces(trail(entries), '\n') == entries.push(Seq::empty()),
    decreases entries.len(),
{
    if entries.len() == 0 {
        let none = Seq::<char>::empty();
        assert(text::pieces(none, '\n') =~= seq![none]);
        assert(entries.push(none) =~= seq![none]);
    } else {
        let before = entries.drop_last();
        let line = entries.last();
        assert forall|i: int| 0 <= i < before.len() implies one_line(#[trigger] before[i]) by {
            assert(one_line(entries[i]));
        }
        lemma_trail(before);
        assert(one_line(entries[entries.len() - 1]));
        lemma_pieces_append(trail(before), line);
        let p = before.push(Seq::empty());
        assert(p.drop_last() =~= before);
        assert(p.last() + line =~= line);
        assert(before.push(line) =~= entries);
    }
}

proof fn lemma_all_filled(entries: Seq<Seq<char>>)
    requires
        forall|i: int| 0 <= i < entries.len() ==> one_line(#[trigger] entries[i]),
    ensures
        filled_lines(entries) == entries,
    decreases entries.len(),
{
    if entries.len() > 0 {
        let before = entries.drop_last();
        assert forall|i: int| 0 <= i < before.len() implies one_line(#[trigger] before[i]) by {
            assert(one_line(entries[i]));
        }
        lemma_all_filled(before);
        assert(one_line(entries[entries.len() - 1]));
        assert(before.push(entries.last()) =~= entries);
    }
}

/// What is appended is read back: every record, intact, in order, on its own
/// line.
pub proof fn law_the_trail_gives_back_its_records(entries: Seq<Seq<char>>)
    requires
        forall|i: int| 0 <= i < entries.len() ==> one_line(#[trigger] entries[i]),
    ensures
        records(trail(entries)) == entries,
{
    lemma_trail(entries);
    let p = entries.push(Seq::<char>::empty());
    assert(p.drop_last() =~= entries);
    let ended = entries.map_values(|l: Seq<char>| text::without_last(l, '\r'));
    assert forall|i: int| 0 <= i < entries.len() implies ended[i] == entries[i] by {
        assert(one_line(entries[i]));
    }
    assert(ended =~= entries);
    lemma_all_filled(entries);
}

/// Of a text that goes into the log nothing but its control characters is lost.
pub proof fn law_only_control_characters_are_lost(s: Seq<char>, c: char)
    ensures
        text::control(c) ==> sanitized(s.push(c)) == sanitized(s),
        !text::control(c) ==> sanitized(s.push(c)) == sanitized(s).push(c),
        sanitized(Seq::empty()).len() == 0,
        text::control('\n') && text::control('\r') && text::control('\u{1b}') && text::control(
            '\u{7f}',
        ) && text::control('\u{85}'),
        !text::control(' ') && !text::control('a') && !text::control('é'),
{
    reveal(Seq::filter);
    assert(s.push(c).drop_last() =~= s);
}

/// The trail is `audit.jsonl` in the configured directory, or in `.eullm/audit`
/// at home.
pub proof fn law_the_trail_is_where_it_was_configured(dir: Seq<char>, home: Seq<char>)
    requires
        0 < dir.len(),
        text::trimmed(dir) == dir,
        dir.last() != '/',
        0 < home.len(),
        home.last() != '/',
    ensures
        trail_path(Some(dir), home) == dir + "/audit.jsonl"@,
        trail_path(None, home) == home + "/.eullm/audit/audit.jsonl"@,
{
    reveal_strlit("/");
    reveal_strlit("audit.jsonl");
    reveal_strlit("/audit.jsonl");
    reveal_strlit(".eullm");
    reveal_strlit("audit");
    reveal_strlit("/.eullm/audit/audit.jsonl");
    assert(trail_path(Some(dir), home) =~= dir + "/audit.jsonl"@);
    let a = under(home, ".eullm"@);
    let b = under(a, "audit"@);
    assert(a.last() == 'm');
    assert(b.last() == 't');
    assert(trail_path(None, home) =~= home + "/.eullm/audit/audit.jsonl"@);
}

} // verus!
