//! Rendering a record for export, and the export decision.

use vstd::prelude::*;
use vstd::string::*;
use crate::clock::{now_unix_seconds, readable_utc, readable_utc_stamp};
use crate::record::{RecordView, SessionRecord};
use crate::store::{resolve, Database};
use crate::text::push_char;

verus! {

/// The shapes a record can be exported in.
#[derive(Debug, Clone, Copy, PartialEq, Eq, Structural)]
pub enum ExportFormat {
    /// The record's own lossless encoding, which the chat session can load.
    Json,
    /// Markdown for readable documentation.
    Markdown,
    /// Plain text for simple reading.
    Text,
}

/// The decimal digit `d`.
pub open spec fn digit(d: nat) -> char {
    "0123456789"@[d as int]
}

/// The decimal numeral of `n`.
pub open spec fn decimal(n: nat) -> Seq<char>
    decreases n,
{
    if n < 10 {
        seq![digit(n)]
    } else {
        decimal(n / 10).push(digit(n % 10))
    }
}

/// The decimal numeral of `n`.
pub fn decimal_text(n: usize) -> (r: String)
    ensures
        r@ == decimal(n as nat),
    decreases n,
{
    proof {
        reveal_strlit("0123456789");
    }
    if n < 10 {
        let mut r = String::new();
        push_char(&mut r, "0123456789".get_char(n));
        assert(r@ =~= decimal(n as nat));
        r
    } else {
        let mut r = decimal_text(n / 10);
        push_char(&mut r, "0123456789".get_char(n % 10));
        r
    }
}

/// A transcript entry written by the user starts with `>`.
pub open spec fn is_user_entry(e: Seq<char>) -> bool {
    e.len() > 0 && e[0] == '>'
}

/// `e` without its leading `>` marks.
pub open spec fn strip_markers(e: Seq<char>) -> Seq<char>
    decreases e.len(),
{
    if e.len() > 0 && e[0] == '>' {
        strip_markers(e.drop_first())
    } else {
        e
    }
}

/// The number of the exchange that transcript entry `i` belongs to.
pub open spec fn exchange_number(i: nat) -> nat {
    i / 2 + 1
}

/// The Markdown header of an export.
pub open spec fn markdown_header(r: RecordView, path: Seq<char>, stamp: Seq<char>) -> Seq<char> {
    "# Conversation Export\n\n**Conversation ID:** `"@ + r.id + "`\n**Original Directory:** `"@
        + path + "`\n**Messages:** "@ + decimal(r.prompts.len()) + "\n**Exported:** "@ + stamp
        + "\n\n---\n\n"@
}

/// The Markdown section of transcript entry `i`.
pub open spec fn markdown_section(i: nat, e: Seq<char>) -> Seq<char> {
    if is_user_entry(e) {
        "## User Message "@ + decimal(exchange_number(i)) + "\n\n```\n"@ + strip_markers(e)
            + "\n```\n\n"@
    } else {
        "## Assistant Response "@ + decimal(exchange_number(i)) + "\n\n"@ + e + "\n\n"@
    }
}

/// The plain-text section of transcript entry `i`, with its closing rule.
pub open spec fn text_section(i: nat, e: Seq<char>) -> Seq<char> {
    (if is_user_entry(e) {
        "USER MESSAGE "@ + decimal(exchange_number(i)) + ":\n"@ + strip_markers(e) + "\n\n"@
    } else {
        "ASSISTANT RESPONSE "@ + decimal(exchange_number(i)) + ":\n"@ + e + "\n\n"@
    }) + rule(40) + "\n\n"@
}

/// A horizontal rule of `n` box-drawing characters.
pub open spec fn rule(n: nat) -> Seq<char> {
    Seq::new(n, |i: int| '\u{2500}')
}

/// The plain-text header of an export.
pub open spec fn text_header(r: RecordView, path: Seq<char>, stamp: Seq<char>) -> Seq<char> {
    "CONVERSATION EXPORT\n==================\n\nConversation ID: "@ + r.id
        + "\nOriginal Directory: "@ + path + "\nMessages: "@ + decimal(r.prompts.len())
        + "\nExported: "@ + stamp + "\n\n"@ + rule(80) + "\n\n"@
}

/// The sections of the first `n` transcript entries, Markdown or plain text.
pub open spec fn sections(ts: Seq<Seq<char>>, n: nat, markdown: bool) -> Seq<char>
    decreases n,
{
    if n == 0 {
        Seq::empty()
    } else {
        sections(ts, (n - 1) as nat, markdown) + if markdown {
            markdown_section((n - 1) as nat, ts[n - 1])
        } else {
            text_section((n - 1) as nat, ts[n - 1])
        }
    }
}

/// The Markdown export of `r`, found at `path` and exported at `stamp`.
pub open spec fn markdown_of(r: RecordView, path: Seq<char>, stamp: Seq<char>) -> Seq<char> {
    markdown_header(r, path, stamp) + sections(r.transcript, r.transcript.len(), true)
}

/// The plain-text export of `r`, found at `path` and exported at `stamp`.
pub open spec fn text_of(r: RecordView, path: Seq<char>, stamp: Seq<char>) -> Seq<char> {
    text_header(r, path, stamp) + sections(r.transcript, r.transcript.len(), false)
}

/// Appends `n` box-drawing characters.
fn push_rule(s: &mut String, n: usize)
    ensures
        final(s)@ == old(s)@ + rule(n as nat),
{
    let ghost start = s@;
    let mut i: usize = 0;
    while i < n
        invariant
            i <= n,
            s@ == start + rule(i as nat),
        decreases n - i,
    {
        push_char(s, '\u{2500}');
        i += 1;
        assert(s@ =~= start + rule(i as nat));
    }
}

/// `e` without its leading `>` marks.
fn strip_markers_text(e: &str) -> (r: String)
    ensures
        r@ == strip_markers(e@),
{
    let n = e.unicode_len();
    let mut i: usize = 0;
    assert(e@.skip(0) =~= e@);
    while i < n && e.get_char(i) == '>'
        invariant
            i <= n,
            n == e@.len(),
            strip_markers(e@) == strip_markers(e@.skip(i as int)),
        decreases n - i,
    {
        assert(e@.skip(i as int).drop_first() =~= e@.skip(i + 1 as int));
        i += 1;
    }
    String::from_str(e.substring_char(i, n))
}

/// Appends the section of transcript entry `i`.
fn push_section(s: &mut String, i: usize, e: &str, markdown: bool)
    requires
        i < usize::MAX,
    ensures
        final(s)@ == old(s)@ + if markdown {
            markdown_section(i as nat, e@)
        } else {
            text_section(i as nat, e@)
        },
{
    let user = e.unicode_len() > 0 && e.get_char(0) == '>';
    let num = decimal_text(i / 2 + 1);
    if markdown {
        if user {
            s.append("## User Message ");
            s.append(num.as_str());
            s.append("\n\n```\n");
            s.append(strip_markers_text(e).as_str());
            s.append("\n```\n\n");
        } else {
            s.append("## Assistant Response ");
            s.append(num.as_str());
            s.append("\n\n");
            s.append(e);
            s.append("\n\n");
        }
    } else {
        if user {
            s.append("USER MESSAGE ");
            s.append(num.as_str());
            s.append(":\n");
            s.append(strip_markers_text(e).as_str());
            s.append("\n\n");
        } else {
            s.append("ASSISTANT RESPONSE ");
            s.append(num.as_str());
            s.append(":\n");
            s.append(e);
            s.append("\n\n");
        }
        push_rule(s, 40);
        s.append("\n\n");
    }
    assert(s@ =~= old(s)@ + if markdown {
        markdown_section(i as nat, e@)
    } else {
        text_section(i as nat, e@)
    });
}

/// Appends the sections of all transcript entries of `state`.
fn push_sections(s: &mut String, state: &SessionRecord, markdown: bool)
    ensures
        final(s)@ == old(s)@ + sections(state@.transcript, state@.transcript.len(), markdown),
{
    let ghost start = s@;
    let mut i: usize = 0;
    while i < state.transcript.len()
        invariant
            i <= state@.transcript.len(),
            s@ == start + sections(state@.transcript, i as nat, markdown),
        decreases state.transcript.len() - i,
    {
        push_section(s, i, state.transcript[i].as_str(), markdown);
        i += 1;
        assert(s@ =~= start + sections(state@.transcript, i as nat, markdown));
    }
}

/// The Markdown export of `state` (see `markdown_of`).
pub fn format_conversation_as_markdown(state: &SessionRecord, original_path: &str, exported_at: &str) -> (r:
    String)
    ensures
        r@ == markdown_of(state@, original_path@, exported_at@),
{
    let mut s = String::new();
    s.append("# Conversation Export\n\n**Conversation ID:** `");
    s.append(state.conversation_id());
    s.append("`\n**Original Directory:** `");
    s.append(original_path);
    s.append("`\n**Messages:** ");
    s.append(decimal_text(state.history.len()).as_str());
    s.append("\n**Exported:** ");
    s.append(exported_at);
    s.append("\n\n---\n\n");
    assert(s@ =~= markdown_header(state@, original_path@, exported_at@));
    push_sections(&mut s, state, true);
    s
}

/// The plain-text export of `state` (see `text_of`).
pub fn format_conversation_as_text(state: &SessionRecord, original_path: &str, exported_at: &str) -> (r:
    String)
    ensures
        r@ == text_of(state@, original_path@, exported_at@),
{
    let mut s = String::new();
    s.append("CONVERSATION EXPORT\n==================\n\nConversation ID: ");
    s.append(state.conversation_id());
    s.append("\nOriginal Directory: ");
    s.append(original_path);
    s.append("\nMessages: ");
    s.append(decimal_text(state.history.len()).as_str());
    s.append("\nExported: ");
    s.append(exported_at);
    s.append("\n\n");
    push_rule(&mut s, 80);
    s.append("\n\n");
    assert(s@ =~= text_header(state@, original_path@, exported_at@));
    push_sections(&mut s, state, false);
    s
}

/// Why an export produced nothing.
#[derive(Debug, Clone, Copy, PartialEq, Eq)]
pub enum ExportError {
    /// No record's identifier starts with the given fragment.
    NotFound,
    /// The destination exists and overwriting it was not asked for.
    DestinationExists,
    /// The clock gave no time to stamp the export with.
    ClockUnavailable,
}

/// What to write for an export: the record and where it was found, and its
/// rendering, which is `None` for the record's own encoding.
#[derive(Debug, Clone)]
pub struct ExportPlan {
    pub original_path: String,
    pub record: SessionRecord,
    pub rendered: Option<String>,
}

/// The rendering of `r` in `format`; `None` for the record's own encoding.
pub open spec fn rendering(format: ExportFormat, r: RecordView, path: Seq<char>, stamp: Seq<char>) -> Option<
    Seq<char>,
> {
    match format {
        ExportFormat::Json => None,
        ExportFormat::Markdown => Some(markdown_of(r, path, stamp)),
        ExportFormat::Text => Some(text_of(r, path, stamp)),
    }
}

/// What an export of the record that `id` resolves to in `db` returns.
pub open spec fn export_result(
    db: Database,
    id: Seq<char>,
    format: ExportFormat,
    destination_exists: bool,
    force: bool,
    stamp: Seq<char>,
    r: Result<ExportPlan, ExportError>,
) -> bool {
    match resolve(db.view(), id) {
        None => r == Err::<ExportPlan, ExportError>(ExportError::NotFound),
        Some(j) => if destination_exists && !force {
            r == Err::<ExportPlan, ExportError>(ExportError::DestinationExists)
        } else {
            &&& r is Ok
            &&& r->Ok_0.original_path@ == db.view()[j].0
            &&& Some(r->Ok_0.record@) == db.view()[j].1
            &&& match r->Ok_0.rendered {
                Some(t) => Some(t@),
                None => None,
            } == rendering(format, db.view()[j].1->0, db.view()[j].0, stamp)
        },
    }
}

/// Exports the record that `id` resolves to, stamped `exported_at`, unless
/// the destination exists and `force` is not set (see `export_result`).
pub fn export_conversation_at(
    db: &Database,
    id: &str,
    format: ExportFormat,
    destination_exists: bool,
    force: bool,
    exported_at: &str,
) -> (r: Result<ExportPlan, ExportError>)
    ensures
        export_result(*db, id@, format, destination_exists, force, exported_at@, r),
{
    let (original_path, record) = match db.get_conversation_by_id(id) {
        Some(found) => found,
        None => {
            return Err(ExportError::NotFound);
        },
    };
    if destination_exists && !force {
        return Err(ExportError::DestinationExists);
    }
    let rendered = match format {
        ExportFormat::Json => None,
        ExportFormat::Markdown => Some(
            format_conversation_as_markdown(&record, original_path.as_str(), exported_at),
        ),
        ExportFormat::Text => Some(
            format_conversation_as_text(&record, original_path.as_str(), exported_at),
        ),
    };
    Ok(ExportPlan { original_path, record, rendered })
}

/// Exports the record that `id` resolves to, unless the destination exists
/// and `force` is not set. Markdown and plain text are stamped with the
/// current UTC time; the clock is read only for them.
pub fn export_conversation(
    db: &Database,
    id: &str,
    format: ExportFormat,
    destination_exists: bool,
    force: bool,
) -> (r: Result<ExportPlan, ExportError>)
    ensures
        match resolve(db.view(), id@) {
            None => r == Err::<ExportPlan, ExportError>(ExportError::NotFound),
            Some(j) => if destination_exists && !force {
                r == Err::<ExportPlan, ExportError>(ExportError::DestinationExists)
            } else if format == ExportFormat::Json {
                export_result(*db, id@, format, destination_exists, force, Seq::empty(), r)
            } else {
                r == Err::<ExportPlan, ExportError>(ExportError::ClockUnavailable) || exists|
                    secs: int,
                | export_result(*db, id@, format, destination_exists, force, readable_utc(secs), r)
            },
        },
{
    match db.get_conversation_by_id(id) {
        None => {
            return Err(ExportError::NotFound);
        },
        Some(_) => {},
    }
    if destination_exists && !force {
        return Err(ExportError::DestinationExists);
    }
    if let ExportFormat::Json = format {
        return export_conversation_at(db, id, format, destination_exists, force, "");
    }
    let now = match now_unix_seconds() {
        Some(t) => t,
        None => {
            return Err(ExportError::ClockUnavailable);
        },
    };
    match readable_utc_stamp(now) {
        Some(stamp) => export_conversation_at(db, id, format, destination_exists, force, stamp.as_str()),
        None => Err(ExportError::ClockUnavailable),
    }
}

} // verus!
