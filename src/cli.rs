//! The history commands and their table output.

use vstd::prelude::*;
use vstd::string::*;
use crate::export::ExportFormat;
use crate::store::{ConversationSummary, SummaryView};
use crate::text::{fit_path, fit_width, home_relative, spaces, truncate_path, truncate_string};

verus! {

/// The `history` command with its subcommand.
#[derive(Debug, Clone, PartialEq, Eq)]
pub struct HistoryArgs {
    pub command: HistoryCommands,
}

/// What the `history` command can do.
#[derive(Debug, Clone, PartialEq, Eq)]
pub enum HistoryCommands {
    /// List recent conversations.
    List { limit: usize, path: Option<String>, contains: Option<String> },
    /// Show a specific conversation.
    Show { id: String },
    /// Restore a conversation to the current directory.
    Restore { id: String },
    /// Search conversations by content.
    Search { query: String, limit: usize },
    /// Export a conversation to a file.
    Export { id: String, output: String, format: ExportFormat, force: bool },
}

/// `s` padded with spaces to at least `w` characters.
pub open spec fn padded(s: Seq<char>, w: nat) -> Seq<char> {
    if s.len() >= w {
        s
    } else {
        s + spaces((w - s.len()) as nat)
    }
}

/// At most the first 8 characters of an identifier.
pub open spec fn short_id(id: Seq<char>) -> Seq<char> {
    if id.len() > 8 {
        id.take(8)
    } else {
        id
    }
}

/// One row of the conversations table: short identifier, date, path with
/// the home directory as `~`, and preview, each in its fixed-width column.
pub open spec fn table_row(s: SummaryView, date: Seq<char>, home: Option<Seq<char>>) -> Seq<char> {
    "\u{2502} "@ + fit_width(short_id(s.id), 8) + " \u{2502} "@ + padded(date, 19) + " \u{2502} "@
        + fit_path(home_relative(s.path, home), 48) + " \u{2502} "@ + fit_width(s.preview, 35)
        + " \u{2502}"@
}

/// The table row of `summary`, dated `date` (see `table_row`).
pub fn format_summary_row(summary: &ConversationSummary, date: &str, home: Option<&str>) -> (r: String)
    ensures
        r@ == table_row(
            summary@,
            date@,
            match home {
                Some(h) => Some(h@),
                None => None,
            },
        ),
{
    let id = summary.id.as_str();
    let n = id.unicode_len();
    let short = if n > 8 {
        id.substring_char(0, 8)
    } else {
        id
    };
    assert(short@ == short_id(summary@.id)) by {
        if n <= 8 {
            assert(id@ =~= short_id(summary@.id));
        }
    }
    let mut r = String::new();
    r.append("\u{2502} ");
    r.append(truncate_string(short, 8).as_str());
    r.append(" \u{2502} ");
    r.append(date);
    let dn = date.unicode_len();
    let mut k: usize = dn;
    let ghost before = r@;
    while k < 19
        invariant
            dn <= k,
            dn == date@.len(),
            k <= 19 || k == dn,
            r@ == before + spaces((k - dn) as nat),
        decreases 19 - k,
    {
        r.append(" ");
        proof {
            reveal_strlit(" ");
        }
        k += 1;
        assert(r@ =~= before + spaces((k - dn) as nat));
    }
    r.append(" \u{2502} ");
    r.append(truncate_path(summary.path.as_str(), 48, home).as_str());
    r.append(" \u{2502} ");
    r.append(truncate_string(summary.preview.as_str(), 35).as_str());
    r.append(" \u{2502}");
    assert(r@ =~= table_row(
        summary@,
        date@,
        match home {
            Some(h) => Some(h@),
            None => None,
        },
    ));
    r
}

} // verus!
