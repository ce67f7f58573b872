//! The session record: one conversation's durable state.

use vstd::prelude::*;
use vstd::string::*;
use crate::text::{clean_text, cleaned, ellipsis};

verus! {

/// One turn of the conversation, seen from the user's side.
#[derive(Debug, Clone, PartialEq, Eq)]
pub struct Turn {
    /// What the user typed; `None` for a turn driven by tool results.
    pub prompt: Option<String>,
}

/// One conversation: its identifier, its turns and its rendered transcript.
#[derive(Debug, Clone, PartialEq, Eq)]
pub struct SessionRecord {
    pub id: String,
    pub history: Vec<Turn>,
    pub transcript: Vec<String>,
}

/// The mathematical content of a `SessionRecord`.
pub ghost struct RecordView {
    pub id: Seq<char>,
    pub prompts: Seq<Option<Seq<char>>>,
    pub transcript: Seq<Seq<char>>,
}

pub open spec fn opt_view(o: Option<String>) -> Option<Seq<char>> {
    match o {
        Some(s) => Some(s@),
        None => None,
    }
}

impl View for Turn {
    type V = Option<Seq<char>>;

    open spec fn view(&self) -> Option<Seq<char>> {
        opt_view(self.prompt)
    }
}

impl View for SessionRecord {
    type V = RecordView;

    open spec fn view(&self) -> RecordView {
        RecordView {
            id: self.id@,
            prompts: self.history@.map_values(|t: Turn| t@),
            transcript: self.transcript@.map_values(|e: String| e@),
        }
    }
}

/// At most 50 characters: a longer text is cut to 47 and marked with `...`.
pub open spec fn capped(s: Seq<char>) -> Seq<char> {
    if s.len() > 50 {
        s.take(47) + ellipsis()
    } else {
        s
    }
}

/// The one-line preview of a conversation: its first prompt, cleaned and
/// capped, or a placeholder for a tool-driven first turn or an empty history.
pub open spec fn preview_of(r: RecordView) -> Seq<char> {
    if r.prompts.len() == 0 {
        "Empty conversation"@
    } else {
        match r.prompts[0] {
            Some(p) => capped(cleaned(p)),
            None => "Tool use conversation"@,
        }
    }
}

/// Cuts `s` to the preview width (see `capped`).
pub fn cap_text(s: String) -> (r: String)
    ensures
        r@ == capped(s@),
{
    if s.as_str().unicode_len() > 50 {
        let mut r = String::from_str(s.as_str().substring_char(0, 47));
        proof {
            reveal_strlit("...");
        }
        r.append("...");
        r
    } else {
        s
    }
}

impl Turn {
    pub fn duplicate(&self) -> (r: Turn)
        ensures
            r@ == self@,
    {
        match &self.prompt {
            Some(p) => Turn { prompt: Some(p.clone()) },
            None => Turn { prompt: None },
        }
    }
}

impl SessionRecord {
    /// The conversation's identifier.
    pub fn conversation_id(&self) -> (r: &str)
        ensures
            r@ == self@.id,
    {
        self.id.as_str()
    }

    /// A copy with the same content.
    pub fn duplicate(&self) -> (r: SessionRecord)
        ensures
            r@ == self@,
    {
        let mut history: Vec<Turn> = Vec::new();
        let mut i: usize = 0;
        while i < self.history.len()
            invariant
                i <= self.history@.len(),
                history@.len() == i,
                forall|j: int| 0 <= j < i ==> #[trigger] history@[j]@ == self.history@[j]@,
            decreases self.history.len() - i,
        {
            history.push(self.history[i].duplicate());
            i += 1;
        }
        let mut transcript: Vec<String> = Vec::new();
        let mut k: usize = 0;
        while k < self.transcript.len()
            invariant
                k <= self.transcript@.len(),
                transcript@.len() == k,
                forall|j: int| 0 <= j < k ==> #[trigger] transcript@[j]@ == self.transcript@[j]@,
            decreases self.transcript.len() - k,
        {
            transcript.push(self.transcript[k].clone());
            k += 1;
        }
        let r = SessionRecord { id: self.id.clone(), history, transcript };
        assert(r@.prompts =~= self@.prompts);
        assert(r@.transcript =~= self@.transcript);
        r
    }
}

/// The preview shown for a conversation in listings (see `preview_of`).
pub fn extract_preview(state: &SessionRecord) -> (r: String)
    ensures
        r@ == preview_of(state@),
{
    if state.history.len() == 0 {
        return String::from_str("Empty conversation");
    }
    match &state.history[0].prompt {
        Some(p) => cap_text(clean_text(p.as_str())),
        None => String::from_str("Tool use conversation"),
    }
}

} // verus!
