//! Case-insensitive content search over conversation records.

use vstd::prelude::*;
use vstd::string::*;
use crate::record::{RecordView, SessionRecord, extract_preview, preview_of};
use crate::text::{chars_of, clean_text, cleaned, ellipsis};

verus! {

/// What `str::to_lowercase` makes of a text.
pub uninterp spec fn lower_of(s: Seq<char>) -> Seq<char>;

/// Relies on `str::to_lowercase`: the lower-case form of a text depends on its
/// characters alone.
#[verifier::external_body]
fn lowercase(s: &str) -> (r: String)
    ensures
        r@ == lower_of(s@),
        s@.len() == 0 ==> r@.len() == 0,
{
    s.to_lowercase()
}

/// `n` stands in `h` at index `i`.
pub open spec fn occurs_at(h: Seq<char>, n: Seq<char>, i: int) -> bool {
    0 <= i && i + n.len() <= h.len() && h.subrange(i, i + n.len()) == n
}

/// The first index at or after `i` at which `n` stands in `h`.
pub open spec fn first_match_from(h: Seq<char>, n: Seq<char>, i: int) -> Option<int>
    decreases h.len() + 1 - i,
{
    if i < 0 || i + n.len() > h.len() {
        None
    } else if occurs_at(h, n, i) {
        Some(i)
    } else {
        first_match_from(h, n, i + 1)
    }
}

/// The first index at which `n` stands in `h`.
pub open spec fn first_match(h: Seq<char>, n: Seq<char>) -> Option<int> {
    first_match_from(h, n, 0)
}

/// The stretch of `e` from 20 characters before a match at `pos` of length
/// `qlen` to 20 characters after it, clamped to `e`.
pub open spec fn window(e: Seq<char>, pos: int, qlen: int) -> Seq<char> {
    let end = if pos + qlen + 20 < e.len() {
        pos + qlen + 20
    } else {
        e.len() as int
    };
    let from = if pos >= 20 {
        pos - 20
    } else {
        0
    };
    let start = if from < end {
        from
    } else {
        end
    };
    e.subrange(start, end)
}

/// A context excerpt between two `...` marks, with at most 50 characters of
/// content (a longer one is cut to 47).
pub open spec fn framed(c: Seq<char>) -> Seq<char> {
    ellipsis() + (if c.len() > 50 {
        c.take(47)
    } else {
        c
    }) + ellipsis()
}

/// The excerpt shown for a match at `pos` of a query of length `qlen` in `e`.
pub open spec fn window_preview(e: Seq<char>, pos: int, qlen: int) -> Seq<char> {
    framed(cleaned(window(e, pos, qlen)))
}

/// The excerpt for the first of `ts[i..]` whose lower-case form holds `q`.
pub open spec fn transcript_hit(ts: Seq<Seq<char>>, q: Seq<char>, i: int) -> Option<Seq<char>>
    decreases ts.len() - i,
{
    if i < 0 || i >= ts.len() {
        None
    } else {
        match first_match(lower_of(ts[i]), q) {
            Some(p) => Some(window_preview(ts[i], p, q.len() as int)),
            None => transcript_hit(ts, q, i + 1),
        }
    }
}

/// The excerpt for the first prompt of `ps[i..]` whose lower-case form holds `q`.
pub open spec fn prompt_hit(ps: Seq<Option<Seq<char>>>, q: Seq<char>, i: int) -> Option<
    Seq<char>,
>
    decreases ps.len() - i,
{
    if i < 0 || i >= ps.len() {
        None
    } else {
        match ps[i] {
            Some(p) => match first_match(lower_of(p), q) {
                Some(k) => Some(window_preview(p, k, q.len() as int)),
                None => prompt_hit(ps, q, i + 1),
            },
            None => prompt_hit(ps, q, i + 1),
        }
    }
}

/// `text` holds `query`, ignoring case.
pub open spec fn mentions_text(text: Seq<char>, query: Seq<char>) -> bool {
    first_match(lower_of(text), lower_of(query)) is Some
}

/// A transcript entry or a prompt of `r` holds `query`, ignoring case.
pub open spec fn mentions(r: RecordView, query: Seq<char>) -> bool {
    (exists|i: int| 0 <= i < r.transcript.len() && mentions_text(#[trigger] r.transcript[i], query))
        || (exists|i: int|
        0 <= i < r.prompts.len() && #[trigger] r.prompts[i] is Some && mentions_text(
            r.prompts[i]->0,
            query,
        ))
}

/// The preview of `r` for a search for `query`: the excerpt round the first
/// match in the transcript, else in the prompts, else the plain preview.
pub open spec fn search_preview(r: RecordView, query: Seq<char>) -> Seq<char> {
    let q = lower_of(query);
    match transcript_hit(r.transcript, q, 0) {
        Some(t) => t,
        None => match prompt_hit(r.prompts, q, 0) {
            Some(t) => t,
            None => preview_of(r),
        },
    }
}

/// A search excerpt is wrapped in `...` at both ends, with at most 50
/// characters of cleaned content between them.
pub proof fn lemma_window_preview_framed(e: Seq<char>, pos: int, qlen: int)
    ensures
        ({
            let p = window_preview(e, pos, qlen);
            &&& p.len() >= 6
            &&& p.take(3) == ellipsis()
            &&& p.skip(p.len() - 3) == ellipsis()
            &&& p.len() - 6 <= 50
        }),
{
    let c = cleaned(window(e, pos, qlen));
    let mid = if c.len() > 50 {
        c.take(47)
    } else {
        c
    };
    let p = window_preview(e, pos, qlen);
    assert(p =~= ellipsis() + mid + ellipsis());
    assert(p.take(3) =~= ellipsis());
    assert(p.skip(p.len() - 3) =~= ellipsis());
}

/// Whether `n` stands in `h` at `i`.
fn matches_at(h: &Vec<char>, n: &Vec<char>, i: usize) -> (r: bool)
    requires
        i + n@.len() <= h@.len(),
    ensures
        r == occurs_at(h@, n@, i as int),
{
    let hl = h.len();
    let mut k: usize = 0;
    while k < n.len()
        invariant
            hl == h@.len(),
            i + n@.len() <= h@.len(),
            k <= n@.len(),
            forall|j: int| 0 <= j < k ==> h@[i + j] == n@[j],
        decreases n.len() - k,
    {
        if h[i + k] != n[k] {
            assert(h@.subrange(i as int, i + n@.len())[k as int] != n@[k as int]);
            return false;
        }
        k += 1;
    }
    assert(h@.subrange(i as int, i + n@.len()) =~= n@);
    true
}

/// The first index at which `n` stands in `h` (see `first_match`).
pub fn find_chars(h: &Vec<char>, n: &Vec<char>) -> (r: Option<usize>)
    ensures
        match r {
            Some(i) => first_match(h@, n@) == Some(i as int),
            None => first_match(h@, n@) is None,
        },
{
    if n.len() > h.len() {
        return None;
    }
    let last = h.len() - n.len();
    let mut i: usize = 0;
    loop
        invariant
            last + n@.len() == h@.len(),
            i <= last,
            first_match_from(h@, n@, 0) == first_match_from(h@, n@, i as int),
        decreases last - i,
    {
        if matches_at(h, n, i) {
            return Some(i);
        }
        if i == last {
            return None;
        }
        i += 1;
    }
}

/// Whether the lower-case text `text_lower` holds the lower-case query
/// `query_lower`.
pub fn contains_folded(text_lower: &str, query_lower: &str) -> (r: bool)
    ensures
        r == first_match(text_lower@, query_lower@) is Some,
{
    let h = chars_of(text_lower);
    let n = chars_of(query_lower);
    find_chars(&h, &n).is_some()
}

/// The excerpt of `entry` round the first place where its lower-case form
/// `entry_lower` holds the lower-case query `query_lower`, if there is one.
pub fn preview_window(entry: &str, entry_lower: &str, query_lower: &str) -> (r: Option<String>)
    ensures
        match first_match(entry_lower@, query_lower@) {
            Some(p) => r is Some && r->0@ == window_preview(
                entry@,
                p,
                query_lower@.len() as int,
            ),
            None => r is None,
        },
{
    let h = chars_of(entry_lower);
    let n = chars_of(query_lower);
    match find_chars(&h, &n) {
        Some(pos) => {
            let len = entry.unicode_len();
            let end: usize = if pos <= len && len - pos > n.len() && len - pos - n.len() > 20 {
                pos + n.len() + 20
            } else {
                len
            };
            let from: usize = if pos >= 20 { pos - 20 } else { 0 };
            let start: usize = if from < end { from } else { end };
            let c = clean_text(entry.substring_char(start, end));
            let mut r = String::new();
            proof {
                reveal_strlit("...");
            }
            r.append("...");
            if c.as_str().unicode_len() > 50 {
                r.append(c.as_str().substring_char(0, 47));
            } else {
                r.append(c.as_str());
            }
            r.append("...");
            assert(r@ =~= window_preview(entry@, pos as int, query_lower@.len() as int));
            Some(r)
        },
        None => None,
    }
}

/// Whether a transcript entry or a prompt of `state` holds `query`, ignoring
/// case.
pub fn conversation_contains_text(state: &SessionRecord, query: &str) -> (r: bool)
    ensures
        r == mentions(state@, query@),
{
    let q = lowercase(query);
    let mut i: usize = 0;
    while i < state.transcript.len()
        invariant
            i <= state.transcript@.len(),
            q@ == lower_of(query@),
            forall|j: int| 0 <= j < i ==> !mentions_text(#[trigger] state@.transcript[j], query@),
        decreases state.transcript.len() - i,
    {
        let e = lowercase(state.transcript[i].as_str());
        if contains_folded(e.as_str(), q.as_str()) {
            assert(mentions_text(state@.transcript[i as int], query@));
            return true;
        }
        i += 1;
    }
    let mut k: usize = 0;
    while k < state.history.len()
        invariant
            k <= state.history@.len(),
            q@ == lower_of(query@),
            forall|j: int| 0 <= j < state@.transcript.len() ==> !mentions_text(#[trigger] state@.transcript[j], query@),
            forall|j: int|
                0 <= j < k && #[trigger] state@.prompts[j] is Some ==> !mentions_text(
                    state@.prompts[j]->0,
                    query@,
                ),
        decreases state.history.len() - k,
    {
        match &state.history[k].prompt {
            Some(p) => {
                let e = lowercase(p.as_str());
                if contains_folded(e.as_str(), q.as_str()) {
                    assert(state@.prompts[k as int] is Some);
                    return true;
                }
            },
            None => {},
        }
        k += 1;
    }
    false
}

/// The preview of `state` for a search for `query` (see `search_preview`).
pub fn extract_search_preview(state: &SessionRecord, query: &str) -> (r: String)
    ensures
        r@ == search_preview(state@, query@),
{
    let q = lowercase(query);
    let ghost ts = state@.transcript;
    let mut i: usize = 0;
    while i < state.transcript.len()
        invariant
            i <= ts.len(),
            ts == state@.transcript,
            q@ == lower_of(query@),
            transcript_hit(ts, q@, 0) == transcript_hit(ts, q@, i as int),
        decreases state.transcript.len() - i,
    {
        let entry = state.transcript[i].as_str();
        let e = lowercase(entry);
        match preview_window(entry, e.as_str(), q.as_str()) {
            Some(w) => {
                return w;
            },
            None => {},
        }
        i += 1;
    }
    let ghost ps = state@.prompts;
    let mut k: usize = 0;
    while k < state.history.len()
        invariant
            k <= ps.len(),
            ps == state@.prompts,
            ts == state@.transcript,
            q@ == lower_of(query@),
            transcript_hit(ts, q@, 0) is None,
            prompt_hit(ps, q@, 0) == prompt_hit(ps, q@, k as int),
        decreases state.history.len() - k,
    {
        match &state.history[k].prompt {
            Some(p) => {
                let e = lowercase(p.as_str());
                match preview_window(p.as_str(), e.as_str(), q.as_str()) {
                    Some(w) => {
                        return w;
                    },
                    None => {},
                }
            },
            None => {},
        }
        k += 1;
    }
    extract_preview(state)
}

} // verus!
