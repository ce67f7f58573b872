//! Character-level helpers and fixed-width formatting.

use vstd::prelude::*;
use vstd::string::*;
use vstd::std_specs::iter::IteratorSpec;

verus! {

/// `n` spaces.
pub open spec fn spaces(n: nat) -> Seq<char> {
    Seq::new(n, |i: int| ' ')
}

/// The three-dot marker used for elided text.
pub open spec fn ellipsis() -> Seq<char> {
    seq!['.', '.', '.']
}

/// How many characters a cut of width `w` keeps before the marker.
pub open spec fn kept_width(w: nat) -> nat {
    if w >= 3 { (w - 3) as nat } else { 0 }
}

/// Fits `s` to `w` columns: padded with spaces when it fits, otherwise cut
/// to `w - 3` characters (none below width 3) followed by `...`.
pub open spec fn fit_width(s: Seq<char>, w: nat) -> Seq<char> {
    if s.len() <= w {
        s + spaces((w - s.len()) as nat)
    } else {
        s.take(kept_width(w) as int) + ellipsis()
    }
}

/// A text that fits is padded to exactly the width; a cut one, at width 3
/// or more, is no wider than the width.
pub proof fn lemma_fit_width_length(s: Seq<char>, w: nat)
    ensures
        s.len() <= w ==> fit_width(s, w).len() == w,
        s.len() > w && w >= 3 ==> fit_width(s, w).len() <= w,
{
}

/// At width 0 to 3, a text longer than the width becomes exactly `...`.
pub proof fn lemma_fit_width_narrow(s: Seq<char>, w: nat)
    requires
        w <= 3,
        s.len() > w,
    ensures
        fit_width(s, w) == ellipsis(),
{
    assert(s.take(0) + ellipsis() =~= ellipsis());
}

/// Appends `n` spaces to `r`.
fn pad_spaces(r: &mut String, n: usize)
    ensures
        final(r)@ == old(r)@ + spaces(n as nat),
{
    let ghost start = r@;
    let mut i: usize = 0;
    while i < n
        invariant
            i <= n,
            r@ == start + spaces(i as nat),
        decreases n - i,
    {
        proof {
            reveal_strlit(" ");
        }
        r.append(" ");
        i += 1;
        assert(r@ =~= start + spaces(i as nat));
    }
}

/// Fits `s` to exactly `max_len` columns for a table cell (see `fit_width`).
pub fn truncate_string(s: &str, max_len: usize) -> (r: String)
    ensures
        r@ == fit_width(s@, max_len as nat),
{
    let n = s.unicode_len();
    if n <= max_len {
        let mut r = String::from_str(s);
        pad_spaces(&mut r, max_len - n);
        r
    } else {
        let keep: usize = if max_len >= 3 { max_len - 3 } else { 0 };
        let mut r = String::from_str(s.substring_char(0, keep));
        proof {
            reveal_strlit("...");
        }
        r.append("...");
        assert(r@ =~= fit_width(s@, max_len as nat));
        r
    }
}

/// The part of `s` from its first `/` on, if it has one.
pub open spec fn slash_suffix(s: Seq<char>) -> Option<Seq<char>>
    decreases s.len(),
{
    if s.len() == 0 {
        None
    } else if s[0] == '/' {
        Some(s)
    } else {
        slash_suffix(s.drop_first())
    }
}

/// `path` with a leading `home` written as `~`.
pub open spec fn home_relative(path: Seq<char>, home: Option<Seq<char>>) -> Seq<char> {
    match home {
        Some(h) => if h.is_prefix_of(path) {
            seq!['~'] + path.skip(h.len() as int)
        } else {
            path
        },
        None => path,
    }
}

/// The last `kept_width(w)` characters of `p`, moved on to the first `/`
/// among them when there is one.
pub open spec fn path_tail(p: Seq<char>, w: nat) -> Seq<char> {
    let rest = p.skip(p.len() - kept_width(w));
    match slash_suffix(rest) {
        Some(t) => t,
        None => rest,
    }
}

/// Fits a path to `w` columns: padded when it fits, otherwise `...` and the
/// most specific end of the path.
pub open spec fn fit_path(p: Seq<char>, w: nat) -> Seq<char> {
    if p.len() <= w {
        p + spaces((w - p.len()) as nat)
    } else if kept_width(w) > 0 {
        ellipsis() + path_tail(p, w)
    } else {
        ellipsis()
    }
}

proof fn lemma_slash_suffix_is_suffix(s: Seq<char>)
    ensures
        slash_suffix(s) matches Some(t) ==> 0 < t.len() <= s.len() && t == s.skip(s.len() - t.len()),
    decreases s.len(),
{
    if s.len() > 0 && s[0] != '/' {
        lemma_slash_suffix_is_suffix(s.drop_first());
        if let Some(t) = slash_suffix(s.drop_first()) {
            assert(t =~= s.skip(s.len() - t.len()));
        }
    } else if s.len() > 0 {
        assert(s =~= s.skip(0));
    }
}

/// A path too long for a width above 3 is cut to `...` followed by a
/// non-empty end of the path, and is no wider than the width.
pub proof fn lemma_fit_path_keeps_end(p: Seq<char>, w: nat)
    requires
        p.len() > w,
        w > 3,
    ensures
        ({
            let r = fit_path(p, w);
            &&& 3 < r.len() <= w
            &&& r.take(3) == ellipsis()
            &&& r.skip(3) == p.skip(p.len() - (r.len() - 3))
        }),
{
    let rest = p.skip(p.len() - kept_width(w));
    lemma_slash_suffix_is_suffix(rest);
    let r = fit_path(p, w);
    assert(r == ellipsis() + path_tail(p, w));
    assert(r.take(3) =~= ellipsis());
    assert(r.skip(3) =~= path_tail(p, w));
    if let Some(t) = slash_suffix(rest) {
        assert(t =~= p.skip(p.len() - t.len()));
    } else {
        assert(rest =~= p.skip(p.len() - rest.len()));
    }
}

/// Whether `s` begins with `p`.
pub fn starts_with(s: &str, p: &str) -> (r: bool)
    ensures
        r == p@.is_prefix_of(s@),
{
    let n = s.unicode_len();
    let m = p.unicode_len();
    if m > n {
        return false;
    }
    let mut i: usize = 0;
    while i < m
        invariant
            m <= n,
            n == s@.len(),
            m == p@.len(),
            i <= m,
            forall|j: int| 0 <= j < i ==> p@[j] == s@[j],
        decreases m - i,
    {
        if p.get_char(i) != s.get_char(i) {
            assert(p@ != s@.subrange(0, m as int));
            return false;
        }
        i += 1;
    }
    assert(p@ =~= s@.subrange(0, m as int));
    true
}

proof fn lemma_slash_suffix_step(s: Seq<char>, k: int)
    requires
        0 <= k < s.len(),
        s[k] != '/',
    ensures
        slash_suffix(s.skip(k)) == slash_suffix(s.skip(k + 1)),
{
    assert(s.skip(k).drop_first() =~= s.skip(k + 1));
}

/// Fits `path` to exactly `max_len` columns, writing a leading `home` as `~`
/// and keeping the end of a path that is too long (see `fit_path`).
pub fn truncate_path(path: &str, max_len: usize, home: Option<&str>) -> (r: String)
    ensures
        r@ == fit_path(
            home_relative(
                path@,
                match home {
                    Some(h) => Some(h@),
                    None => None,
                },
            ),
            max_len as nat,
        ),
{
    let ghost h = match home {
        Some(h) => Some(h@),
        None => None::<Seq<char>>,
    };
    let mut p = String::new();
    match home {
        Some(hs) => {
            if starts_with(path, hs) {
                proof {
                    reveal_strlit("~");
                }
                p.append("~");
                p.append(path.substring_char(hs.unicode_len(), path.unicode_len()));
            } else {
                p.append(path);
            }
        },
        None => {
            p.append(path);
        },
    }
    assert(p@ =~= home_relative(path@, h));
    let n = p.unicode_len();
    if n <= max_len {
        pad_spaces(&mut p, max_len - n);
        return p;
    }
    let ghost ps = p@;
    let avail: usize = if max_len >= 3 { max_len - 3 } else { 0 };
    let mut r = String::new();
    proof {
        reveal_strlit("...");
    }
    r.append("...");
    if avail > 0 {
        let start = n - avail;
        let mut k = start;
        while k < n && p.get_char(k) != '/'
            invariant
                start <= k <= n,
                n == ps.len(),
                p@ == ps,
                slash_suffix(ps.skip(start as int)) == slash_suffix(ps.skip(k as int)),
            decreases n - k,
        {
            proof {
                lemma_slash_suffix_step(ps, k as int);
            }
            k += 1;
        }
        if k < n {
            assert(ps.skip(k as int).len() > 0 && ps.skip(k as int)[0] == '/');
            r.append(p.substring_char(k, n));
        } else {
            assert(ps.skip(k as int).len() == 0);
            r.append(p.substring_char(start, n));
        }
    }
    assert(r@ =~= fit_path(home_relative(path@, h), max_len as nat));
    r
}

/// Whether `c` has the Unicode `White_Space` property.
pub open spec fn is_white_space(c: char) -> bool {
    let u = c as u32;
    (0x9 <= u <= 0xd) || u == 0x20 || u == 0x85 || u == 0xa0 || u == 0x1680 || (0x2000 <= u
        <= 0x200a) || u == 0x2028 || u == 0x2029 || u == 0x202f || u == 0x205f || u == 0x3000
}

/// `s` without its leading white space.
pub open spec fn trim_start(s: Seq<char>) -> Seq<char>
    decreases s.len(),
{
    if s.len() > 0 && is_white_space(s[0]) {
        trim_start(s.drop_first())
    } else {
        s
    }
}

/// `s` without its trailing white space.
pub open spec fn trim_end(s: Seq<char>) -> Seq<char>
    decreases s.len(),
{
    if s.len() > 0 && is_white_space(s.last()) {
        trim_end(s.drop_last())
    } else {
        s
    }
}

/// `s` without leading and trailing white space.
pub open spec fn trimmed(s: Seq<char>) -> Seq<char> {
    trim_end(trim_start(s))
}

/// `s` with every line feed turned into a space.
pub open spec fn newlines_as_spaces(s: Seq<char>) -> Seq<char> {
    s.map_values(|c: char| if c == '\n' { ' ' } else { c })
}

/// Trimmed, on one line.
pub open spec fn cleaned(s: Seq<char>) -> Seq<char> {
    newlines_as_spaces(trimmed(s))
}

/// Whether `c` has the Unicode `White_Space` property.
pub fn white_space(c: char) -> (r: bool)
    ensures
        r == is_white_space(c),
{
    let u = c as u32;
    (0x9 <= u && u <= 0xd) || u == 0x20 || u == 0x85 || u == 0xa0 || u == 0x1680 || (0x2000 <= u
        && u <= 0x200a) || u == 0x2028 || u == 0x2029 || u == 0x202f || u == 0x205f || u == 0x3000
}

/// `s` without leading and trailing white space.
pub fn trim_white_space(s: &str) -> (r: String)
    ensures
        r@ == trimmed(s@),
{
    let cs = chars_of(s);
    let n = cs.len();
    let mut i: usize = 0;
    assert(cs@.skip(0) =~= cs@);
    while i < n && white_space(cs[i])
        invariant
            i <= n,
            n == cs@.len(),
            trim_start(cs@) == trim_start(cs@.skip(i as int)),
        decreases n - i,
    {
        assert(cs@.skip(i as int).drop_first() =~= cs@.skip(i + 1 as int));
        i += 1;
    }
    let ghost t = cs@.skip(i as int);
    assert(trim_start(cs@) == t);
    let mut j: usize = n;
    assert(t.take((n - i) as int) =~= t);
    while j > i && white_space(cs[j - 1])
        invariant
            i <= j <= n,
            n == cs@.len(),
            t == cs@.skip(i as int),
            trim_end(t) == trim_end(t.take(j - i)),
        decreases j,
    {
        assert(t.take(j - i).drop_last() =~= t.take(j - 1 - i));
        j -= 1;
    }
    assert(trim_end(t.take(j - i)) == t.take(j - i));
    let r = String::from_str(s.substring_char(i, j));
    assert(r@ =~= t.take(j - i));
    r
}

/// Relies on `String::push`: appends one character.
#[verifier::external_body]
pub(crate) fn push_char(s: &mut String, c: char)
    ensures
        final(s)@ == old(s)@.push(c),
{
    s.push(c)
}

/// The characters of `s`, in order.
pub fn chars_of(s: &str) -> (v: Vec<char>)
    ensures
        v@ == s@,
{
    broadcast use vstd::string::group_string_axioms;

    let mut it = s.chars();
    let mut v: Vec<char> = Vec::new();
    loop
        invariant
            v@ + it.remaining() == s@,
        ensures
            v@ == s@,
        decreases s@.len() - v@.len(),
    {
        match it.next() {
            Some(c) => {
                v.push(c);
                assert(v@ + it.remaining() =~= s@);
            },
            None => {
                assert(v@ =~= s@);
                break ;
            },
        }
    }
    v
}

/// `s` with every line feed turned into a space.
pub fn replace_newlines(s: &str) -> (r: String)
    ensures
        r@ == newlines_as_spaces(s@),
{
    let cs = chars_of(s);
    let mut r = String::new();
    let mut i: usize = 0;
    while i < cs.len()
        invariant
            i <= cs@.len(),
            cs@ == s@,
            r@ == newlines_as_spaces(cs@.take(i as int)),
        decreases cs.len() - i,
    {
        let c = cs[i];
        push_char(&mut r, if c == '\n' { ' ' } else { c });
        i += 1;
        assert(newlines_as_spaces(cs@.take(i as int)) =~= newlines_as_spaces(
            cs@.take(i - 1 as int),
        ).push(if c == '\n' { ' ' } else { c }));
    }
    assert(cs@.take(i as int) =~= s@);
    r
}

/// Trims `s` and puts it on one line.
pub fn clean_text(s: &str) -> (r: String)
    ensures
        r@ == cleaned(s@),
{
    let t = trim_white_space(s);
    replace_newlines(t.as_str())
}

} // verus!
