use vstd::prelude::*;

use crate::text::{chars_of, find_chars, find_first, push_str, string_of};

verus! {

/// A character with the Unicode `White_Space` property.
pub open spec fn is_white_space(c: char) -> bool {
    ('\u{9}' <= c && c <= '\u{d}') || c == ' ' || c == '\u{85}' || c == '\u{a0}' || c == '\u{1680}'
        || ('\u{2000}' <= c && c <= '\u{200a}') || c == '\u{2028}' || c == '\u{2029}' || c == '\u{202f}'
        || c == '\u{205f}' || c == '\u{3000}'
}

/// `s` without its leading whitespace.
pub open spec fn trim_start(s: Seq<char>) -> Seq<char>
    decreases s.len(),
{
    if s.len() > 0 && is_white_space(s[0]) { trim_start(s.drop_first()) } else { s }
}

/// `s` without its trailing whitespace.
pub open spec fn trim_end(s: Seq<char>) -> Seq<char>
    decreases s.len(),
{
    if s.len() > 0 && is_white_space(s.last()) { trim_end(s.drop_last()) } else { s }
}

/// `s` without leading and trailing whitespace.
pub open spec fn trimmed(s: Seq<char>) -> Seq<char> {
    trim_end(trim_start(s))
}

/// What `str::to_lowercase` makes of a string.
pub uninterp spec fn lower_of(s: Seq<char>) -> Seq<char>;

/// A character with a meaning in a regular expression.
pub open spec fn is_meta(c: char) -> bool {
    c == '\\' || c == '.' || c == '+' || c == '*' || c == '?' || c == '(' || c == ')' || c == '|' || c == '['
        || c == ']' || c == '{' || c == '}' || c == '^' || c == '$' || c == '#' || c == '&' || c == '-' || c == '~'
}

/// A literal with a backslash put before each meta character.
pub open spec fn escaped(s: Seq<char>) -> Seq<char>
    decreases s.len(),
{
    if s.len() == 0 {
        Seq::empty()
    } else {
        escaped(s.drop_last()) + if is_meta(s.last()) { seq!['\\', s.last()] } else { seq![s.last()] }
    }
}

/// The text of the first match of the expression `re` in `hay`, as the `regex`
/// crate finds it; `None` where there is none or `re` does not compile.
pub uninterp spec fn regex_find_of(re: Seq<char>, hay: Seq<char>) -> Option<Seq<char>>;

/// Relies on `str::trim`: leading and trailing `White_Space` characters removed.
#[verifier::external_body]
fn trim(s: &str) -> (r: String)
    ensures
        r@ == trimmed(s@),
{
    s.trim().to_string()
}

/// Relies on `str::to_lowercase`.
#[verifier::external_body]
fn lowercase(s: &str) -> (r: String)
    ensures
        r@ == lower_of(s@),
{
    s.to_lowercase()
}

/// Relies on `regex::escape`: a backslash before each meta character, every
/// other character kept.
#[verifier::external_body]
fn escape_literal(s: &str) -> (r: String)
    ensures
        r@ == escaped(s@),
{
    regex::escape(s)
}

/// Relies on `regex::Regex::new` and `regex::Regex::find`: compiles `re` and
/// returns the text of its leftmost-first match in `hay`.
#[verifier::external_body]
fn regex_find(re: &str, hay: &str) -> (r: Option<String>)
    ensures
        r matches Some(m) ==> regex_find_of(re@, hay@) == Some(m@),
        r is None ==> regex_find_of(re@, hay@) is None,
{
    match regex::Regex::new(re) {
        Ok(compiled) => compiled.find(hay).map(|m| m.as_str().to_string()),
        Err(_) => None,
    }
}

/// The expression used in context mode: up to twenty characters of lead-in, the
/// escaped pattern, and the rest of the line, matched without regard to case.
pub open spec fn context_regex(escaped: Seq<char>) -> Seq<char> {
    seq!['(', '?', 'i', ')', '.', '{', '0', ',', '2', '0', '}'] + escaped + seq!['.', '*']
}

pub open spec fn ellipsis() -> Seq<char> {
    seq!['.', '.', '.']
}

/// Start and end of the window of width `max_len` over a line of length `len`,
/// placed a third of the width before `pos` and shifted left where it would
/// run past the end.
pub open spec fn window(len: int, pos: int, max_len: int) -> (int, int) {
    let lead = max_len / 3;
    let start0 = if pos >= lead { pos - lead } else { 0 };
    let end = if start0 + max_len < len { start0 + max_len } else { len };
    let start = if end == len { if end >= max_len { end - max_len } else { 0 } } else { start0 };
    (start, end)
}

/// The window of `t` around `pos`, with an ellipsis on each side that was cut.
pub open spec fn centered(t: Seq<char>, pos: int, max_len: int) -> Seq<char> {
    let (start, end) = window(t.len() as int, pos, max_len);
    let slice = t.subrange(start, end);
    if start > 0 && end < t.len() {
        ellipsis() + slice + ellipsis()
    } else if start > 0 {
        ellipsis() + slice
    } else {
        slice + ellipsis()
    }
}

/// A trimmed line cut down to about `max_len` characters, keeping the first
/// place where `lower_p` occurs in `lower_t` (the line and the pattern in lower case).
pub open spec fn shorten(t: Seq<char>, lower_t: Seq<char>, lower_p: Seq<char>, max_len: int) -> Seq<char> {
    if t.len() <= max_len {
        t
    } else {
        match find_first(lower_t, lower_p) {
            Some(pos) => centered(t, pos, max_len),
            None => t.take(if max_len >= 3 { max_len - 3 } else { 0 }) + ellipsis(),
        }
    }
}

/// The excerpt for a trimmed line: the context match where there is one that
/// fits in `max_len`, else the line shortened around the pattern.
pub open spec fn excerpt(
    t: Seq<char>,
    context_match: Option<Seq<char>>,
    lower_t: Seq<char>,
    lower_p: Seq<char>,
    max_len: int,
) -> Seq<char> {
    if context_match is Some && context_match->0.len() <= max_len {
        context_match->0
    } else {
        shorten(t, lower_t, lower_p, max_len)
    }
}

/// The condensed form of one matching line.
pub open spec fn condensed(line: Seq<char>, max_len: int, context_only: bool, pattern: Seq<char>) -> Seq<char> {
    let t = trimmed(line);
    let found = if context_only { regex_find_of(context_regex(escaped(pattern)), t) } else { None };
    excerpt(t, found, lower_of(t), lower_of(pattern), max_len)
}

/// Cuts a trimmed line down around the first occurrence of the lower-cased
/// pattern in the lower-cased line.
pub fn shorten_line(trimmed: &str, lower: &str, pattern_lower: &str, max_len: usize) -> (r: String)
    ensures
        r@ == shorten(trimmed@, lower@, pattern_lower@, max_len as int),
{
    let t = chars_of(trimmed);
    if t.len() <= max_len {
        return string_of(&t);
    }
    let lt = chars_of(lower);
    let lp = chars_of(pattern_lower);
    let mut out: Vec<char> = Vec::new();
    match find_chars(&lt, &lp) {
        Some(pos) => {
            let len = t.len();
            let lead = max_len / 3;
            let start0: usize = if pos >= lead { pos - lead } else { 0 };
            let end: usize = if start0 < len && len - start0 > max_len { start0 + max_len } else { len };
            let start: usize = if end == len { if end >= max_len { end - max_len } else { 0 } } else { start0 };
            if start > 0 {
                push_str(&mut out, "...");
            }
            let mut i: usize = start;
            proof {
                reveal_strlit("...");
                assert(t@.subrange(start as int, start as int) =~= Seq::<char>::empty());
                if start == 0 {
                    assert(out@ =~= Seq::<char>::empty() + Seq::<char>::empty());
                } else {
                    assert(out@ =~= ellipsis() + Seq::<char>::empty());
                }
            }
            while i < end
                invariant
                    start <= i <= end,
                    end <= t@.len(),
                    out@ == (if start > 0 { ellipsis() } else { Seq::<char>::empty() }) + t@.subrange(start as int, i as int),
                decreases end - i,
            {
                out.push(t[i]);
                i = i + 1;
                assert(t@.subrange(start as int, i as int) =~= t@.subrange(start as int, i - 1 as int).push(t@[i - 1 as int]));
            }
            if end < len || start == 0 {
                push_str(&mut out, "...");
            }
            proof {
                reveal_strlit("...");
                assert(window(len as int, pos as int, max_len as int) == (start as int, end as int));
                assert(out@ =~= centered(t@, pos as int, max_len as int));
            }
        },
        None => {
            let keep: usize = if max_len >= 3 { max_len - 3 } else { 0 };
            let mut i: usize = 0;
            while i < keep
                invariant
                    i <= keep,
                    keep < t@.len(),
                    out@ == t@.take(i as int),
                decreases keep - i,
            {
                out.push(t[i]);
                i = i + 1;
                assert(t@.take(i as int) =~= t@.take(i - 1 as int).push(t@[i - 1 as int]));
            }
            push_str(&mut out, "...");
            proof {
                reveal_strlit("...");
                assert(out@ =~= t@.take(keep as int) + ellipsis());
            }
        },
    }
    string_of(&out)
}

/// Builds the context-mode expression for a pattern.
fn context_expression(pattern: &str) -> (r: String)
    ensures
        r@ == context_regex(escaped(pattern@)),
{
    let literal = escape_literal(pattern);
    let mut re: Vec<char> = Vec::new();
    push_str(&mut re, "(?i).{0,20}");
    push_str(&mut re, literal.as_str());
    push_str(&mut re, ".*");
    proof {
        reveal_strlit("(?i).{0,20}");
        reveal_strlit(".*");
        assert(re@ =~= context_regex(escaped(pattern@)));
    }
    string_of(&re)
}

/// Picks the excerpt for a trimmed line, given the context-mode match (if any)
/// and the line and the pattern in lower case.
pub fn pick_excerpt(
    trimmed: &str,
    context_match: Option<String>,
    lower: &str,
    pattern_lower: &str,
    max_len: usize,
) -> (r: String)
    ensures
        r@ == excerpt(
            trimmed@,
            match context_match { Some(m) => Some(m@), None => None },
            lower@,
            pattern_lower@,
            max_len as int,
        ),
{
    if let Some(m) = context_match {
        let mc = chars_of(m.as_str());
        if mc.len() <= max_len {
            return m;
        }
    }
    shorten_line(trimmed, lower, pattern_lower, max_len)
}

/// Condenses one matching line to a single excerpt of about `max_len` characters.
pub fn clean_line(line: &str, max_len: usize, context_only: bool, pattern: &str) -> (r: String)
    ensures
        r@ == condensed(line@, max_len as int, context_only, pattern@),
{
    let trimmed = trim(line);
    let found = if context_only {
        let re = context_expression(pattern);
        regex_find(re.as_str(), trimmed.as_str())
    } else {
        None
    };
    let lower = lowercase(trimmed.as_str());
    let pattern_lower = lowercase(pattern);
    pick_excerpt(trimmed.as_str(), found, lower.as_str(), pattern_lower.as_str(), max_len)
}

/// The excerpt never runs more than the two ellipses past `max_len`, and stays
/// within `max_len` where the line fits or the pattern does not occur in it.
pub proof fn lemma_condensed_length(line: Seq<char>, max_len: int, context_only: bool, pattern: Seq<char>)
    requires
        max_len >= 3,
    ensures
        condensed(line, max_len, context_only, pattern).len() <= max_len + 6,
        (trimmed(line).len() <= max_len || find_first(lower_of(trimmed(line)), lower_of(pattern)) is None)
            ==> condensed(line, max_len, context_only, pattern).len() <= max_len,
{
    let t = trimmed(line);
    if t.len() > max_len {
        if let Some(pos) = find_first(lower_of(t), lower_of(pattern)) {
            let (start, end) = window(t.len() as int, pos, max_len);
            assert(0 <= start <= end <= t.len());
            assert(end - start <= max_len);
        }
    }
}

} // verus!
