use vstd::prelude::*;

use crate::search::RawMatch;
use crate::text::{chars_of, find_chars, find_first, string_of};

verus! {

pub open spec fn is_digit(c: char) -> bool {
    '0' <= c && c <= '9'
}

pub open spec fn all_digits(s: Seq<char>) -> bool {
    forall|k: int| 0 <= k < s.len() ==> is_digit(#[trigger] s[k])
}

/// The value of a string of decimal digits.
pub open spec fn digits_value(s: Seq<char>) -> nat
    decreases s.len(),
{
    if s.len() == 0 {
        0
    } else {
        digits_value(s.drop_last()) * 10 + ((s.last() as int) - ('0' as int)) as nat
    }
}

/// The number `s` denotes as `usize::from_str` reads it: an optional `+`, then
/// one or more digits, of a value that fits.
pub open spec fn parsed_number(s: Seq<char>) -> Option<nat> {
    let d = if s.len() > 0 && s[0] == '+' { s.drop_first() } else { s };
    if d.len() > 0 && all_digits(d) && digits_value(d) <= usize::MAX {
        Some(digits_value(d))
    } else {
        None
    }
}

/// A line number field; one that does not parse counts as zero.
pub open spec fn line_number(s: Seq<char>) -> usize {
    match parsed_number(s) {
        Some(n) => n as usize,
        None => 0,
    }
}

/// One line of search output split into file, line number and content: at the
/// first two colons, or, with only one colon, as line number and content of a
/// hit in `path`. A line without a colon is no hit.
pub open spec fn parse_hit_spec(line: Seq<char>, path: Seq<char>) -> Option<(Seq<char>, usize, Seq<char>)> {
    match find_first(line, seq![':']) {
        None => None,
        Some(i) => {
            let rest = line.skip(i + 1);
            match find_first(rest, seq![':']) {
                None => Some((path, line_number(line.take(i)), rest)),
                Some(j) => Some((line.take(i), line_number(rest.take(j)), rest.skip(j + 1))),
            }
        },
    }
}

proof fn lemma_prefix_value(s: Seq<char>, k: int)
    requires
        all_digits(s),
        0 <= k <= s.len(),
    ensures
        digits_value(s.take(k)) <= digits_value(s),
    decreases s.len(),
{
    if k < s.len() {
        let t = s.drop_last();
        assert(all_digits(t)) by {
            assert forall|m: int| 0 <= m < t.len() implies is_digit(#[trigger] t[m]) by {
                assert(t[m] == s[m]);
            }
        }
        lemma_prefix_value(t, k);
        assert(t.take(k) =~= s.take(k));
    } else {
        assert(s.take(k) =~= s);
    }
}

fn digits_from(d: &Vec<char>, start: usize) -> (r: Option<usize>)
    requires
        start <= d@.len(),
    ensures
        ({
            let s = d@.skip(start as int);
            r == if s.len() > 0 && all_digits(s) && digits_value(s) <= usize::MAX {
                Some(digits_value(s) as usize)
            } else {
                None::<usize>
            }
        }),
{
    let ghost s = d@.skip(start as int);
    if start == d.len() {
        return None;
    }
    let mut v: usize = 0;
    let mut k: usize = start;
    assert(s.take(0) =~= Seq::<char>::empty());
    while k < d.len()
        invariant
            start <= k <= d@.len(),
            s == d@.skip(start as int),
            all_digits(s.take(k - start)),
            v as nat == digits_value(s.take(k - start)),
        decreases d@.len() - k,
    {
        let c = d[k];
        let ghost pre = s.take(k - start);
        let ghost next = s.take(k + 1 - start);
        assert(next.drop_last() =~= pre);
        assert(next.last() == c);
        if !('0' <= c && c <= '9') {
            proof {
                if all_digits(s) {
                    assert(s[k - start] == c);
                }
            }
            return None;
        }
        let dv = (c as u32 - '0' as u32) as usize;
        assert(dv as int == (c as int) - ('0' as int));
        if v > (usize::MAX - dv) / 10 {
            proof {
                assert(digits_value(next) == v * 10 + dv);
                assert(v * 10 + dv > usize::MAX) by (nonlinear_arith)
                    requires v > (usize::MAX - dv) / 10, dv <= 9;
                if all_digits(s) {
                    lemma_prefix_value(s, k + 1 - start);
                }
            }
            return None;
        }
        assert(v * 10 + dv <= usize::MAX) by (nonlinear_arith)
            requires v <= (usize::MAX - dv) / 10, dv <= 9;
        v = v * 10 + dv;
        proof {
            assert forall|m: int| 0 <= m < next.len() implies is_digit(#[trigger] next[m]) by {
                if m < pre.len() {
                    assert(next[m] == pre[m]);
                }
            }
        }
        k = k + 1;
    }
    assert(s.take(k - start) =~= s);
    Some(v)
}

/// Reads a line number field; zero where it does not parse.
pub fn parse_line_number(s: &Vec<char>) -> (r: usize)
    ensures
        r == line_number(s@),
{
    let start: usize = if s.len() > 0 && s[0] == '+' { 1 } else { 0 };
    assert(s@.skip(start as int) =~= if s@.len() > 0 && s@[0] == '+' { s@.drop_first() } else { s@ });
    match digits_from(s, start) {
        Some(n) => n,
        None => 0,
    }
}

fn slice(v: &Vec<char>, from: usize, to: usize) -> (r: Vec<char>)
    requires
        from <= to <= v@.len(),
    ensures
        r@ == v@.subrange(from as int, to as int),
{
    let mut r: Vec<char> = Vec::new();
    let mut k: usize = from;
    while k < to
        invariant
            from <= k <= to,
            to <= v@.len(),
            r@ == v@.subrange(from as int, k as int),
        decreases to - k,
    {
        r.push(v[k]);
        k = k + 1;
        assert(r@ =~= v@.subrange(from as int, k as int));
    }
    r
}

/// Splits one line of search output into a hit; `None` for a line without a colon.
pub fn parse_hit(line: &str, path: &str) -> (r: Option<RawMatch>)
    ensures
        r matches Some(m) ==> parse_hit_spec(line@, path@) == Some((m.file@, m.line, m.content@)),
        r is None ==> parse_hit_spec(line@, path@) is None,
{
    let l = chars_of(line);
    let mut colon: Vec<char> = Vec::new();
    colon.push(':');
    assert(colon@ =~= seq![':']);
    match find_chars(&l, &colon) {
        None => None,
        Some(i) => {
            let n = l.len();
            assert(i + 1 <= n);
            let rest = slice(&l, i + 1, n);
            assert(rest@ =~= l@.skip(i + 1));
            let head = slice(&l, 0, i);
            assert(head@ =~= l@.take(i as int));
            match find_chars(&rest, &colon) {
                None => {
                    let n = parse_line_number(&head);
                    Some(RawMatch { file: string_of(&chars_of(path)), line: n, content: string_of(&rest) })
                },
                Some(j) => {
                    let num = slice(&rest, 0, j);
                    assert(num@ =~= rest@.take(j as int));
                    let content = slice(&rest, j + 1, rest.len());
                    assert(content@ =~= rest@.skip(j + 1));
                    let n = parse_line_number(&num);
                    Some(RawMatch { file: string_of(&head), line: n, content: string_of(&content) })
                },
            }
        },
    }
}

/// The hits among lines of search output, in order; lines without a colon are skipped.
pub open spec fn parse_hits_spec(lines: Seq<Seq<char>>, path: Seq<char>) -> Seq<(Seq<char>, usize, Seq<char>)>
    decreases lines.len(),
{
    if lines.len() == 0 {
        Seq::empty()
    } else {
        let prev = parse_hits_spec(lines.drop_last(), path);
        match parse_hit_spec(lines.last(), path) {
            Some(h) => prev.push(h),
            None => prev,
        }
    }
}

pub open spec fn hit_view(m: RawMatch) -> (Seq<char>, usize, Seq<char>) {
    (m.file@, m.line, m.content@)
}

/// Parses each line of search output, keeping the hits in order.
pub fn parse_hits(lines: &Vec<String>, path: &str) -> (r: Vec<RawMatch>)
    ensures
        r@.map_values(|m: RawMatch| hit_view(m)) == parse_hits_spec(lines@.map_values(|s: String| s@), path@),
{
    let ghost ls = lines@.map_values(|s: String| s@);
    let mut out: Vec<RawMatch> = Vec::new();
    let mut k: usize = 0;
    assert(ls.take(0) =~= Seq::<Seq<char>>::empty());
    assert(out@.map_values(|m: RawMatch| hit_view(m)) =~= Seq::<(Seq<char>, usize, Seq<char>)>::empty());
    while k < lines.len()
        invariant
            k <= lines@.len(),
            ls == lines@.map_values(|s: String| s@),
            out@.map_values(|m: RawMatch| hit_view(m)) == parse_hits_spec(ls.take(k as int), path@),
        decreases lines@.len() - k,
    {
        assert(ls.take(k + 1).drop_last() =~= ls.take(k as int));
        assert(ls.take(k + 1).last() == lines@[k as int]@);
        let ghost before = out@;
        match parse_hit(lines[k].as_str(), path) {
            Some(m) => {
                out.push(m);
                assert(out@.map_values(|m: RawMatch| hit_view(m)) =~= before.map_values(|m: RawMatch| hit_view(m)).push(hit_view(m)));
            },
            None => {},
        }
        k = k + 1;
    }
    assert(ls.take(lines@.len() as int) =~= ls);
    out
}


/// The pieces of `s` between newlines; an empty string has one empty piece.
pub open spec fn newline_pieces(s: Seq<char>) -> Seq<Seq<char>>
    decreases s.len(),
{
    if s.len() == 0 {
        seq![Seq::<char>::empty()]
    } else {
        let p = newline_pieces(s.drop_last());
        if s.last() == '\n' {
            p.push(Seq::<char>::empty())
        } else {
            p.update(p.len() - 1, p.last().push(s.last()))
        }
    }
}

proof fn lemma_pieces_nonempty(s: Seq<char>)
    ensures
        newline_pieces(s).len() >= 1,
    decreases s.len(),
{
    if s.len() > 0 {
        lemma_pieces_nonempty(s.drop_last());
    }
}

/// A line that ended in a newline loses a carriage return before it.
pub open spec fn strip_cr(l: Seq<char>) -> Seq<char> {
    if l.len() > 0 && l.last() == '\r' { l.drop_last() } else { l }
}

/// The lines of a text as `str::lines` gives them: split at each newline, a
/// carriage return before the newline dropped, and no empty line after a final
/// newline.
pub open spec fn text_lines(s: Seq<char>) -> Seq<Seq<char>> {
    let p = newline_pieces(s);
    let ended = p.drop_last().map_values(|l: Seq<char>| strip_cr(l));
    if p.last().len() > 0 { ended.push(p.last()) } else { ended }
}

fn without_cr(v: &Vec<char>) -> (r: String)
    ensures
        r@ == strip_cr(v@),
{
    if v.len() > 0 && v[v.len() - 1] == '\r' {
        let mut w: Vec<char> = Vec::new();
        let last = v.len() - 1;
        let mut k: usize = 0;
        while k < last
            invariant
                last + 1 == v@.len(),
                k <= last,
                w@ == v@.take(k as int),
            decreases v@.len() - k,
        {
            w.push(v[k]);
            k = k + 1;
            assert(w@ =~= v@.take(k as int));
        }
        assert(w@ =~= v@.drop_last());
        string_of(&w)
    } else {
        string_of(v)
    }
}

/// Splits search output into its lines.
pub fn split_lines(text: &str) -> (r: Vec<String>)
    ensures
        r@.map_values(|l: String| l@) == text_lines(text@),
{
    let t = chars_of(text);
    let mut out: Vec<String> = Vec::new();
    let mut cur: Vec<char> = Vec::new();
    let mut i: usize = 0;
    assert(t@.take(0) =~= Seq::<char>::empty());
    assert(out@.map_values(|l: String| l@) =~= Seq::<Seq<char>>::empty());
    while i < t.len()
        invariant
            i <= t@.len(),
            out@.map_values(|l: String| l@)
                == newline_pieces(t@.take(i as int)).drop_last().map_values(|l: Seq<char>| strip_cr(l)),
            cur@ == newline_pieces(t@.take(i as int)).last(),
        decreases t@.len() - i,
    {
        let c = t[i];
        let ghost pre = newline_pieces(t@.take(i as int));
        proof {
            lemma_pieces_nonempty(t@.take(i as int));
            assert(t@.take(i + 1).drop_last() =~= t@.take(i as int));
            assert(t@.take(i + 1).last() == c);
        }
        let ghost before = out@;
        if c == '\n' {
            let line = without_cr(&cur);
            out.push(line);
            cur = Vec::new();
            proof {
                let next = newline_pieces(t@.take(i + 1));
                assert(next == pre.push(Seq::<char>::empty()));
                assert(next.drop_last() =~= pre);
                assert(pre =~= pre.drop_last().push(pre.last()));
                assert(out@.map_values(|l: String| l@) =~= before.map_values(|l: String| l@).push(strip_cr(pre.last())));
                assert(pre.map_values(|l: Seq<char>| strip_cr(l)) =~= pre.drop_last().map_values(|l: Seq<char>| strip_cr(l)).push(strip_cr(pre.last())));
            }
        } else {
            cur.push(c);
            proof {
                let next = newline_pieces(t@.take(i + 1));
                assert(next.drop_last() =~= pre.drop_last());
            }
        }
        i = i + 1;
    }
    assert(t@.take(t@.len() as int) =~= t@);
    if cur.len() > 0 {
        let ghost before = out@;
        out.push(string_of(&cur));
        assert(out@.map_values(|l: String| l@) =~= before.map_values(|l: String| l@).push(cur@));
    }
    out
}

/// The hits in a whole search output, in order.
pub fn parse_output(text: &str, path: &str) -> (r: Vec<RawMatch>)
    ensures
        r@.map_values(|m: RawMatch| hit_view(m)) == parse_hits_spec(text_lines(text@), path@),
{
    let lines = split_lines(text);
    parse_hits(&lines, path)
}

} // verus!
