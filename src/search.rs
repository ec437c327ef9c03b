use vstd::prelude::*;

use crate::condense::{clean_line, condensed};
use crate::path::{compact, compact_path};
use crate::text::{
    chars_less, chars_of, decimal, decimal_chars, lemma_less_asymmetric, lemma_less_irreflexive, lemma_less_total,
    push_all, push_decimal, push_str, str_less, string_of,
};

verus! {

/// Matches shown at most for one file.
pub const PER_FILE: usize = 10;

/// One hit reported by the search tool.
pub struct RawMatch {
    pub file: String,
    pub line: usize,
    pub content: String,
}

/// The hits of one file, in the order they were found.
pub struct FileGroup {
    pub file: String,
    pub entries: Vec<(usize, String)>,
}

/// A shown match: its line number and condensed text.
pub type Entry = (usize, Seq<char>);

/// A file and its matches.
pub type Group = (Seq<char>, Seq<Entry>);

pub open spec fn entries_view(es: Seq<(usize, String)>) -> Seq<Entry> {
    es.map_values(|e: (usize, String)| (e.0, e.1@))
}

pub open spec fn group_view(g: FileGroup) -> Group {
    (g.file@, entries_view(g.entries@))
}

pub open spec fn groups_view(gs: Seq<FileGroup>) -> Seq<Group> {
    gs.map_values(|g: FileGroup| group_view(g))
}

/// Adds one entry for `file` to groups kept in order of their file names.
pub open spec fn add_to_groups(gs: Seq<Group>, file: Seq<char>, e: Entry) -> Seq<Group>
    decreases gs.len(),
{
    if gs.len() == 0 {
        seq![(file, seq![e])]
    } else if gs[0].0 == file {
        gs.update(0, (file, gs[0].1.push(e)))
    } else if str_less(file, gs[0].0) {
        seq![(file, seq![e])] + gs
    } else {
        seq![gs[0]] + add_to_groups(gs.drop_first(), file, e)
    }
}

/// Keyed entries grouped by file, files in lexicographic order, entries in
/// the order they came.
pub open spec fn grouped(ms: Seq<(Seq<char>, Entry)>) -> Seq<Group>
    decreases ms.len(),
{
    if ms.len() == 0 {
        Seq::empty()
    } else {
        add_to_groups(grouped(ms.drop_last()), ms.last().0, ms.last().1)
    }
}

/// Each hit keyed by its file, with its content condensed.
pub open spec fn keyed(raw: Seq<RawMatch>, max_line_len: int, context_only: bool, pattern: Seq<char>) -> Seq<(Seq<char>, Entry)> {
    raw.map_values(|m: RawMatch| (m.file@, (m.line, condensed(m.content@, max_line_len, context_only, pattern))))
}

/// A line number right-aligned in four columns.
pub open spec fn padded(n: nat) -> Seq<char> {
    let d = decimal(n);
    if d.len() >= 4 { d } else { Seq::new((4 - d.len()) as nat, |k: int| ' ') + d }
}

pub open spec fn entry_line(e: Entry) -> Seq<char> {
    "  "@ + padded(e.0 as nat) + ": "@ + e.1 + "\n"@
}

/// The lines for entries `j..limit` of one file, while fewer than `max` are
/// shown; with the number shown afterwards.
pub open spec fn render_entries(es: Seq<Entry>, j: int, limit: int, shown: int, max: int) -> (Seq<char>, int)
    decreases limit - j,
{
    if j >= limit || shown >= max {
        (Seq::empty(), shown)
    } else {
        let rest = render_entries(es, j + 1, limit, shown + 1, max);
        (entry_line(es[j]) + rest.0, rest.1)
    }
}

pub open spec fn min_int(a: int, b: int) -> int {
    if a <= b { a } else { b }
}

pub open spec fn file_head(g: Group) -> Seq<char> {
    "📄 "@ + compact(g.0) + " ("@ + decimal(g.1.len()) + "):\n"@
}

pub open spec fn file_tail(g: Group) -> Seq<char> {
    (if g.1.len() > PER_FILE { "  +"@ + decimal((g.1.len() - PER_FILE) as nat) + "\n"@ } else { Seq::empty() }) + "\n"@
}

/// The blocks for files `i..` while fewer than `max` matches are shown; with the
/// number shown afterwards.
pub open spec fn render_files(gs: Seq<Group>, i: int, shown: int, max: int) -> (Seq<char>, int)
    decreases gs.len() - i,
{
    if i < 0 || i >= gs.len() || shown >= max {
        (Seq::empty(), shown)
    } else {
        let g = gs[i];
        let body = render_entries(g.1, 0, min_int(PER_FILE as int, g.1.len() as int), shown, max);
        let rest = render_files(gs, i + 1, body.1, max);
        (file_head(g) + body.0 + file_tail(g) + rest.0, rest.1)
    }
}

pub open spec fn report_header(total: nat, files: nat) -> Seq<char> {
    "🔍 "@ + decimal(total) + " in "@ + decimal(files) + "F:\n\n"@
}

pub open spec fn report_trailer(total: int, shown: int) -> Seq<char> {
    if total > shown { "... +"@ + decimal((total - shown) as nat) + "\n"@ } else { Seq::empty() }
}

/// The report over grouped matches.
pub open spec fn report(gs: Seq<Group>, total: nat, max: int) -> Seq<char> {
    let files = render_files(gs, 0, 0, max);
    report_header(total, gs.len()) + files.0 + report_trailer(total as int, files.1)
}

pub open spec fn empty_report(pattern: Seq<char>) -> Seq<char> {
    "🔍 0 for '"@ + pattern + "'"@
}

/// The whole search report for a list of hits.
pub open spec fn summary(raw: Seq<RawMatch>, max_line_len: int, max_results: int, context_only: bool, pattern: Seq<char>) -> Seq<char> {
    if raw.len() == 0 {
        empty_report(pattern)
    } else {
        report(grouped(keyed(raw, max_line_len, context_only, pattern)), raw.len(), max_results)
    }
}


fn file_before(g: &FileGroup, file: &Vec<char>) -> (r: bool)
    ensures
        r == str_less(g.file@, file@),
{
    let gc = chars_of(g.file.as_str());
    chars_less(&gc, file)
}

/// Adds one entry for `file`, keeping the groups in order of their file names.
pub fn add_entry(groups: &mut Vec<FileGroup>, file: String, line: usize, text: String)
    ensures
        groups_view(final(groups)@) == add_to_groups(groups_view(old(groups)@), file@, (line, text@)),
{
    let ghost gv = groups_view(groups@);
    let ghost e: Entry = (line, text@);
    let fc = chars_of(file.as_str());
    let mut k: usize = 0;
    assert(gv.skip(0) =~= gv);
    assert(gv.take(0) =~= Seq::<Group>::empty());
    while k < groups.len() && file_before(&groups[k], &fc)
        invariant
            groups@ == old(groups)@,
            gv == groups_view(groups@),
            fc@ == file@,
            k <= gv.len(),
            add_to_groups(gv, file@, e) == gv.take(k as int) + add_to_groups(gv.skip(k as int), file@, e),
        decreases gv.len() - k,
    {
        let ghost gk = gv[k as int];
        proof {
            lemma_less_irreflexive(file@);
            lemma_less_asymmetric(gk.0, file@);
            let sk = gv.skip(k as int);
            assert(sk[0] == gk);
            assert(sk.drop_first() =~= gv.skip(k + 1));
            assert(gv.take(k + 1) =~= gv.take(k as int).push(gk));
            assert(add_to_groups(sk, file@, e) == seq![gk] + add_to_groups(gv.skip(k + 1), file@, e));
            assert(gv.take(k as int) + (seq![gk] + add_to_groups(gv.skip(k + 1), file@, e))
                =~= gv.take(k + 1) + add_to_groups(gv.skip(k + 1), file@, e));
        }
        k = k + 1;
    }
    let ghost sk = gv.skip(k as int);
    if k < groups.len() && groups[k].file == file {
        let mut g = groups.remove(k);
        g.entries.push((line, text));
        groups.insert(k, g);
        proof {
            assert(sk[0] == gv[k as int]);
            assert(entries_view(g.entries@) =~= gv[k as int].1.push(e));
            assert(add_to_groups(sk, file@, e) == sk.update(0, (file@, sk[0].1.push(e))));
            assert(groups_view(groups@) =~= gv.take(k as int) + sk.update(0, (file@, sk[0].1.push(e))));
        }
    } else {
        let mut entries: Vec<(usize, String)> = Vec::new();
        entries.push((line, text));
        let g = FileGroup { file, entries };
        groups.insert(k, g);
        proof {
            assert(entries_view(g.entries@) =~= seq![e]);
            if k < gv.len() {
                assert(sk[0] == gv[k as int]);
                lemma_less_total(file@, gv[k as int].0);
                assert(add_to_groups(sk, file@, e) == seq![(file@, seq![e])] + sk);
            } else {
                assert(sk =~= Seq::<Group>::empty());
            }
            assert(groups_view(groups@) =~= gv.take(k as int) + (seq![(file@, seq![e])] + sk));
        }
    }
}

/// Condenses every hit and groups the results by file.
pub fn group_matches(raw: &Vec<RawMatch>, max_line_len: usize, context_only: bool, pattern: &str) -> (r: Vec<FileGroup>)
    ensures
        groups_view(r@) == grouped(keyed(raw@, max_line_len as int, context_only, pattern@)),
{
    let ghost ks = keyed(raw@, max_line_len as int, context_only, pattern@);
    let mut groups: Vec<FileGroup> = Vec::new();
    let mut i: usize = 0;
    assert(ks.take(0) =~= Seq::<(Seq<char>, Entry)>::empty());
    assert(groups_view(groups@) =~= Seq::<Group>::empty());
    while i < raw.len()
        invariant
            i <= raw@.len(),
            ks == keyed(raw@, max_line_len as int, context_only, pattern@),
            groups_view(groups@) == grouped(ks.take(i as int)),
        decreases raw@.len() - i,
    {
        let m = &raw[i];
        let text = clean_line(m.content.as_str(), max_line_len, context_only, pattern);
        add_entry(&mut groups, m.file.clone(), m.line, text);
        assert(ks.take(i + 1).drop_last() =~= ks.take(i as int));
        i = i + 1;
    }
    assert(ks.take(raw@.len() as int) =~= ks);
    groups
}


fn push_padded(out: &mut Vec<char>, n: usize)
    ensures
        final(out)@ == old(out)@ + padded(n as nat),
{
    let d = decimal_chars(n);
    let mut k: usize = d.len();
    let ghost start = old(out)@;
    assert(Seq::new(0, |x: int| ' ') =~= Seq::<char>::empty());
    while k < 4
        invariant
            d@ == decimal(n as nat),
            d@.len() <= k <= 4 || (k == d@.len() && k >= 4),
            out@ == start + Seq::new((k - d@.len()) as nat, |x: int| ' '),
        decreases 4 - k,
    {
        out.push(' ');
        k = k + 1;
        assert(Seq::new((k - d@.len()) as nat, |x: int| ' ') =~= Seq::new((k - 1 - d@.len()) as nat, |x: int| ' ').push(' '));
    }
    push_all(out, &d);
    proof {
        if d@.len() >= 4 {
            assert(out@ =~= start + d@);
        } else {
            assert(out@ =~= start + padded(n as nat));
        }
    }
}

/// Appends the row for one shown match.
fn push_entry(out: &mut Vec<char>, e: &(usize, String))
    ensures
        final(out)@ == old(out)@ + entry_line((e.0, e.1@)),
{
    push_str(out, "  ");
    push_padded(out, e.0);
    push_str(out, ": ");
    push_str(out, e.1.as_str());
    push_str(out, "\n");
    assert(out@ =~= old(out)@ + entry_line((e.0, e.1@)));
}

/// Renders the report over grouped matches: a header, one block per file while
/// fewer than `max_results` matches are shown, and how many were left out.
#[verifier::rlimit(60)]
#[verifier::spinoff_prover]
pub fn render_report(groups: &Vec<FileGroup>, total: usize, max_results: usize) -> (r: String)
    ensures
        r@ == report(groups_view(groups@), total as nat, max_results as int),
{
    let ghost gs = groups_view(groups@);
    let ghost max = max_results as int;
    let ghost full = render_files(gs, 0, 0, max);
    let mut out: Vec<char> = Vec::new();
    push_str(&mut out, "🔍 ");
    push_decimal(&mut out, total);
    push_str(&mut out, " in ");
    push_decimal(&mut out, groups.len());
    push_str(&mut out, "F:\n\n");
    let ghost base = out@;
    assert(base =~= report_header(total as nat, gs.len()));
    let mut i: usize = 0;
    let mut shown: usize = 0;
    while i < groups.len() && shown < max_results
        invariant
            gs == groups_view(groups@),
            max == max_results as int,
            full == render_files(gs, 0, 0, max),
            i <= gs.len(),
            shown <= max_results,
            base + full.0 == out@ + render_files(gs, i as int, shown as int, max).0,
            render_files(gs, i as int, shown as int, max).1 == full.1,
        decreases gs.len() - i,
    {
        let g = &groups[i];
        let ghost gv = gs[i as int];
        let ghost es = gv.1;
        let n = g.entries.len();
        let limit: usize = if n < PER_FILE { n } else { PER_FILE };
        let ghost body = render_entries(es, 0, limit as int, shown as int, max);
        let ghost rest = render_files(gs, i + 1, body.1, max);
        let ghost before = out@;
        assert(gv == group_view(*g));
        assert(es.len() == n);
        assert(render_files(gs, i as int, shown as int, max) == (file_head(gv) + body.0 + file_tail(gv) + rest.0, rest.1));
        push_str(&mut out, "📄 ");
        let cp = compact_path(g.file.as_str());
        push_str(&mut out, cp.as_str());
        push_str(&mut out, " (");
        push_decimal(&mut out, n);
        push_str(&mut out, "):\n");
        assert(out@ =~= before + file_head(gv));
        let ghost mid = out@;
        let mut j: usize = 0;
        while j < limit && shown < max_results
            invariant
                *g == groups@[i as int],
                es == entries_view(g.entries@),
                limit <= es.len(),
                max == max_results as int,
                j <= limit,
                shown <= max_results,
                mid + body.0 == out@ + render_entries(es, j as int, limit as int, shown as int, max).0,
                render_entries(es, j as int, limit as int, shown as int, max).1 == body.1,
            decreases limit - j,
        {
            let ghost o = out@;
            push_entry(&mut out, &g.entries[j]);
            assert(es[j as int] == (g.entries@[j as int].0, g.entries@[j as int].1@));
            assert(o + render_entries(es, j as int, limit as int, shown as int, max).0
                =~= out@ + render_entries(es, j + 1, limit as int, shown + 1, max).0);
            j = j + 1;
            shown = shown + 1;
        }
        assert(out@ + Seq::<char>::empty() =~= out@);
        let ghost after_body = out@;
        if n > PER_FILE {
            push_str(&mut out, "  +");
            push_decimal(&mut out, n - PER_FILE);
            push_str(&mut out, "\n");
        }
        push_str(&mut out, "\n");
        assert(out@ =~= after_body + file_tail(gv));
        i = i + 1;
    }
    assert(out@ =~= base + full.0);
    if total > shown {
        push_str(&mut out, "... +");
        push_decimal(&mut out, total - shown);
        push_str(&mut out, "\n");
    }
    assert(out@ =~= report(gs, total as nat, max));
    string_of(&out)
}


/// Condenses and groups the hits and renders the report; also returns how many
/// hits there were.
pub fn aggregate(
    raw: &Vec<RawMatch>,
    max_line_len: usize,
    max_results: usize,
    context_only: bool,
    pattern: &str,
) -> (r: (String, usize))
    ensures
        r.0@ == summary(raw@, max_line_len as int, max_results as int, context_only, pattern@),
        r.1 == raw@.len(),
{
    if raw.len() == 0 {
        let mut out: Vec<char> = Vec::new();
        push_str(&mut out, "🔍 0 for '");
        push_str(&mut out, pattern);
        push_str(&mut out, "'");
        return (string_of(&out), 0);
    }
    let groups = group_matches(raw, max_line_len, context_only, pattern);
    (render_report(&groups, raw.len(), max_results), raw.len())
}

/// How many matches the groups hold together.
pub open spec fn total_entries(gs: Seq<Group>) -> nat
    decreases gs.len(),
{
    if gs.len() == 0 {
        0
    } else {
        gs[0].1.len() + total_entries(gs.drop_first())
    }
}

/// How many matches the trailing line reports as left out.
pub open spec fn omitted(total: int, shown: int) -> int {
    if total > shown { total - shown } else { 0 }
}

proof fn lemma_add_count(gs: Seq<Group>, file: Seq<char>, e: Entry)
    ensures
        total_entries(add_to_groups(gs, file, e)) == total_entries(gs) + 1,
    decreases gs.len(),
{
    if gs.len() == 0 {
        assert(add_to_groups(gs, file, e).drop_first() =~= Seq::<Group>::empty());
        assert(total_entries(Seq::<Group>::empty()) == 0);
    } else if gs[0].0 == file {
        assert(add_to_groups(gs, file, e).drop_first() =~= gs.drop_first());
        assert(add_to_groups(gs, file, e)[0].1.len() == gs[0].1.len() + 1);
    } else if str_less(file, gs[0].0) {
        assert(add_to_groups(gs, file, e).drop_first() =~= gs);
        assert(add_to_groups(gs, file, e)[0].1.len() == 1);
    } else {
        lemma_add_count(gs.drop_first(), file, e);
        assert(add_to_groups(gs, file, e).drop_first() =~= add_to_groups(gs.drop_first(), file, e));
    }
}

proof fn lemma_grouped_count(ms: Seq<(Seq<char>, Entry)>)
    ensures
        total_entries(grouped(ms)) == ms.len(),
    decreases ms.len(),
{
    if ms.len() > 0 {
        lemma_grouped_count(ms.drop_last());
        lemma_add_count(grouped(ms.drop_last()), ms.last().0, ms.last().1);
    }
}

proof fn lemma_entries_bound(es: Seq<Entry>, j: int, limit: int, shown: int, max: int)
    requires
        0 <= j,
        shown <= max,
    ensures
        shown <= render_entries(es, j, limit, shown, max).1 <= max,
        render_entries(es, j, limit, shown, max).1 - shown <= if limit >= j { limit - j } else { 0 },
    decreases limit - j,
{
    if j < limit && shown < max {
        lemma_entries_bound(es, j + 1, limit, shown + 1, max);
    }
}

proof fn lemma_files_bound(gs: Seq<Group>, i: int, shown: int, max: int)
    requires
        0 <= i <= gs.len(),
        shown <= max,
    ensures
        shown <= render_files(gs, i, shown, max).1 <= max,
        render_files(gs, i, shown, max).1 - shown <= total_entries(gs.skip(i)),
    decreases gs.len() - i,
{
    if i < gs.len() && shown < max {
        let g = gs[i];
        let limit = min_int(PER_FILE as int, g.1.len() as int);
        lemma_entries_bound(g.1, 0, limit, shown, max);
        let body = render_entries(g.1, 0, limit, shown, max);
        lemma_files_bound(gs, i + 1, body.1, max);
        assert(gs.skip(i).drop_first() =~= gs.skip(i + 1));
        assert(gs.skip(i)[0] == g);
    }
}

/// However the hits fall into files, at most `max_results` match rows are
/// rendered, and those rows together with the count on the trailing line make
/// up exactly the number of hits.
pub proof fn lemma_summary_counts(
    raw: Seq<RawMatch>,
    max_line_len: int,
    max_results: int,
    context_only: bool,
    pattern: Seq<char>,
)
    requires
        max_results >= 0,
    ensures
        ({
            let shown = render_files(grouped(keyed(raw, max_line_len, context_only, pattern)), 0, 0, max_results).1;
            &&& 0 <= shown <= max_results
            &&& shown + omitted(raw.len() as int, shown) == raw.len()
        }),
{
    let ks = keyed(raw, max_line_len, context_only, pattern);
    let gs = grouped(ks);
    lemma_grouped_count(ks);
    lemma_files_bound(gs, 0, 0, max_results);
    assert(gs.skip(0) =~= gs);
}

} // verus!
