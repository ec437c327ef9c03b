use vstd::prelude::*;

use crate::text::{byte_len, chars_of, push_all, string_of, utf8_len};

verus! {

/// Paths up to this many UTF-8 bytes are shown as they are.
pub const COMPACT_LIMIT: usize = 50;

/// The pieces of `s` between `/` separators; an empty string has one empty piece.
pub open spec fn segments(s: Seq<char>) -> Seq<Seq<char>>
    decreases s.len(),
{
    if s.len() == 0 {
        seq![Seq::<char>::empty()]
    } else {
        let p = segments(s.drop_last());
        if s.last() == '/' {
            p.push(Seq::<char>::empty())
        } else {
            p.update(p.len() - 1, p.last().push(s.last()))
        }
    }
}

/// The display form of a path: the first piece, an ellipsis, and the last two pieces.
pub open spec fn elided(segs: Seq<Seq<char>>) -> Seq<char> {
    segs[0] + seq!['/', '.', '.', '.', '/'] + segs[segs.len() - 2] + seq!['/'] + segs.last()
}

/// The compacted display form of `p`.
pub open spec fn compact(p: Seq<char>) -> Seq<char> {
    if utf8_len(p) <= COMPACT_LIMIT || segments(p).len() <= 3 {
        p
    } else {
        elided(segments(p))
    }
}

pub proof fn lemma_segments_nonempty(s: Seq<char>)
    ensures
        segments(s).len() >= 1,
    decreases s.len(),
{
    if s.len() > 0 {
        lemma_segments_nonempty(s.drop_last());
    }
}

/// No piece holds a separator.
pub proof fn lemma_segments_no_slash(s: Seq<char>)
    ensures
        forall|k: int| 0 <= k < segments(s).len() ==> !segments(s)[k].contains('/'),
    decreases s.len(),
{
    if s.len() > 0 {
        lemma_segments_no_slash(s.drop_last());
        lemma_segments_nonempty(s.drop_last());
        let p = segments(s.drop_last());
        if s.last() != '/' {
            assert forall|k: int| 0 <= k < segments(s).len() implies !segments(s)[k].contains('/') by {
                if k == p.len() - 1 {
                    let e = p.last().push(s.last());
                    if e.contains('/') {
                        let j = choose|j: int| 0 <= j < e.len() && e[j] == '/';
                        assert(p.last()[j] == '/');
                    }
                }
            }
        } else {
            assert forall|k: int| 0 <= k < segments(s).len() implies !segments(s)[k].contains('/') by {
                if k == p.len() {
                    assert(segments(s)[k] =~= Seq::<char>::empty());
                }
            }
        }
    }
}

/// Appending text without a separator extends the last piece.
pub proof fn lemma_segments_extend(x: Seq<char>, y: Seq<char>)
    requires
        !y.contains('/'),
    ensures
        segments(x + y) == segments(x).update(segments(x).len() - 1, segments(x).last() + y),
    decreases y.len(),
{
    lemma_segments_nonempty(x);
    if y.len() == 0 {
        assert(x + y =~= x);
        assert(segments(x).last() + y =~= segments(x).last());
        assert(segments(x).update(segments(x).len() - 1, segments(x).last()) =~= segments(x));
    } else {
        let y0 = y.drop_last();
        assert(!y0.contains('/')) by {
            if y0.contains('/') {
                let j = choose|j: int| 0 <= j < y0.len() && y0[j] == '/';
                assert(y[j] == '/');
            }
        }
        lemma_segments_extend(x, y0);
        assert((x + y).drop_last() =~= x + y0);
        assert((x + y).last() == y.last());
        assert(y.last() != '/') by {
            assert(y[y.len() - 1] == y.last());
        }
        let sx = segments(x);
        let pp = segments(x + y0);
        assert(pp =~= sx.update(sx.len() - 1, sx.last() + y0));
        assert(pp.len() == sx.len());
        assert(pp.last() == sx.last() + y0);
        assert(segments(x + y) == pp.update(pp.len() - 1, pp.last().push(y.last())));
        assert(sx.last() + y0 + seq![y.last()] =~= sx.last() + y);
        assert((sx.last() + y0).push(y.last()) =~= sx.last() + y);
        assert(segments(x + y) =~= segments(x).update(segments(x).len() - 1, segments(x).last() + y));
    }
}

/// A separator starts a new, empty piece.
pub proof fn lemma_segments_slash(x: Seq<char>)
    ensures
        segments(x + seq!['/']) == segments(x).push(Seq::<char>::empty()),
{
    assert((x + seq!['/']).drop_last() =~= x);
}

proof fn lemma_segments_elided(a: Seq<char>, b: Seq<char>, c: Seq<char>)
    requires
        !a.contains('/'),
        !b.contains('/'),
        !c.contains('/'),
    ensures
        segments(a + seq!['/', '.', '.', '.', '/'] + b + seq!['/'] + c) == seq![a, seq!['.', '.', '.'], b, c],
{
    let e = Seq::<char>::empty();
    let dots = seq!['.', '.', '.'];
    assert(!dots.contains('/')) by {
        if dots.contains('/') {
            let j = choose|j: int| 0 <= j < dots.len() && dots[j] == '/';
        }
    }
    lemma_segments_extend(e, a);
    assert(e + a =~= a);
    assert(segments(e) =~= seq![e]);
    assert(segments(a) =~= seq![a]);
    let s1 = a + seq!['/'];
    lemma_segments_slash(a);
    let s2 = s1 + dots;
    lemma_segments_extend(s1, dots);
    assert(segments(s2) =~= seq![a, dots]);
    let s3 = s2 + seq!['/'];
    lemma_segments_slash(s2);
    let s4 = s3 + b;
    lemma_segments_extend(s3, b);
    assert(segments(s4) =~= seq![a, dots, b]);
    let s5 = s4 + seq!['/'];
    lemma_segments_slash(s4);
    let s6 = s5 + c;
    lemma_segments_extend(s5, c);
    assert(segments(s6) =~= seq![a, dots, b, c]);
    assert(a + seq!['/', '.', '.', '.', '/'] + b + seq!['/'] + c =~= s6);
}

/// Compacting a compacted path changes nothing.
pub proof fn lemma_compact_idempotent(p: Seq<char>)
    ensures
        compact(compact(p)) == compact(p),
{
    if !(utf8_len(p) <= COMPACT_LIMIT || segments(p).len() <= 3) {
        let s = segments(p);
        lemma_segments_no_slash(p);
        let a = s[0];
        let b = s[s.len() - 2];
        let c = s[s.len() - 1];
        lemma_segments_elided(a, b, c);
        let q = elided(s);
        assert(q =~= a + seq!['/', '.', '.', '.', '/'] + b + seq!['/'] + c);
        if !(utf8_len(q) <= COMPACT_LIMIT || segments(q).len() <= 3) {
            assert(elided(segments(q)) =~= q);
        }
    }
}

/// A path over the limit, of more than three pieces, does not grow when compacted, provided
/// its middle (the pieces between the first and the second-to-last, with the
/// separators between them) is at least as long as the `...` that replaces it;
/// the compacted form is six characters longer than its three kept pieces.
pub proof fn lemma_compact_not_longer(p: Seq<char>)
    requires
        utf8_len(p) > COMPACT_LIMIT,
        segments(p).len() > 3,
        p.len() >= segments(p)[0].len() + segments(p)[segments(p).len() - 2].len()
            + segments(p).last().len() + 6,
    ensures
        compact(p).len() == segments(p)[0].len() + segments(p)[segments(p).len() - 2].len()
            + segments(p).last().len() + 6,
        compact(p).len() <= p.len(),
{
}

/// Shortens a long path to its first directory and its last two components.
pub fn compact_path(path: &str) -> (r: String)
    ensures
        r@ == compact(path@),
{
    let p = chars_of(path);
    if byte_len(path) <= COMPACT_LIMIT {
        return string_of(&p);
    }
    let mut segs: Vec<Vec<char>> = Vec::new();
    let mut cur: Vec<char> = Vec::new();
    let mut i: usize = 0;
    assert(p@.take(0) =~= Seq::<char>::empty());
    while i < p.len()
        invariant
            i <= p@.len(),
            segs@.len() + 1 == segments(p@.take(i as int)).len(),
            forall|k: int| 0 <= k < segs@.len() ==> #[trigger] segs@[k]@ == segments(p@.take(i as int))[k],
            cur@ == segments(p@.take(i as int)).last(),
        decreases p@.len() - i,
    {
        let c = p[i];
        assert(p@.take(i + 1).drop_last() =~= p@.take(i as int));
        assert(p@.take(i + 1).last() == c);
        if c == '/' {
            segs.push(cur);
            cur = Vec::new();
        } else {
            cur.push(c);
        }
        i = i + 1;
    }
    assert(p@.take(p@.len() as int) =~= p@);
    if segs.len() <= 2 {
        return string_of(&p);
    }
    let n = segs.len();
    let mut out: Vec<char> = Vec::new();
    push_all(&mut out, &segs[0]);
    out.push('/');
    out.push('.');
    out.push('.');
    out.push('.');
    out.push('/');
    push_all(&mut out, &segs[n - 1]);
    out.push('/');
    push_all(&mut out, &cur);
    let ghost s = segments(p@);
    assert(out@ =~= elided(s));
    string_of(&out)
}

} // verus!
