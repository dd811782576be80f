//! Source text as characters, its newline-separated pieces, and its lines
//! as `str::lines` yields them.

use vstd::prelude::*;

verus! {

/// The pieces of `s` between its newline characters, in order: always one
/// more than the newlines in `s`, the last empty when `s` ends in a newline.
pub open spec fn pieces(s: Seq<char>) -> Seq<Seq<char>>
    decreases s.len(),
{
    if s.len() == 0 {
        seq![Seq::empty()]
    } else {
        let p = pieces(s.drop_last());
        if s.last() == '\n' {
            p.push(Seq::empty())
        } else {
            p.update(p.len() - 1, p.last().push(s.last()))
        }
    }
}

/// A piece without the carriage return that ends it, if one does.
pub open spec fn strip_cr(p: Seq<char>) -> Seq<char> {
    if p.len() > 0 && p.last() == '\r' {
        p.drop_last()
    } else {
        p
    }
}

/// The number of lines of `s`: its pieces, less a final empty one.
pub open spec fn line_count(s: Seq<char>) -> int {
    let p = pieces(s);
    if p.last().len() == 0 {
        p.len() - 1
    } else {
        p.len() as int
    }
}

/// The lines of `s`: split at `\n` or `\r\n`, with no empty line after a
/// final line ending.
pub open spec fn lines(s: Seq<char>) -> Seq<Seq<char>> {
    let p = pieces(s);
    Seq::new(
        line_count(s) as nat,
        |k: int|
            if k < p.len() - 1 {
                strip_cr(p[k])
            } else {
                p[k]
            },
    )
}

pub proof fn lemma_pieces_nonempty(s: Seq<char>)
    ensures
        pieces(s).len() >= 1,
    decreases s.len(),
{
    if s.len() > 0 {
        lemma_pieces_nonempty(s.drop_last());
    }
}

/// The pieces `ps` joined by newline characters.
pub open spec fn join_pieces(ps: Seq<Seq<char>>) -> Seq<char>
    decreases ps.len(),
{
    if ps.len() == 0 {
        Seq::empty()
    } else if ps.len() == 1 {
        ps[0]
    } else {
        join_pieces(ps.drop_last()) + seq!['\n'] + ps.last()
    }
}

/// No piece holds a newline.
pub open spec fn no_newline(p: Seq<char>) -> bool {
    forall|k: int| 0 <= k < p.len() ==> #[trigger] p[k] != '\n'
}

pub proof fn lemma_pieces_no_newline(s: Seq<char>)
    ensures
        forall|k: int| 0 <= k < pieces(s).len() ==> no_newline(#[trigger] pieces(s)[k]),
    decreases s.len(),
{
    if s.len() > 0 {
        lemma_pieces_no_newline(s.drop_last());
        lemma_pieces_nonempty(s.drop_last());
        let p = pieces(s.drop_last());
        if s.last() != '\n' {
            assert forall|k: int| 0 <= k < pieces(s).len() implies no_newline(
                #[trigger] pieces(s)[k],
            ) by {
                if k == p.len() - 1 {
                    assert(no_newline(p[k]));
                    assert forall|j: int| 0 <= j < pieces(s)[k].len() implies #[trigger] pieces(
                        s,
                    )[k][j] != '\n' by {
                        if j < p[k].len() {
                            assert(pieces(s)[k][j] == p[k][j]);
                        }
                    }
                }
            }
        }
    }
}

/// Joining the pieces of `s` gives back `s`.
pub proof fn lemma_join_pieces(s: Seq<char>)
    ensures
        join_pieces(pieces(s)) == s,
    decreases s.len(),
{
    if s.len() > 0 {
        let t = s.drop_last();
        lemma_join_pieces(t);
        lemma_pieces_nonempty(t);
        let p = pieces(t);
        let q = pieces(s);
        if s.last() == '\n' {
            assert(q.drop_last() =~= p);
            assert(s =~= t + seq!['\n'] + q.last());
        } else if p.len() == 1 {
            assert(q[0] =~= s);
        } else {
            assert(q.drop_last() =~= p.drop_last());
            assert(join_pieces(p) == join_pieces(p.drop_last()) + seq!['\n'] + p.last());
            assert(q.last() == p.last().push(s.last()));
            assert(s =~= t.push(s.last()));
            assert(s =~= join_pieces(p.drop_last()) + seq!['\n'] + q.last());
        }
    }
}

/// Splitting `a`, a newline and `b`, where `b` holds no newline, gives the
/// pieces of `a` and then `b`.
pub proof fn lemma_pieces_append(a: Seq<char>, b: Seq<char>)
    requires
        no_newline(b),
    ensures
        pieces(a + seq!['\n'] + b) == pieces(a).push(b),
    decreases b.len(),
{
    let s = a + seq!['\n'] + b;
    if b.len() == 0 {
        assert(s.drop_last() =~= a);
        assert(b =~= Seq::<char>::empty());
    } else {
        let b0 = b.drop_last();
        lemma_pieces_append(a, b0);
        assert(s.drop_last() =~= a + seq!['\n'] + b0);
        assert(b0.push(b.last()) =~= b);
        assert(pieces(s) =~= pieces(a).push(b));
    }
}

/// A text without newlines is its own single piece.
pub proof fn lemma_pieces_single(b: Seq<char>)
    requires
        no_newline(b),
    ensures
        pieces(b) == seq![b],
    decreases b.len(),
{
    if b.len() > 0 {
        let b0 = b.drop_last();
        lemma_pieces_single(b0);
        assert(b0.push(b.last()) =~= b);
        assert(pieces(b) =~= seq![b]);
    } else {
        assert(b =~= Seq::<char>::empty());
    }
}

/// Splitting pieces that were joined by newlines gives them back.
pub proof fn lemma_pieces_of_join(ps: Seq<Seq<char>>)
    requires
        ps.len() >= 1,
        forall|k: int| 0 <= k < ps.len() ==> no_newline(#[trigger] ps[k]),
    ensures
        pieces(join_pieces(ps)) == ps,
    decreases ps.len(),
{
    if ps.len() == 1 {
        lemma_pieces_single(ps[0]);
        assert(seq![ps[0]] =~= ps);
    } else {
        let init = ps.drop_last();
        lemma_pieces_of_join(init);
        lemma_pieces_append(join_pieces(init), ps.last());
        assert(init.push(ps.last()) =~= ps);
    }
}

/// A span `(a, b)` of character indices into `s`.
pub open spec fn span_of(s: Seq<char>, r: (usize, usize)) -> Seq<char> {
    s.subrange(r.0 as int, r.1 as int)
}

pub open spec fn spans_fit(s: Seq<char>, r: Seq<(usize, usize)>) -> bool {
    forall|k: int| 0 <= k < r.len() ==> #[trigger] r[k].0 <= r[k].1 <= s.len()
}

/// The characters of `s`, in order.
pub fn chars_of(s: &str) -> (r: Vec<char>)
    ensures
        r@ == s@,
{
    broadcast use vstd::string::group_string_axioms;

    let mut v: Vec<char> = Vec::new();
    for c in it: s.chars()
        invariant
            it.seq() == s@,
            v@ == s@.take(it.index() as int),
    {
        v.push(c);
        assert(v@ =~= s@.take(it.index() + 1));
    }
    assert(v@ =~= s@);
    v
}

/// The characters of `s` from index `a` up to `b`.
pub fn copy_span(s: &Vec<char>, a: usize, b: usize) -> (r: Vec<char>)
    requires
        a <= b <= s.len(),
    ensures
        r@ == s@.subrange(a as int, b as int),
{
    let mut v: Vec<char> = Vec::new();
    for i in a..b
        invariant
            b <= s.len(),
            v@ == s@.subrange(a as int, i as int),
    {
        v.push(s[i]);
        assert(v@ =~= s@.subrange(a as int, i + 1));
    }
    v
}

/// The spans of the pieces of `s`.
pub fn piece_spans(s: &Vec<char>) -> (r: Vec<(usize, usize)>)
    ensures
        r@.len() == pieces(s@).len(),
        spans_fit(s@, r@),
        forall|k: int| 0 <= k < r@.len() ==> span_of(s@, #[trigger] r@[k]) == pieces(s@)[k],
{
    let mut r: Vec<(usize, usize)> = Vec::new();
    let mut start: usize = 0;
    let n = s.len();
    for i in 0..n
        invariant
            n == s@.len(),
            start <= i,
            r@.len() + 1 == pieces(s@.take(i as int)).len(),
            spans_fit(s@, r@),
            forall|k: int|
                0 <= k < r@.len() ==> #[trigger] r@[k].1 <= i && span_of(s@, r@[k]) == pieces(
                    s@.take(i as int),
                )[k],
            s@.subrange(start as int, i as int) == pieces(s@.take(i as int)).last(),
    {
        let ghost t = s@.take(i + 1);
        proof {
            lemma_pieces_nonempty(s@.take(i as int));
            assert(t.drop_last() =~= s@.take(i as int));
        }
        if s[i] == '\n' {
            r.push((start, i));
            start = i + 1;
            assert(s@.subrange(start as int, i + 1) =~= Seq::<char>::empty());
        } else {
            assert(s@.subrange(start as int, i + 1) =~= s@.subrange(start as int, i as int).push(
                s@[i as int],
            ));
        }
    }
    proof {
        lemma_pieces_nonempty(s@);
        assert(s@.take(n as int) =~= s@);
    }
    r.push((start, n));
    r
}

/// The spans of the lines of `s`.
pub fn line_spans(s: &Vec<char>) -> (r: Vec<(usize, usize)>)
    ensures
        r@.len() == lines(s@).len(),
        spans_fit(s@, r@),
        forall|k: int| 0 <= k < r@.len() ==> span_of(s@, #[trigger] r@[k]) == lines(s@)[k],
{
    let p = piece_spans(s);
    proof {
        lemma_pieces_nonempty(s@);
    }
    let last = p.len() - 1;
    let count = if p[last].0 == p[last].1 {
        last
    } else {
        p.len()
    };
    let mut r: Vec<(usize, usize)> = Vec::new();
    for k in 0..count
        invariant
            p@.len() == pieces(s@).len(),
            spans_fit(s@, p@),
            forall|j: int| 0 <= j < p@.len() ==> span_of(s@, #[trigger] p@[j]) == pieces(s@)[j],
            last == p@.len() - 1,
            count == line_count(s@),
            count <= p@.len(),
            r@.len() == k,
            spans_fit(s@, r@),
            forall|j: int| 0 <= j < k ==> span_of(s@, #[trigger] r@[j]) == lines(s@)[j],
    {
        let (a, b) = p[k];
        assert(span_of(s@, p@[k as int]) == pieces(s@)[k as int]);
        if k < last && a < b && s[b - 1] == '\r' {
            r.push((a, b - 1));
            assert(span_of(s@, (a, (b - 1) as usize)) =~= strip_cr(pieces(s@)[k as int]));
        } else {
            r.push((a, b));
        }
    }
    r
}

} // verus!
