//! Exercise records, the state of an exercise derived from its source text,
//! and the rewrite that marks an exercise as done.

use vstd::prelude::*;

use crate::marker::{
    find_marker_end, is_marker, lemma_marker_end_bounds, lemma_marker_strip_cr, marker_end, word_at,
    word_here,
};
use crate::text::{
    chars_of, copy_span, join_pieces, lemma_join_pieces, lemma_pieces_no_newline,
    lemma_pieces_nonempty, lemma_pieces_of_join, line_spans, lines, no_newline, piece_spans, pieces,
    span_of, spans_fit, strip_cr,
};

verus! {

/// Lines of context shown on each side of the marker line.
pub const CONTEXT: usize = 2;

/// Which backend operation applies to an exercise.
#[derive(Clone, Copy, Debug, PartialEq, Eq, Structural)]
pub enum Mode {
    Build,
    Run,
    Test,
}

/// An exercise: its name, the path of its source file, its mode and a hint.
#[derive(Debug)]
pub struct Exercise {
    pub name: String,
    pub path: String,
    pub mode: Mode,
    pub hint: String,
}

/// The exercises of a course, in order.
#[derive(Debug)]
pub struct ExerciseList {
    pub exercises: Vec<Exercise>,
}

/// Whether an exercise is done, and if not, the lines around its marker.
#[derive(PartialEq, Debug)]
pub enum State {
    Done,
    Pending(Vec<ContextLine>),
}

/// One line of context: its text, its 1-based number, and whether it is the
/// marker line.
#[derive(PartialEq, Debug)]
pub struct ContextLine {
    pub line: String,
    pub number: usize,
    pub important: bool,
}

/// What a backend operation printed.
#[derive(Debug)]
pub struct ExerciseOutput {
    pub stdout: String,
    pub stderr: String,
}

/// A backend operation to perform on the source file at `path`.
#[derive(Debug)]
pub struct Invocation {
    pub action: Mode,
    pub path: String,
}

impl View for ContextLine {
    type V = (Seq<char>, int, bool);

    open spec fn view(&self) -> (Seq<char>, int, bool) {
        (self.line@, self.number as int, self.important)
    }
}

pub open spec fn context_view(c: Seq<ContextLine>) -> Seq<(Seq<char>, int, bool)> {
    c.map_values(|l: ContextLine| l@)
}

impl View for State {
    /// `None` when done, else the context lines.
    type V = Option<Seq<(Seq<char>, int, bool)>>;

    open spec fn view(&self) -> Option<Seq<(Seq<char>, int, bool)>> {
        match self {
            State::Done => None,
            State::Pending(c) => Some(context_view(c@)),
        }
    }
}

/// Line `i` of `ls` is the first marker line.
pub open spec fn is_pivot(ls: Seq<Seq<char>>, i: int) -> bool {
    &&& 0 <= i < ls.len()
    &&& is_marker(ls[i])
    &&& forall|k: int| 0 <= k < i ==> !is_marker(#[trigger] ls[k])
}

/// The first line of the context window around line `i`.
pub open spec fn window_start(i: int) -> int {
    if i >= CONTEXT {
        i - CONTEXT
    } else {
        0
    }
}

/// The last line of the context window around line `i` of `n` lines.
pub open spec fn window_end(n: int, i: int) -> int {
    if i + CONTEXT < n {
        i + CONTEXT
    } else {
        n - 1
    }
}

/// The lines of `ls` from `i - CONTEXT` to `i + CONTEXT`, as far as they
/// exist, numbered from 1, with line `i` marked.
pub open spec fn window(ls: Seq<Seq<char>>, i: int) -> Seq<(Seq<char>, int, bool)> {
    let lo = window_start(i);
    Seq::new(
        (window_end(ls.len() as int, i) + 1 - lo) as nat,
        |j: int| (ls[lo + j], lo + j + 1, lo + j == i),
    )
}

/// The state of an exercise whose source text is `s`: done when no line is a
/// marker line, else the window around the first marker line.
pub open spec fn source_state(s: Seq<char>) -> Option<Seq<(Seq<char>, int, bool)>> {
    let ls = lines(s);
    if exists|i: int| is_pivot(ls, i) {
        Some(window(ls, choose|i: int| is_pivot(ls, i)))
    } else {
        None
    }
}

/// `s` holds no marker line.
pub open spec fn all_done(s: Seq<char>) -> bool {
    forall|k: int| 0 <= k < lines(s).len() ==> !is_marker(#[trigger] lines(s)[k])
}

pub proof fn lemma_pivot_unique(ls: Seq<Seq<char>>, i: int, j: int)
    requires
        is_pivot(ls, i),
        is_pivot(ls, j),
    ensures
        i == j,
{
}

/// The index of the first marker line among the lines `ls` of `s`.
fn first_marker(s: &Vec<char>, ls: &Vec<(usize, usize)>) -> (r: Option<usize>)
    requires
        ls@.len() == lines(s@).len(),
        spans_fit(s@, ls@),
        forall|k: int| 0 <= k < ls@.len() ==> span_of(s@, #[trigger] ls@[k]) == lines(s@)[k],
    ensures
        match r {
            Some(i) => is_pivot(lines(s@), i as int),
            None => all_done(s@),
        },
{
    let n = ls.len();
    for k in 0..n
        invariant
            n == ls@.len(),
            ls@.len() == lines(s@).len(),
            spans_fit(s@, ls@),
            forall|j: int| 0 <= j < ls@.len() ==> span_of(s@, #[trigger] ls@[j]) == lines(s@)[j],
            forall|j: int| 0 <= j < k ==> !is_marker(#[trigger] lines(s@)[j]),
    {
        let (a, b) = ls[k];
        assert(span_of(s@, ls@[k as int]) == lines(s@)[k as int]);
        let line = copy_span(s, a, b);
        if find_marker_end(&line).is_some() {
            return Some(k);
        }
    }
    None
}

/// The context lines around line `i` of `source`, whose characters are `s`
/// and whose line spans are `ls`.
fn context_at(source: &str, s: &Vec<char>, ls: &Vec<(usize, usize)>, i: usize) -> (r: Vec<
    ContextLine,
>)
    requires
        s@ == source@,
        i < ls@.len(),
        ls@.len() == lines(s@).len(),
        spans_fit(s@, ls@),
        forall|k: int| 0 <= k < ls@.len() ==> span_of(s@, #[trigger] ls@[k]) == lines(s@)[k],
    ensures
        context_view(r@) == window(lines(s@), i as int),
{
    let n = ls.len();
    let lo = if i >= CONTEXT {
        i - CONTEXT
    } else {
        0
    };
    let hi = if n - i > CONTEXT {
        i + CONTEXT
    } else {
        n - 1
    };
    let ghost w = window(lines(s@), i as int);
    let mut r: Vec<ContextLine> = Vec::new();
    for j in lo..hi + 1
        invariant
            n == ls@.len(),
            lo == window_start(i as int),
            hi == window_end(n as int, i as int),
            hi < n,
            s@ == source@,
            ls@.len() == lines(s@).len(),
            spans_fit(s@, ls@),
            forall|k: int| 0 <= k < ls@.len() ==> span_of(s@, #[trigger] ls@[k]) == lines(s@)[k],
            w == window(lines(s@), i as int),
            context_view(r@) == w.take(j - lo),
    {
        let (a, b) = ls[j];
        assert(span_of(s@, ls@[j as int]) == lines(s@)[j as int]);
        let text = source.substring_char(a, b).to_owned();
        let ghost before = r@;
        let c = ContextLine { line: text, number: j + 1, important: j == i };
        assert(w[j - lo] == c@);
        r.push(c);
        assert(r@ =~= before.push(c));
        assert(context_view(r@) =~= context_view(before).push(c@));
        assert(context_view(r@) =~= w.take(j + 1 - lo));
    }
    assert(w.take(hi + 1 - lo) =~= w);
    r
}

/// A piece without the markers that open it: markers are taken from its
/// start until it no longer opens with one.
pub open spec fn clear_piece(p: Seq<char>) -> Seq<char>
    decreases p.len(),
    via clear_piece_decreases
{
    match marker_end(p) {
        Some(e) => clear_piece(p.skip(e)),
        None => p,
    }
}

#[via_fn]
proof fn clear_piece_decreases(p: Seq<char>) {
    if marker_end(p) is Some {
        lemma_marker_end_bounds(p);
    }
}

/// What is left of a piece once its markers are taken off is the end of
/// the piece, and opens with no marker.
pub proof fn lemma_clear_piece(p: Seq<char>)
    ensures
        clear_piece(p).len() <= p.len(),
        clear_piece(p) == p.skip(p.len() - clear_piece(p).len()),
        !is_marker(clear_piece(p)),
    decreases p.len(),
{
    if let Some(e) = marker_end(p) {
        lemma_marker_end_bounds(p);
        lemma_clear_piece(p.skip(e));
        assert(p.skip(e).skip(p.skip(e).len() - clear_piece(p).len()) =~= p.skip(
            p.len() - clear_piece(p).len(),
        ));
    } else {
        assert(p.skip(0) =~= p);
    }
}

/// `s` with every marker removed, all else kept as it was.
pub open spec fn without_markers(s: Seq<char>) -> Seq<char> {
    join_pieces(pieces(s).map_values(|p: Seq<char>| clear_piece(p)))
}

/// A line has the marker of the piece it comes from.
proof fn lemma_line_marker(s: Seq<char>, k: int)
    requires
        0 <= k < lines(s).len(),
    ensures
        lines(s)[k] == pieces(s)[k] || (lines(s)[k] == strip_cr(pieces(s)[k])),
        marker_end(lines(s)[k]) == marker_end(pieces(s)[k]),
{
    lemma_marker_strip_cr(pieces(s)[k]);
}

/// `s` holds no marker line exactly when none of its pieces opens with a
/// marker.
proof fn lemma_all_done_pieces(s: Seq<char>)
    ensures
        all_done(s) <==> forall|k: int|
            0 <= k < pieces(s).len() ==> !is_marker(#[trigger] pieces(s)[k]),
{
    lemma_pieces_nonempty(s);
    if all_done(s) {
        assert forall|k: int| 0 <= k < pieces(s).len() implies !is_marker(
            #[trigger] pieces(s)[k],
        ) by {
            if k < lines(s).len() {
                lemma_line_marker(s, k);
            } else {
                assert(pieces(s)[k] =~= Seq::<char>::empty());
            }
        }
    }
    if forall|k: int| 0 <= k < pieces(s).len() ==> !is_marker(#[trigger] pieces(s)[k]) {
        assert forall|k: int| 0 <= k < lines(s).len() implies !is_marker(#[trigger] lines(s)[k]) by {
            lemma_line_marker(s, k);
        }
    }
}

/// An exercise whose source holds no marker line is done.
pub proof fn lemma_unmarked_is_done(s: Seq<char>)
    requires
        all_done(s),
    ensures
        source_state(s) is None,
{
    if exists|i: int| is_pivot(lines(s), i) {
        let i = choose|i: int| is_pivot(lines(s), i);
        assert(!is_marker(lines(s)[i]));
    }
}

/// An exercise whose source holds exactly one marker line, line `i`, is
/// pending; its context runs from line `max(0, i - CONTEXT)` to line
/// `i + CONTEXT` (or the last line, if that comes first), numbered from 1, and
/// only line `i`, numbered `i + 1`, is marked important.
pub proof fn lemma_single_marker_window(s: Seq<char>, i: int)
    requires
        0 <= i < lines(s).len(),
        is_marker(lines(s)[i]),
        forall|k: int| 0 <= k < lines(s).len() && k != i ==> !is_marker(#[trigger] lines(s)[k]),
    ensures
        source_state(s) == Some(window(lines(s), i)),
        ({
            let w = window(lines(s), i);
            &&& w.len() == window_end(lines(s).len() as int, i) - window_start(i) + 1
            &&& w[0].1 == window_start(i) + 1
            &&& w.last().1 == window_end(lines(s).len() as int, i) + 1
            &&& forall|j: int|
                0 <= j < w.len() ==> (#[trigger] w[j]).1 == window_start(i) + j + 1 && w[j].0
                    == lines(s)[w[j].1 - 1] && (w[j].2 <==> w[j].1 == i + 1)
            &&& w[i - window_start(i)].2
        }),
{
    assert(is_pivot(lines(s), i));
    let j = choose|j: int| is_pivot(lines(s), j);
    lemma_pivot_unique(lines(s), i, j);
}

/// The context of a marker line among the first `CONTEXT` lines starts at
/// line number 1, and no line number is below 1.
pub proof fn lemma_window_near_start(s: Seq<char>, i: int)
    requires
        is_pivot(lines(s), i),
        i < CONTEXT,
    ensures
        source_state(s) is Some,
        source_state(s)->0[0].1 == 1,
        forall|j: int|
            0 <= j < source_state(s)->0.len() ==> (#[trigger] source_state(s)->0[j]).1 >= 1,
{
    let j = choose|j: int| is_pivot(lines(s), j);
    lemma_pivot_unique(lines(s), i, j);
}

/// Marking an exercise done whose source holds no marker line leaves the
/// source as it is.
pub proof fn lemma_mark_done_keeps_done(s: Seq<char>)
    requires
        all_done(s),
    ensures
        without_markers(s) == s,
{
    lemma_all_done_pieces(s);
    let c = pieces(s).map_values(|p: Seq<char>| clear_piece(p));
    assert(c =~= pieces(s));
    lemma_join_pieces(s);
}

/// After marking an exercise done its source holds no marker line.
pub proof fn lemma_mark_done_then_done(s: Seq<char>)
    ensures
        all_done(without_markers(s)),
        source_state(without_markers(s)) is None,
{
    let ps = pieces(s);
    let c = ps.map_values(|p: Seq<char>| clear_piece(p));
    lemma_pieces_nonempty(s);
    lemma_pieces_no_newline(s);
    assert forall|k: int| 0 <= k < c.len() implies no_newline(#[trigger] c[k]) && !is_marker(c[k]) by {
        assert(no_newline(ps[k]));
        lemma_clear_piece(ps[k]);
        let off = ps[k].len() - c[k].len();
        assert forall|j: int| 0 <= j < c[k].len() implies #[trigger] c[k][j] != '\n' by {
            assert(c[k][j] == ps[k][j + off]);
        }
    }
    lemma_pieces_of_join(c);
    lemma_all_done_pieces(without_markers(s));
    lemma_unmarked_is_done(without_markers(s));
}

/// Marking an exercise done twice leaves its source as marking it once
/// does.
pub proof fn lemma_mark_done_idempotent(s: Seq<char>)
    ensures
        without_markers(without_markers(s)) == without_markers(s),
{
    lemma_mark_done_then_done(s);
    lemma_mark_done_keeps_done(without_markers(s));
}

/// `t` is the upper-case word `w`, in any letter case.
pub open spec fn names(t: Seq<char>, w: Seq<char>) -> bool {
    t.len() == w.len() && word_at(t, 0, w)
}

/// The mode that the token `t` names: `build`, `run` or `test`, in any
/// letter case.
pub open spec fn mode_of(t: Seq<char>) -> Option<Mode> {
    if names(t, seq!['B', 'U', 'I', 'L', 'D']) {
        Some(Mode::Build)
    } else if names(t, seq!['R', 'U', 'N']) {
        Some(Mode::Run)
    } else if names(t, seq!['T', 'E', 'S', 'T']) {
        Some(Mode::Test)
    } else {
        None
    }
}

/// The mode that `token` names; `None` for any other token.
pub fn parse_mode(token: &str) -> (r: Option<Mode>)
    ensures
        r == mode_of(token@),
{
    let t = chars_of(token);
    let build = ['B', 'U', 'I', 'L', 'D'];
    let run = ['R', 'U', 'N'];
    let test = ['T', 'E', 'S', 'T'];
    assert(build@ == seq!['B', 'U', 'I', 'L', 'D']);
    assert(run@ == seq!['R', 'U', 'N']);
    assert(test@ == seq!['T', 'E', 'S', 'T']);
    if t.len() == 5 && word_here(&t, 0, &build) {
        Some(Mode::Build)
    } else if t.len() == 3 && word_here(&t, 0, &run) {
        Some(Mode::Run)
    } else if t.len() == 4 && word_here(&t, 0, &test) {
        Some(Mode::Test)
    } else {
        None
    }
}

impl Exercise {
    /// How an exercise is shown: its path.
    pub fn to_string(&self) -> (r: String)
        ensures
            r@ == self.path@,
    {
        self.path.clone()
    }

    /// The request to build this exercise.
    pub fn build(&self) -> (r: Invocation)
        ensures
            r.action == Mode::Build,
            r.path@ == self.path@,
    {
        Invocation { action: Mode::Build, path: self.path.clone() }
    }

    /// The request to run this exercise.
    pub fn run(&self) -> (r: Invocation)
        ensures
            r.action == Mode::Run,
            r.path@ == self.path@,
    {
        Invocation { action: Mode::Run, path: self.path.clone() }
    }

    /// The request to test this exercise.
    pub fn test(&self) -> (r: Invocation)
        ensures
            r.action == Mode::Test,
            r.path@ == self.path@,
    {
        Invocation { action: Mode::Test, path: self.path.clone() }
    }

    /// The state of this exercise, given the current text of its source file.
    pub fn state(&self, source: &str) -> (r: State)
        ensures
            r@ == source_state(source@),
    {
        let s = chars_of(source);
        let ls = line_spans(&s);
        match first_marker(&s, &ls) {
            None => State::Done,
            Some(i) => {
                let ctx = context_at(source, &s, &ls, i);
                proof {
                    let ghost j = choose|j: int| is_pivot(lines(s@), j);
                    lemma_pivot_unique(lines(s@), i as int, j);
                }
                State::Pending(ctx)
            },
        }
    }

    /// Whether this exercise, with source text `source`, is done.
    pub fn looks_done(&self, source: &str) -> (r: bool)
        ensures
            r == (source_state(source@) is None),
    {
        match self.state(source) {
            State::Done => true,
            State::Pending(_) => false,
        }
    }

    /// The source text `source` of this exercise with every marker removed.
    pub fn mark_done(&self, source: &str) -> (r: String)
        ensures
            r@ == without_markers(source@),
    {
        let s = chars_of(source);
        let ps = piece_spans(&s);
        let ghost cleared = pieces(s@).map_values(|p: Seq<char>| clear_piece(p));
        let mut out = String::new();
        proof {
            reveal_strlit("\n");
        }
        for k in 0..ps.len()
            invariant
                s@ == source@,
                ps@.len() == pieces(s@).len(),
                spans_fit(s@, ps@),
                forall|j: int| 0 <= j < ps@.len() ==> span_of(s@, #[trigger] ps@[j]) == pieces(s@)[j],
                cleared == pieces(s@).map_values(|p: Seq<char>| clear_piece(p)),
                out@ == join_pieces(cleared.take(k as int)),
        {
            let (a, b) = ps[k];
            assert(span_of(s@, ps@[k as int]) == pieces(s@)[k as int]);
            let mut from = a;
            loop
                invariant
                    a <= from <= b <= s@.len(),
                    clear_piece(s@.subrange(from as int, b as int)) == clear_piece(
                        pieces(s@)[k as int],
                    ),
                ensures
                    a <= from <= b,
                    s@.subrange(from as int, b as int) == clear_piece(pieces(s@)[k as int]),
                decreases b - from,
            {
                let rest = copy_span(&s, from, b);
                match find_marker_end(&rest) {
                    Some(e) => {
                        proof {
                            lemma_marker_end_bounds(rest@);
                        }
                        assert(rest@.skip(e as int) =~= s@.subrange(from + e, b as int));
                        from = from + e;
                    },
                    None => break,
                }
            }
            assert(cleared.take(k + 1).drop_last() =~= cleared.take(k as int));
            let ghost before = out@;
            let ghost next = cleared.take(k + 1);
            assert(next.last() == clear_piece(pieces(s@)[k as int]));
            proof {
                reveal_strlit("\n");
            }
            if k > 0 {
                out.append("\n");
            }
            out.append(source.substring_char(from, b));
            if k > 0 {
                assert(out@ =~= before + seq!['\n'] + next.last());
            } else {
                assert(out@ =~= next[0]);
            }
            assert(out@ == join_pieces(next));
        }
        assert(cleared.take(ps@.len() as int) =~= cleared);
        out
    }
}

/// An exercise with the given name, path, mode and hint.
pub fn create_new_exercise(name: &str, path: &str, mode: Mode, hint: &str) -> (r: Exercise)
    ensures
        r.name@ == name@,
        r.path@ == path@,
        r.mode == mode,
        r.hint@ == hint@,
{
    Exercise { name: name.to_owned(), path: path.to_owned(), mode, hint: hint.to_owned() }
}

} // verus!
