//! The "unfinished" marker: a line that starts, after optional whitespace,
//! with `//` or `///`, optional whitespace, and the words `I AM NOT DONE`
//! in any letter case, separated by runs of whitespace.

use vstd::prelude::*;

use crate::text::strip_cr;

verus! {

/// Unicode `White_Space`, the whitespace that the marker grammar skips.
pub open spec fn is_space(c: char) -> bool {
    let u = c as u32;
    (0x09 <= u && u <= 0x0d) || u == 0x20 || u == 0x85 || u == 0xa0 || u == 0x1680 || (0x2000
        <= u && u <= 0x200a) || u == 0x2028 || u == 0x2029 || u == 0x202f || u == 0x205f || u
        == 0x3000
}

/// `c` is the upper-case ASCII letter `up`, or its lower-case form.
pub open spec fn same_letter(c: char, up: char) -> bool {
    c == up || c as u32 == up as u32 + 32
}

/// The first index at or after `i` that does not hold whitespace.
pub open spec fn skip_space(l: Seq<char>, i: int) -> int
    decreases l.len() - i,
{
    if 0 <= i < l.len() && is_space(l[i]) {
        skip_space(l, i + 1)
    } else {
        i
    }
}

/// The upper-case word `w` stands at index `i` of `l`, in any letter case.
pub open spec fn word_at(l: Seq<char>, i: int, w: Seq<char>) -> bool {
    &&& 0 <= i
    &&& i + w.len() <= l.len()
    &&& forall|k: int| 0 <= k < w.len() ==> same_letter(#[trigger] l[i + k], w[k])
}

/// One or more whitespace characters from `i` on, then the word `w`:
/// the index just past the word.
pub open spec fn gap_then_word(l: Seq<char>, i: int, w: Seq<char>) -> Option<int> {
    let j = skip_space(l, i);
    if j > i && word_at(l, j, w) {
        Some(j + w.len())
    } else {
        None
    }
}

/// The index just past the comment leader `//` or `///` that opens `l`
/// after its leading whitespace.
pub open spec fn leader_end(l: Seq<char>) -> Option<int> {
    let a = skip_space(l, 0);
    if a + 1 < l.len() && l[a] == '/' && l[a + 1] == '/' {
        if a + 2 < l.len() && l[a + 2] == '/' {
            Some(a + 3)
        } else {
            Some(a + 2)
        }
    } else {
        None
    }
}

/// The words of the marker, in upper case.
pub open spec fn word_i() -> Seq<char> {
    seq!['I']
}

pub open spec fn word_am() -> Seq<char> {
    seq!['A', 'M']
}

pub open spec fn word_not() -> Seq<char> {
    seq!['N', 'O', 'T']
}

pub open spec fn word_done() -> Seq<char> {
    seq!['D', 'O', 'N', 'E']
}

/// Where the marker that opens the line `l` ends, if `l` opens with one.
pub open spec fn marker_end(l: Seq<char>) -> Option<int> {
    match leader_end(l) {
        None => None,
        Some(b) => {
            let c = skip_space(l, b);
            if !word_at(l, c, word_i()) {
                None
            } else {
                match gap_then_word(l, c + 1, word_am()) {
                    None => None,
                    Some(d) => match gap_then_word(l, d, word_not()) {
                        None => None,
                        Some(e) => gap_then_word(l, e, word_done()),
                    },
                }
            }
        }
    }
}

/// An optional index, widened to `int`.
pub open spec fn as_int(r: Option<usize>) -> Option<int> {
    match r {
        Some(e) => Some(e as int),
        None => None,
    }
}

/// The line `l` is a marker line.
pub open spec fn is_marker(l: Seq<char>) -> bool {
    marker_end(l) is Some
}

/// Skipping whitespace reads no further than the first character that is
/// not whitespace.
pub proof fn lemma_skip_space_prefix(l: Seq<char>, m: Seq<char>, i: int)
    requires
        0 <= i,
        skip_space(l, i) < l.len(),
        skip_space(l, i) < m.len(),
        forall|k: int| i <= k <= skip_space(l, i) ==> m[k] == l[k],
    ensures
        skip_space(m, i) == skip_space(l, i),
    decreases l.len() - i,
{
    lemma_skip_space_bounds(l, i);
    if i < l.len() && is_space(l[i]) {
        lemma_skip_space_prefix(l, m, i + 1);
    }
}

pub proof fn lemma_skip_space_bounds(l: Seq<char>, i: int)
    requires
        0 <= i,
    ensures
        i <= skip_space(l, i),
        i <= l.len() ==> skip_space(l, i) <= l.len(),
    decreases l.len() - i,
{
    if 0 <= i < l.len() && is_space(l[i]) {
        lemma_skip_space_bounds(l, i + 1);
    }
}

/// A marker ends within its line, on a letter.
pub proof fn lemma_marker_end_bounds(l: Seq<char>)
    requires
        marker_end(l) is Some,
    ensures
        0 < marker_end(l)->0 <= l.len(),
        same_letter(l[marker_end(l)->0 - 1], 'E'),
{
    let e = marker_end(l)->0;
    let j = e - 4;
    assert(word_at(l, j, word_done()));
    assert(same_letter(l[j + 3], word_done()[3]));
}

/// Whether a line opens with a marker, and where the marker ends, depends
/// only on the characters up to that end.
pub proof fn lemma_marker_prefix(l: Seq<char>, m: Seq<char>)
    requires
        marker_end(l) is Some,
        marker_end(l)->0 <= m.len(),
        forall|k: int| 0 <= k < marker_end(l)->0 ==> m[k] == l[k],
    ensures
        marker_end(m) == marker_end(l),
{
    let e = marker_end(l)->0;
    lemma_skip_space_bounds(l, 0);
    let a = skip_space(l, 0);
    let b = leader_end(l)->0;
    lemma_skip_space_bounds(l, b);
    let c = skip_space(l, b);
    assert(word_at(l, c, word_i()));
    assert(same_letter(l[c + 0], word_i()[0]));
    let d = gap_then_word(l, c + 1, word_am())->0;
    let f = gap_then_word(l, d, word_not())->0;
    lemma_skip_space_bounds(l, c + 1);
    lemma_skip_space_bounds(l, d);
    lemma_skip_space_bounds(l, f);
    let j1 = skip_space(l, c + 1);
    let j2 = skip_space(l, d);
    let j3 = skip_space(l, f);
    assert(word_at(l, j1, word_am()));
    assert(word_at(l, j2, word_not()));
    assert(word_at(l, j3, word_done()));
    assert(e == j3 + 4);
    lemma_skip_space_prefix(l, m, 0);
    assert(leader_end(m) == leader_end(l));
    lemma_skip_space_prefix(l, m, b);
    assert(word_at(m, c, word_i()));
    lemma_skip_space_prefix(l, m, c + 1);
    assert(word_at(m, j1, word_am())) by {
        assert forall|k: int| 0 <= k < word_am().len() implies same_letter(
            #[trigger] m[j1 + k],
            word_am()[k],
        ) by {
            assert(same_letter(l[j1 + k], word_am()[k]));
        }
    }
    lemma_skip_space_prefix(l, m, d);
    assert(word_at(m, j2, word_not())) by {
        assert forall|k: int| 0 <= k < word_not().len() implies same_letter(
            #[trigger] m[j2 + k],
            word_not()[k],
        ) by {
            assert(same_letter(l[j2 + k], word_not()[k]));
        }
    }
    lemma_skip_space_prefix(l, m, f);
    assert(word_at(m, j3, word_done())) by {
        assert forall|k: int| 0 <= k < word_done().len() implies same_letter(
            #[trigger] m[j3 + k],
            word_done()[k],
        ) by {
            assert(same_letter(l[j3 + k], word_done()[k]));
        }
    }
}

/// A carriage return at the end of a line changes nothing of its marker.
pub proof fn lemma_marker_strip_cr(p: Seq<char>)
    ensures
        marker_end(strip_cr(p)) == marker_end(p),
{
    if p.len() > 0 && p.last() == '\r' {
        let l = p.drop_last();
        if marker_end(p) is Some {
            lemma_marker_end_bounds(p);
            lemma_marker_prefix(p, l);
        } else if marker_end(l) is Some {
            lemma_marker_end_bounds(l);
            lemma_marker_prefix(l, p);
        }
    }
}

fn space_char(c: char) -> (r: bool)
    ensures
        r == is_space(c),
{
    let u = c as u32;
    (0x09 <= u && u <= 0x0d) || u == 0x20 || u == 0x85 || u == 0xa0 || u == 0x1680 || (0x2000
        <= u && u <= 0x200a) || u == 0x2028 || u == 0x2029 || u == 0x202f || u == 0x205f || u
        == 0x3000
}

fn skip_spaces(l: &Vec<char>, i: usize) -> (j: usize)
    requires
        i <= l.len(),
    ensures
        j as int == skip_space(l@, i as int),
        i <= j <= l.len(),
{
    let mut j = i;
    while j < l.len() && space_char(l[j])
        invariant
            i <= j <= l.len(),
            skip_space(l@, j as int) == skip_space(l@, i as int),
        decreases l.len() - j,
    {
        j = j + 1;
    }
    j
}

pub(crate) fn word_here(l: &Vec<char>, i: usize, w: &[char]) -> (r: bool)
    requires
        i <= l.len(),
        forall|k: int| 0 <= k < w@.len() ==> 'A' <= #[trigger] w@[k] <= 'Z',
    ensures
        r == word_at(l@, i as int, w@),
{
    if w.len() > l.len() - i {
        return false;
    }
    let mut k: usize = 0;
    while k < w.len()
        invariant
            k <= w@.len(),
            i + w@.len() <= l.len(),
            forall|m: int| 0 <= m < w@.len() ==> 'A' <= #[trigger] w@[m] <= 'Z',
            forall|m: int| 0 <= m < k ==> same_letter(#[trigger] l@[i + m], w@[m]),
        decreases w@.len() - k,
    {
        let c = l[i + k];
        let up = w[k];
        if !(c == up || c as u32 == up as u32 + 32) {
            return false;
        }
        k = k + 1;
    }
    true
}

fn gap_word(l: &Vec<char>, i: usize, w: &[char]) -> (r: Option<usize>)
    requires
        i <= l.len(),
        forall|k: int| 0 <= k < w@.len() ==> 'A' <= #[trigger] w@[k] <= 'Z',
    ensures
        r matches Some(e) ==> e <= l.len(),
        as_int(r) == gap_then_word(l@, i as int, w@),
{
    let j = skip_spaces(l, i);
    if j > i && word_here(l, j, w) {
        Some(j + w.len())
    } else {
        None
    }
}

/// Where the marker that opens `l` ends, if `l` opens with one.
pub fn find_marker_end(l: &Vec<char>) -> (r: Option<usize>)
    ensures
        as_int(r) == marker_end(l@),
        r matches Some(e) ==> e <= l.len(),
{
    let a = skip_spaces(l, 0);
    if !(l.len() - a >= 2 && l[a] == '/' && l[a + 1] == '/') {
        return None;
    }
    let b = if l.len() - a > 2 && l[a + 2] == '/' {
        a + 3
    } else {
        a + 2
    };
    let c = skip_spaces(l, b);
    let wi = ['I'];
    let wam = ['A', 'M'];
    let wnot = ['N', 'O', 'T'];
    let wdone = ['D', 'O', 'N', 'E'];
    assert(wi@ == word_i());
    assert(wam@ == word_am());
    assert(wnot@ == word_not());
    assert(wdone@ == word_done());
    if !word_here(l, c, &wi) {
        return None;
    }
    match gap_word(l, c + 1, &wam) {
        None => None,
        Some(d) => match gap_word(l, d, &wnot) {
            None => None,
            Some(e) => gap_word(l, e, &wdone),
        },
    }
}

} // verus!
