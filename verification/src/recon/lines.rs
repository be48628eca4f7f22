//! Lines of text runs.
use super::model::{CharStyle, Rotation, VAlign};
use super::select::{find_best, first_best};
use super::text::{
    chars_of, is_space, is_whitespace, string_of, trim_chars, trimmed,
};
use vstd::prelude::*;

verus! {

/// A text run of a line, in reading order.
#[derive(Debug)]
pub struct LineRun {
    pub text: String,
    pub style: CharStyle,
    /// The text run of the page that this came from.
    pub source_index: Option<usize>,
    /// Raised or lowered against its line.
    pub vertical_align: VAlign,
    /// The link whose area covers the run.
    pub link: Option<usize>,
    /// For each run before it on the line, whether this one follows that run
    /// without a gap between words.
    pub follows: Vec<bool>,
}

/// A line: runs on one baseline, left to right.
#[derive(Debug)]
pub struct Line {
    pub runs: Vec<LineRun>,
    pub rotation: Rotation,
}

/// Each run says of every run before it whether it follows it.
pub open spec fn runs_wf(runs: Seq<LineRun>) -> bool {
    forall|k: int| 0 <= k < runs.len() ==> (#[trigger] runs[k]).follows@.len() == k
}

impl Line {
    pub open spec fn wf(&self) -> bool {
        runs_wf(self.runs@)
    }
}

pub open spec fn starts_blank(s: Seq<char>) -> bool {
    s.len() > 0 && is_space(s[0])
}

pub open spec fn ends_blank(s: Seq<char>) -> bool {
    s.len() > 0 && is_space(s.last())
}

/// A space belongs between run `k` and run `j`: one of them carried white
/// space at that end, or there is a gap between words.
pub open spec fn spaced(runs: Seq<LineRun>, k: int, j: int) -> bool {
    ends_blank(runs[k].text@) || starts_blank(runs[j].text@) || !runs[j].follows@[k]
}

/// The last run before `n` that is not blank.
pub open spec fn last_word(runs: Seq<LineRun>, n: int) -> Option<int>
    decreases n,
{
    if n <= 0 {
        None
    } else if trimmed(runs[n - 1].text@).len() > 0 {
        Some(n - 1)
    } else {
        last_word(runs, n - 1)
    }
}

/// The space that goes before run `j` when `prev` is the run before it.
pub open spec fn gap_before(runs: Seq<LineRun>, prev: Option<int>, j: int) -> Seq<char> {
    match prev {
        Some(k) => if spaced(runs, k, j) {
            seq![' ']
        } else {
            Seq::empty()
        },
        None => Seq::empty(),
    }
}

/// The text of the first `n` runs: the runs trimmed, with spaces between words
/// and none inside a word that was split over several runs.
pub open spec fn joined(runs: Seq<LineRun>, n: int) -> Seq<char>
    decreases n,
{
    if n <= 0 {
        Seq::empty()
    } else {
        let t = trimmed(runs[n - 1].text@);
        if t.len() == 0 {
            joined(runs, n - 1)
        } else {
            joined(runs, n - 1) + gap_before(runs, last_word(runs, n - 1), n - 1) + t
        }
    }
}

/// The text of a line.
pub open spec fn line_text(line: Line) -> Seq<char> {
    joined(line.runs@, line.runs@.len() as int)
}

fn blank_at_start(v: &Vec<char>) -> (r: bool)
    ensures
        r == starts_blank(v@),
{
    v.len() > 0 && is_whitespace(v[0])
}

fn blank_at_end(v: &Vec<char>) -> (r: bool)
    ensures
        r == ends_blank(v@),
{
    v.len() > 0 && is_whitespace(v[v.len() - 1])
}

/// Whether white space opens the text of a run.
pub fn opens_blank(run: &LineRun) -> (r: bool)
    ensures
        r == starts_blank(run.text@),
{
    let v: Vec<char> = chars_of(run.text.as_str());
    blank_at_start(&v)
}

/// Whether white space closes the text of a run.
pub fn closes_blank(run: &LineRun) -> (r: bool)
    ensures
        r == ends_blank(run.text@),
{
    let v: Vec<char> = chars_of(run.text.as_str());
    blank_at_end(&v)
}

/// Whether a space belongs between run `k` and run `j`.
pub fn is_spaced(runs: &Vec<LineRun>, k: usize, j: usize) -> (r: bool)
    requires
        runs_wf(runs@),
        k < j < runs@.len(),
    ensures
        r == spaced(runs@, k as int, j as int),
{
    closes_blank(&runs[k]) || opens_blank(&runs[j]) || !runs[j].follows[k]
}

impl Line {
    /// The text of the line: its runs trimmed and joined, with a space where
    /// the gap between two runs is one between words, or where one of them
    /// carried white space.
    pub fn text(&self) -> (r: Vec<char>)
        requires
            self.wf(),
        ensures
            r@ == line_text(*self),
    {
        let runs: &Vec<LineRun> = &self.runs;
        let mut out: Vec<char> = Vec::new();
        let mut prev: Option<usize> = None;
        let mut j: usize = 0;
        while j < runs.len()
            invariant
                j <= runs@.len(),
                runs_wf(runs@),
                out@ == joined(runs@, j as int),
                match prev {
                    Some(k) => k < j && last_word(runs@, j as int) == Some(k as int),
                    None => last_word(runs@, j as int) is None,
                },
            decreases runs.len() - j,
        {
            let v: Vec<char> = chars_of(runs[j].text.as_str());
            let mut t: Vec<char> = trim_chars(&v);
            let ghost before = out@;
            if t.len() > 0 {
                if let Some(k) = prev {
                    if is_spaced(runs, k, j) {
                        out.push(' ');
                    }
                }
                assert(out@ =~= before + gap_before(runs@, last_word(runs@, j as int), j as int));
                out.append(&mut t);
                assert(out@ =~= joined(runs@, j + 1));
                prev = Some(j);
            }
            j = j + 1;
        }
        out
    }

    /// The text of the line as a string.
    pub fn text_string(&self) -> (r: String)
        requires
            self.wf(),
        ensures
            r@ == line_text(*self),
    {
        let v: Vec<char> = self.text();
        string_of(&v)
    }
}

/// Whether a text is nothing but white space.
pub fn is_blank(text: &str) -> (r: bool)
    ensures
        r == (trimmed(text@).len() == 0),
{
    let v: Vec<char> = chars_of(text);
    let t: Vec<char> = trim_chars(&v);
    t.len() == 0
}

/// The line that a fragment with these overlaps belongs to.
pub open spec fn host_of(overlaps: Seq<Option<i64>>) -> Option<int> {
    first_best(overlaps, true, overlaps.len() as int)
}

/// A fragment belongs to the line that it overlaps most, the first of several;
/// to none where it is part of none.
pub proof fn law_fragments_go_where_they_overlap_most(overlaps: Seq<Option<i64>>)
    ensures
        match host_of(overlaps) {
            None => forall|k: int| 0 <= k < overlaps.len() ==> #[trigger] overlaps[k] is None,
            Some(b) => {
                &&& 0 <= b < overlaps.len()
                &&& overlaps[b] is Some
                &&& forall|k: int|
                    0 <= k < overlaps.len() && #[trigger] overlaps[k] is Some ==> overlaps[k]->0
                        <= overlaps[b]->0
                &&& forall|k: int|
                    0 <= k < b && #[trigger] overlaps[k] is Some ==> overlaps[k]->0
                        < overlaps[b]->0
            },
        },
{
    super::select::law_first_best(overlaps, true, overlaps.len() as int);
}

/// The line that a fragment belongs to: the one that it overlaps most, the
/// first of several. Overlaps are keys that order as they do; a line that the
/// fragment is no part of has none.
pub fn host_line(overlaps: &[Option<i64>]) -> (r: Option<usize>)
    ensures
        match host_of(overlaps@) {
            None => r is None,
            Some(b) => r == Some(b as usize) && 0 <= b < overlaps@.len(),
        },
{
    find_best(overlaps, true)
}

/// Joining adds nothing but single spaces: where every run follows the one
/// before it without a gap and carries no white space at its ends, the text is
/// the runs end to end.
pub proof fn law_split_word_rejoins(runs: Seq<LineRun>, n: int)
    requires
        0 < n <= runs.len(),
        runs_wf(runs),
        forall|k: int|
            0 <= k < runs.len() ==> trimmed((#[trigger] runs[k]).text@) == runs[k].text@
                && runs[k].text@.len() > 0 && !starts_blank(runs[k].text@) && !ends_blank(
                runs[k].text@,
            ),
        forall|j: int, k: int|
            0 <= k < j < runs.len() ==> #[trigger] runs[j].follows@[k],
    ensures
        joined(runs, n) == joined(runs, n - 1) + runs[n - 1].text@,
{
    let t = runs[n - 1].text@;
    assert(trimmed(t) == t);
    if n > 1 {
        assert(trimmed(runs[n - 2].text@) == runs[n - 2].text@);
        assert(last_word(runs, n - 1) == Some(n - 2));
        assert(!spaced(runs, n - 2, n - 1));
    }
    assert(joined(runs, n - 1) + Seq::<char>::empty() =~= joined(runs, n - 1));
}

} // verus!
