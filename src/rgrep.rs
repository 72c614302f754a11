//! The decisions of a line filter that searches files for a pattern.
use vstd::prelude::*;
use std::cmp::Ordering;
use vstd::std_specs::cmp::PartialOrdSpec;
use crate::sort::{le, total_order};

verus! {

/// What becomes of the matching lines.
#[derive(PartialEq, Eq, Structural, Clone, Copy, Debug)]
pub enum OutputMode {
    Print,
    SortAndPrint,
    Count,
}

/// What to search, for what, and what to do with the matches.
pub struct Options {
    pub files: Vec<String>,
    pub pattern: String,
    pub output_mode: OutputMode,
}

/// One line of one of the files.
pub struct Line {
    pub data: String,
    /// The index of the file among the files searched.
    pub file: usize,
    /// The index of the line within its file.
    pub line: usize,
}

/// Lexicographic order of character sequences.
pub open spec fn lex_cmp(a: Seq<char>, b: Seq<char>) -> Ordering
    decreases a.len(),
{
    if a.len() == 0 {
        if b.len() == 0 {
            Ordering::Equal
        } else {
            Ordering::Less
        }
    } else if b.len() == 0 {
        Ordering::Greater
    } else if a[0] < b[0] {
        Ordering::Less
    } else if a[0] > b[0] {
        Ordering::Greater
    } else {
        lex_cmp(a.drop_first(), b.drop_first())
    }
}

/// Relies on `PartialOrd::partial_cmp` of `str`: strings are ordered
/// lexicographically by their bytes, which in UTF-8 is the order of the
/// characters' code points; two strings are always comparable.
#[verifier::external_body]
fn str_partial_cmp(a: &str, b: &str) -> (r: Option<Ordering>)
    ensures
        r == Some(lex_cmp(a@, b@)),
{
    a.partial_cmp(b)
}

impl PartialEq for Line {
    /// Lines are compared by their text alone.
    fn eq(&self, other: &Line) -> (r: bool) {
        self.data == other.data
    }
}

impl vstd::std_specs::cmp::PartialEqSpecImpl for Line {
    open spec fn obeys_eq_spec() -> bool {
        true
    }

    open spec fn eq_spec(&self, other: &Line) -> bool {
        self.data@ == other.data@
    }
}

impl PartialOrd for Line {
    /// Lines are ordered by their text alone.
    fn partial_cmp(&self, other: &Line) -> (r: Option<Ordering>) {
        str_partial_cmp(self.data.as_str(), other.data.as_str())
    }
}

impl vstd::std_specs::cmp::PartialOrdSpecImpl for Line {
    open spec fn obeys_partial_cmp_spec() -> bool {
        true
    }

    open spec fn partial_cmp_spec(&self, other: &Line) -> Option<Ordering> {
        Some(lex_cmp(self.data@, other.data@))
    }
}

proof fn lemma_lex_cmp_antisymmetric(a: Seq<char>, b: Seq<char>)
    ensures
        (lex_cmp(a, b) == Ordering::Less) == (lex_cmp(b, a) == Ordering::Greater),
        (lex_cmp(a, b) == Ordering::Equal) == (lex_cmp(b, a) == Ordering::Equal),
    decreases a.len(),
{
    if a.len() > 0 && b.len() > 0 && a[0] == b[0] {
        lemma_lex_cmp_antisymmetric(a.drop_first(), b.drop_first());
    }
    if a.len() > 0 && b.len() > 0 && a[0] != b[0] {
        assert(a[0] < b[0] || a[0] > b[0]);
    }
}

/// `lex_cmp` says less or equal.
pub open spec fn lex_le(a: Seq<char>, b: Seq<char>) -> bool {
    lex_cmp(a, b) == Ordering::Less || lex_cmp(a, b) == Ordering::Equal
}

proof fn lemma_lex_le_transitive(a: Seq<char>, b: Seq<char>, c: Seq<char>)
    requires
        lex_le(a, b),
        lex_le(b, c),
    ensures
        lex_le(a, c),
    decreases a.len(),
{
    if a.len() > 0 && b.len() > 0 && c.len() > 0 {
        if a[0] == b[0] && b[0] == c[0] {
            lemma_lex_le_transitive(a.drop_first(), b.drop_first(), c.drop_first());
        } else {
            assert(a[0] <= b[0]);
            assert(b[0] <= c[0]);
            if a[0] == c[0] {
                assert(a[0] == b[0]);
            }
        }
    }
}

/// Lines ordered by their text form a total order up to ties.
pub proof fn lemma_line_total_order()
    ensures
        total_order::<Line>(),
{
    assert forall|x: Line, y: Line|
        (#[trigger] x.partial_cmp_spec(&y) == Some(Ordering::Less)) == (y.partial_cmp_spec(&x) == Some(
            Ordering::Greater,
        )) by {
        lemma_lex_cmp_antisymmetric(x.data@, y.data@);
    }
    assert forall|x: Line, y: Line|
        (#[trigger] x.partial_cmp_spec(&y) == Some(Ordering::Equal)) == (y.partial_cmp_spec(&x) == Some(
            Ordering::Equal,
        )) by {
        lemma_lex_cmp_antisymmetric(x.data@, y.data@);
    }
    assert forall|x: Line, y: Line, z: Line| #[trigger] le(x, y) && #[trigger] le(y, z) implies le(x, z) by {
        lemma_lex_le_transitive(x.data@, y.data@, z.data@);
    }
}

/// `pattern` occurs in `text` at some position.
pub open spec fn occurs_in(pattern: Seq<char>, text: Seq<char>) -> bool {
    exists|i: int| 0 <= i && i + pattern.len() <= text.len() && #[trigger] text.subrange(i, i + pattern.len()) == pattern
}

/// Relies on `str::contains` with a `&str` pattern: true exactly when the
/// pattern matches a sub-slice of the string.
#[verifier::external_body]
fn str_contains(text: &str, pattern: &str) -> (r: bool)
    ensures
        r == occurs_in(pattern@, text@),
{
    text.contains(pattern)
}

/// Whether `line` holds `pattern`.
pub fn line_matches(line: &Line, pattern: &str) -> (r: bool)
    ensures
        r == occurs_in(pattern@, line.data@),
{
    str_contains(line.data.as_str(), pattern)
}

/// The output mode that the two flags ask for: counting, sorting, or
/// plain printing; `None` when both counting and sorting are asked for.
pub fn output_mode_of(count: bool, sort: bool) -> (r: Option<OutputMode>)
    ensures
        r == (if count && sort {
            None
        } else if count {
            Some(OutputMode::Count)
        } else if sort {
            Some(OutputMode::SortAndPrint)
        } else {
            Some(OutputMode::Print)
        }),
{
    if count && sort {
        None
    } else if count {
        Some(OutputMode::Count)
    } else if sort {
        Some(OutputMode::SortAndPrint)
    } else {
        Some(OutputMode::Print)
    }
}

} // verus!
