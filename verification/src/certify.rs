//! How far a shortest known form is certified to be shortest.
use vstd::prelude::*;
use vstd::string::*;
use crate::store::{split_at_tab, tab_from};
use crate::engine::text_equals;
use crate::text::{decimal, lines_of, lines_spec, push_decimal, trim_spec, utf8};

verus! {

/// Whether a form is known to be the shortest for its value.
#[derive(Debug, PartialEq, Eq, Structural)]
pub enum Certification {
    /// The form is longer than the lengths swept exhaustively: a shorter one
    /// may yet be found.
    Provisional,
    /// Swept exhaustively, but this many shorter forms ran out of steps and
    /// await a retry.
    Conditional(usize),
    /// No shorter form exists.
    Definitive,
}

/// How a form of `expression_len` bytes stands, given the exhaustiveness
/// watermark and the step-limited forms shorter than it.
pub fn certify(expression_len: u64, watermark: u64, shorter_limited: usize) -> (r: Certification)
    ensures
        expression_len > watermark ==> r == Certification::Provisional,
        expression_len <= watermark && shorter_limited > 0 ==> r == Certification::Conditional(
            shorter_limited,
        ),
        expression_len <= watermark && shorter_limited == 0 ==> r == Certification::Definitive,
{
    if expression_len > watermark {
        Certification::Provisional
    } else if shorter_limited > 0 {
        Certification::Conditional(shorter_limited)
    } else {
        Certification::Definitive
    }
}

pub open spec fn certification_text(c: Certification) -> Seq<char> {
    match c {
        Certification::Provisional => "provisional"@,
        Certification::Conditional(n) => "conditional ("@ + decimal(n as nat)
            + " step-limited forms shorter than this await retry)"@,
        Certification::Definitive => "definitive"@,
    }
}

impl Certification {
    /// The word `min_form -v` prints for the certification.
    pub fn describe(&self) -> (r: String)
        ensures
            r@ == certification_text(*self),
    {
        match self {
            Certification::Provisional => "provisional".to_string(),
            Certification::Conditional(n) => {
                let mut r = "conditional (".to_string();
                push_decimal(&mut r, *n as u64);
                r.append(" step-limited forms shorter than this await retry)");
                r
            },
            Certification::Definitive => "definitive".to_string(),
        }
    }
}

/// Whether a line of the step-limited file names a form shorter than
/// `length` bytes (blank lines name none).
pub open spec fn limited_and_shorter(line: Seq<char>, length: u64) -> bool {
    trim_spec(line).len() > 0 && ((utf8(line).len() as usize) as u64) < length
}

/// The number of forms the step-limited file lists that are shorter than
/// `length` bytes.
pub fn step_limited_shorter_than(contents: &str, length: u64) -> (r: usize)
    ensures
        r == lines_spec(contents@).filter(|l: Seq<char>| limited_and_shorter(l, length)).len(),
{
    let lines = lines_of(contents);
    let ghost ls = lines@.map_values(|l: String| l@);
    let ghost pred = |l: Seq<char>| limited_and_shorter(l, length);
    let mut count: usize = 0;
    let mut k: usize = 0;
    while k < lines.len()
        invariant
            ls == lines@.map_values(|l: String| l@),
            ls == lines_spec(contents@),
            pred == (|l: Seq<char>| limited_and_shorter(l, length)),
            0 <= k <= lines.len(),
            count == ls.take(k as int).filter(pred).len(),
            count <= k,
        decreases lines.len() - k,
    {
        let line = lines[k].as_str();
        let v = crate::form::chars_of(line);
        let trimmed = crate::text::trimmed_piece(&v, 0, v.len());
        assert(v@.subrange(0, v.len() as int) =~= line@);
        assert(ls.take(k + 1).drop_last() =~= ls.take(k as int));
        assert(ls.take(k + 1).last() == line@);
        proof {
            reveal(Seq::filter);
            assert(ls.take(k + 1).filter(pred) == (if pred(line@) {
                ls.take(k as int).filter(pred).push(line@)
            } else {
                ls.take(k as int).filter(pred)
            }));
        }
        if !trimmed.as_str().is_empty() && (line.len() as u64) < length {
            count = count + 1;
        }
        k = k + 1;
    }
    assert(ls.take(lines.len() as int) =~= ls);
    count
}

/// The form a line of the index file gives for `wanted`: the text after the
/// first tab, when the text before it is `wanted`.
pub open spec fn expression_on_line(line: Seq<char>, wanted: Seq<char>) -> Option<Seq<char>> {
    match tab_from(line, 0) {
        Some(t) => if line.take(t) == wanted {
            Some(line.skip(t + 1))
        } else {
            None
        },
        None => None,
    }
}

/// The form the first line that gives one for `wanted` gives.
pub open spec fn first_expression(lines: Seq<Seq<char>>, wanted: Seq<char>) -> Option<Seq<char>>
    decreases lines.len(),
{
    if lines.len() == 0 {
        None
    } else {
        match expression_on_line(lines[0], wanted) {
            Some(e) => Some(e),
            None => first_expression(lines.drop_first(), wanted),
        }
    }
}

/// Looks a value up in the text of the index file: the form of the first
/// line whose value field is `wanted`.
pub fn expression_for(contents: &str, wanted: &str) -> (r: Option<String>)
    ensures
        r matches Some(e) ==> first_expression(lines_spec(contents@), wanted@) == Some(e@),
        r is None ==> first_expression(lines_spec(contents@), wanted@) is None,
{
    let lines = lines_of(contents);
    let ghost ls = lines@.map_values(|l: String| l@);
    let mut k: usize = 0;
    assert(ls.skip(0) =~= ls);
    while k < lines.len()
        invariant
            ls == lines@.map_values(|l: String| l@),
            ls == lines_spec(contents@),
            0 <= k <= lines.len(),
            first_expression(ls, wanted@) == first_expression(ls.skip(k as int), wanted@),
        decreases lines.len() - k,
    {
        assert(ls.skip(k as int).drop_first() =~= ls.skip(k + 1));
        assert(ls.skip(k as int)[0] == lines@[k as int]@);
        if let Some(parts) = split_at_tab(lines[k].as_str()) {
            if text_equals(parts.0.as_str(), wanted) {
                return Some(parts.1);
            }
        }
        k = k + 1;
    }
    None
}

} // verus!
