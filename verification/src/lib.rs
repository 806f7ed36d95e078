//! Parses integer values given as text lines, sorts them ascending, and
//! renders the sorted sequence as a minimal JSON array literal.
use vstd::prelude::*;
use vstd::string::StrSliceExecFns;

pub mod json;
pub mod numeral;
pub mod sorting;

use crate::json::json_array;
use crate::numeral::literal_val;
use crate::numeral::parse_int;
use crate::numeral::valid_int_literal;
use crate::sorting::int_view;
use crate::sorting::sort_ints;
use crate::sorting::sort_values;

verus! {

/// Why a run failed.
#[derive(Debug)]
pub enum ConversionError {
    /// The input file is missing or unreadable.
    InputNotFound,
    /// A non-empty input line could not be parsed as an integer.
    /// `line_number` counts from one; `raw_text` is the offending line.
    ParseFailure { line_number: usize, raw_text: String },
    /// The output file could not be written.
    OutputWriteFailure,
}

/// The character sequences of a sequence of lines.
pub open spec fn views_of(lines: Seq<String>) -> Seq<Seq<char>> {
    lines.map(|_i: int, s: String| s@)
}

/// A line that parses to an in-range integer.
pub open spec fn line_ok(l: Seq<char>) -> bool {
    valid_int_literal(l) && i32::MIN <= literal_val(l) <= i32::MAX
}

/// Every non-empty line parses to an in-range integer.
pub open spec fn lines_ok(ls: Seq<Seq<char>>) -> bool {
    forall|i: int| 0 <= i < ls.len() ==> ((#[trigger] ls[i]).len() > 0 ==> line_ok(ls[i]))
}

/// The values of the non-empty lines, in input order; empty lines are
/// skipped.
pub open spec fn line_values(ls: Seq<Seq<char>>) -> Seq<int>
    decreases ls.len(),
{
    if ls.len() == 0 {
        Seq::empty()
    } else if ls.last().len() == 0 {
        line_values(ls.drop_last())
    } else {
        line_values(ls.drop_last()).push(literal_val(ls.last()))
    }
}

/// How many lines are non-empty.
pub open spec fn count_nonempty(ls: Seq<Seq<char>>) -> nat
    decreases ls.len(),
{
    if ls.len() == 0 {
        0
    } else if ls.last().len() == 0 {
        count_nonempty(ls.drop_last())
    } else {
        count_nonempty(ls.drop_last()) + 1
    }
}

/// Cardinality is preserved: the output array holds exactly one integer per
/// non-empty input line.
pub proof fn lemma_output_cardinality(ls: Seq<Seq<char>>)
    ensures
        line_values(ls).len() == count_nonempty(ls),
        sort_ints(line_values(ls)).len() == count_nonempty(ls),
    decreases ls.len(),
{
    if ls.len() > 0 {
        lemma_output_cardinality(ls.drop_last());
    }
    crate::sorting::lemma_sort_ints_ensures(line_values(ls));
}

/// An input with no non-empty line renders to exactly the empty array text.
pub proof fn lemma_empty_input(ls: Seq<Seq<char>>)
    requires
        count_nonempty(ls) == 0,
    ensures
        json_array(sort_ints(line_values(ls))) == seq!['[', ']'],
{
    lemma_output_cardinality(ls);
    let sorted_vals = sort_ints(line_values(ls));
    assert(sorted_vals =~= Seq::<int>::empty());
    assert(crate::json::join_vals(sorted_vals) =~= Seq::<char>::empty());
    assert(json_array(sorted_vals) =~= seq!['[', ']']);
}

/// Parse every non-empty line, sort the values ascending, and render them as
/// a JSON array literal.
///
/// Succeeds exactly when every non-empty line is an in-range integer
/// literal; the result is then the JSON array of the values in ascending
/// order. Otherwise the first offending line is reported, with its one-based
/// line number and its text, and no output is produced.
#[verifier::loop_isolation(false)]
pub fn convert(lines: &Vec<String>) -> (r: Result<String, ConversionError>)
    ensures
        r is Ok <==> lines_ok(views_of(lines@)),
        r matches Ok(out) ==> out@ == json_array(sort_ints(line_values(views_of(lines@)))),
        r matches Err(e) ==> e matches ConversionError::ParseFailure { line_number, raw_text }
            && 1 <= line_number <= lines@.len() && raw_text@ == lines@[line_number - 1]@
            && lines@[line_number - 1]@.len() > 0 && !line_ok(lines@[line_number - 1]@) && (
        forall|j: int|
            0 <= j < line_number - 1 ==> ((#[trigger] views_of(lines@)[j]).len() > 0 ==> line_ok(
                views_of(lines@)[j],
            ))),
{
    let ghost ls = views_of(lines@);
    let mut vals: Vec<i32> = Vec::new();
    proof {
        assert(int_view(vals@) =~= Seq::<int>::empty());
        assert(ls.take(0) =~= Seq::<Seq<char>>::empty());
    }
    let mut i: usize = 0;
    while i < lines.len()
        invariant
            i <= lines@.len(),
            int_view(vals@) == line_values(ls.take(i as int)),
            forall|j: int| 0 <= j < i ==> ((#[trigger] ls[j]).len() > 0 ==> line_ok(ls[j])),
        decreases lines@.len() - i,
    {
        let line = &lines[i];
        proof {
            assert(ls[i as int] == line@);
            assert(ls.take(i + 1).drop_last() =~= ls.take(i as int));
            assert(ls.take(i + 1).last() == ls[i as int]);
        }
        if line.as_str().unicode_len() > 0 {
            match parse_int(line.as_str()) {
                Some(v) => {
                    let ghost vals_pre = vals@;
                    vals.push(v);
                    proof {
                        assert(int_view(vals@) =~= int_view(vals_pre).push(v as int));
                    }
                },
                None => {
                    return Err(
                        ConversionError::ParseFailure {
                            line_number: i + 1,
                            raw_text: line.clone(),
                        },
                    );
                },
            }
        }
        i = i + 1;
    }
    proof {
        assert(ls.take(lines@.len() as int) =~= ls);
    }
    sort_values(&mut vals);
    let out = crate::json::render_json(&vals);
    Ok(out)
}

} // verus!
