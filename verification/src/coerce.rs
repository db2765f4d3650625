//! The coercion policy: which texts become metric values, and which are dropped.

use crate::replace::{ReplacementConfig, Substitute, SubstituteView};
use crate::text::{push_text, trim, trimmed};
use vstd::prelude::*;

verus! {

/// The text that a substitute contributes to a metric line: the numeral of a number,
/// a string as it is.
pub open spec fn substitute_text(v: SubstituteView) -> Seq<char> {
    match v {
        SubstituteView::Number(numeral) => numeral,
        SubstituteView::Text(text) => text,
    }
}

/// The note that is left when the text `text` is rejected, with the reason why it is
/// no number.
pub open spec fn rejection_note(text: Seq<char>, reason: Seq<char>) -> Seq<char> {
    "Error when trying to convert "@ + text + "\n"@ + reason
}

/// An outcome over mathematical text.
pub open spec fn outcome_view(r: Result<String, String>) -> Result<Seq<char>, Seq<char>> {
    match r {
        Ok(value) => Ok(value@),
        Err(note) => Err(note@),
    }
}

/// The metric value of the text `text`. `number` is the reading of the trimmed text as
/// a number: its numeral, or the reason why it is none. A number is taken as it is,
/// whatever the table says; any other text is looked up, trimmed, in `table`; a text
/// without an entry is rejected.
pub open spec fn coerced(
    text: Seq<char>,
    number: Result<Seq<char>, Seq<char>>,
    table: Map<Seq<char>, SubstituteView>,
) -> Result<Seq<char>, Seq<char>> {
    match number {
        Ok(numeral) => Ok(numeral),
        Err(reason) => if table.dom().contains(trimmed(text)) {
            Ok(substitute_text(table[trimmed(text)]))
        } else {
            Err(rejection_note(text, reason))
        },
    }
}

/// Decides on the text `value`, given `number`, the reading of the trimmed text as a
/// number: `Ok` with the metric value, or `Err` with a note for the log.
pub fn coerce(value: &str, number: &Result<String, String>, replace_dict: &ReplacementConfig) -> (r:
    Result<String, String>)
    ensures
        outcome_view(r) == coerced(value@, outcome_view(*number), replace_dict@),
{
    match number {
        Ok(numeral) => Ok(numeral.clone()),
        Err(reason) => {
            match replace_dict.get(trim(value)) {
                Some(Substitute::Number(numeral)) => Ok(numeral.clone()),
                Some(Substitute::Text(text)) => Ok(text.clone()),
                None => {
                    let mut note = String::new();
                    push_text(&mut note, "Error when trying to convert ");
                    push_text(&mut note, value);
                    push_text(&mut note, "\n");
                    push_text(&mut note, reason.as_str());
                    proof {
                        assert(note@ =~= rejection_note(value@, reason@));
                    }
                    Err(note)
                },
            }
        },
    }
}

/// Whether `answer` is something that `number_text` returns when it is asked about the
/// trimmed `text`.
pub open spec fn answers_of<F: Fn(&str) -> Result<String, String>>(
    number_text: F,
    text: Seq<char>,
    answer: Result<String, String>,
) -> bool {
    exists|t: &str| t@ == trimmed(text) && #[trigger] call_ensures(number_text, (t,), answer)
}

/// Converts the text `value` into a metric value. `number_text` reads a trimmed text
/// as a number and gives its numeral, or the reason why it is none; it is asked once,
/// about the trimmed `value`, and [`coerced`] says what becomes of its answer.
pub fn nc_metric_to_number<F: Fn(&str) -> Result<String, String>>(
    value: &str,
    replace_dict: &ReplacementConfig,
    number_text: F,
) -> (r: Result<String, String>)
    requires
        forall|t: &str| call_requires(number_text, (t,)),
    ensures
        exists|number: Result<String, String>| #[trigger]
            answers_of(number_text, value@, number) && outcome_view(r) == coerced(
                value@,
                outcome_view(number),
                replace_dict@,
            ),
{
    let t = trim(value);
    let number = number_text(t);
    proof {
        assert(answers_of(number_text, value@, number));
    }
    coerce(value, &number, replace_dict)
}

} // verus!
