//! What holds of every conversion.

use crate::coerce::{answers_of, outcome_view};
use crate::convert::{
    body_lines, is_body_of, metric_lines, outcome_views, record_names, signature_name, trailer,
    MetricView,
};
use crate::occurrences::{decorated, emitted_name, occurrences};
use crate::replace::SubstituteView;
use crate::signature::signature_of;
use crate::text::{decimal, is_digit, lemma_decimal, lemma_decimal_injective};
use vstd::prelude::*;

verus! {

/// The body holds one line for each accepted record, and the three lines of the
/// trailer after them.
pub proof fn lemma_one_line_per_record(records: Seq<MetricView>)
    ensures
        metric_lines(records).len() == records.len(),
        body_lines(records).len() == records.len() + 3,
        forall|i: int|
            0 <= i < records.len() ==> #[trigger] body_lines(records)[i] == emitted_name(
                record_names(records),
                i,
            ) + seq![' '] + records[i].value,
{
}

/// The names under which the lines of the body stand: the emitted name of each record,
/// then the name of the signature metric.
pub open spec fn output_names(names: Seq<Seq<char>>) -> Seq<Seq<char>> {
    Seq::new(names.len(), |i: int| emitted_name(names, i)).push(signature_name())
}

/// Whether decoration makes two different names meet: two records with different
/// undecorated names are emitted under one name, or a record is emitted under the name
/// of the signature metric.
pub open spec fn names_clash(names: Seq<Seq<char>>) -> bool {
    ||| exists|i: int, j: int|
        0 <= i < j < names.len() && names[i] != names[j] && #[trigger] emitted_name(names, i)
            == #[trigger] emitted_name(names, j)
    ||| exists|i: int| 0 <= i < names.len() && #[trigger] emitted_name(names, i) == signature_name()
}

/// Each further occurrence of a name has a higher number.
pub proof fn lemma_occurrences_grow(names: Seq<Seq<char>>, name: Seq<char>, i: int, j: int)
    requires
        0 <= i <= j <= names.len(),
    ensures
        occurrences(names.take(i), name) <= occurrences(names.take(j), name),
        i < j && names[j - 1] == name ==> occurrences(names.take(i), name) < occurrences(
            names.take(j),
            name,
        ),
    decreases j - i,
{
    if i < j {
        lemma_occurrences_grow(names, name, i, j - 1);
        assert(names.take(j).drop_last() =~= names.take(j - 1));
    }
}

/// The occurrences of one name are emitted under names that differ from each other.
pub proof fn lemma_same_name_emitted_apart(names: Seq<Seq<char>>, i: int, j: int)
    requires
        0 <= i < j < names.len(),
        names[i] == names[j],
    ensures
        emitted_name(names, i) != emitted_name(names, j),
{
    let name = names[i];
    let m = occurrences(names.take(i + 1), name);
    let n = occurrences(names.take(j + 1), name);
    lemma_occurrences_grow(names, name, 0, i + 1);
    lemma_occurrences_grow(names, name, i + 1, j + 1);
    assert(names.take(0) =~= Seq::<Seq<char>>::empty());
    assert(1 <= m < n);
    lemma_decimal(n);
    if decorated(name, m) == decorated(name, n) {
        if m <= 1 {
            assert((name + decimal(n)).len() == name.len() + decimal(n).len());
        } else {
            assert(decimal(m) =~= (name + decimal(m)).skip(name.len() as int));
            assert(decimal(n) =~= (name + decimal(n)).skip(name.len() as int));
            lemma_decimal_injective(m, n);
        }
    }
}

/// Within one body every line stands under a name of its own, unless decoration makes
/// two different names meet.
pub proof fn lemma_emitted_names_unique(names: Seq<Seq<char>>)
    requires
        !names_clash(names),
    ensures
        output_names(names).no_duplicates(),
{
    let out = output_names(names);
    assert forall|i: int, j: int| 0 <= i < j < out.len() implies out[i] != out[j] by {
        if j < names.len() {
            if names[i] == names[j] {
                lemma_same_name_emitted_apart(names, i, j);
            } else {
                assert(emitted_name(names, i) != emitted_name(names, j));
            }
        } else {
            assert(emitted_name(names, i) != signature_name());
        }
    }
}

/// Whether the text `name` ends in a decimal digit.
pub open spec fn ends_in_digit(name: Seq<char>) -> bool {
    name.len() > 0 && is_digit(name.last())
}

/// Where no name ends in a decimal digit and none is the name of the signature metric,
/// decoration never makes two names meet.
pub proof fn lemma_no_clash_without_digit_endings(names: Seq<Seq<char>>)
    requires
        forall|i: int| 0 <= i < names.len() ==> !ends_in_digit(#[trigger] names[i]),
        forall|i: int| 0 <= i < names.len() ==> #[trigger] names[i] != signature_name(),
    ensures
        !names_clash(names),
{
    reveal_strlit("nc_metric_names_hash");
    assert(!ends_in_digit(signature_name()));
    assert forall|i: int| 0 <= i < names.len() implies #[trigger] emitted_name(names, i)
        != signature_name() by {
        let n = occurrences(names.take(i + 1), names[i]);
        lemma_decoration_ends_in_digit(names[i], n);
    }
    assert forall|i: int, j: int| 0 <= i < j < names.len() && names[i] != names[j] implies #[trigger]
        emitted_name(names, i) != #[trigger] emitted_name(names, j) by {
        let m = occurrences(names.take(i + 1), names[i]);
        let n = occurrences(names.take(j + 1), names[j]);
        lemma_decoration_ends_in_digit(names[i], m);
        lemma_decoration_ends_in_digit(names[j], n);
        if m > 1 && n > 1 && decorated(names[i], m) == decorated(names[j], n) {
            lemma_decimal(m);
            lemma_decimal(n);
            lemma_digit_free_stem(names[i], decimal(m), names[j], decimal(n));
        }
    }
}

/// A decorated name ends in a digit; an undecorated one is the name itself.
proof fn lemma_decoration_ends_in_digit(name: Seq<char>, n: nat)
    ensures
        n > 1 ==> ends_in_digit(decorated(name, n)),
        n <= 1 ==> decorated(name, n) == name,
{
    if n > 1 {
        lemma_decimal(n);
        let d = decimal(n);
        assert((name + d).last() == d[d.len() - 1]);
    }
}

/// A text splits in one way only into a stem that does not end in a digit and a run of
/// digits behind it.
proof fn lemma_digit_free_stem(a: Seq<char>, x: Seq<char>, b: Seq<char>, y: Seq<char>)
    requires
        a + x == b + y,
        !ends_in_digit(a),
        !ends_in_digit(b),
        forall|i: int| 0 <= i < x.len() ==> is_digit(#[trigger] x[i]),
        forall|i: int| 0 <= i < y.len() ==> is_digit(#[trigger] y[i]),
    ensures
        a == b,
{
    let whole = a + x;
    assert(whole.len() == a.len() + x.len());
    assert((b + y).len() == b.len() + y.len());
    if a.len() < b.len() {
        let k = b.len() - 1;
        assert((b + y)[k] == b.last());
        assert(whole[k] == x[k - a.len()]);
    } else if b.len() < a.len() {
        let k = a.len() - 1;
        assert(whole[k] == a.last());
        assert((b + y)[k] == y[k - b.len()]);
    } else {
        assert(a =~= whole.take(a.len() as int));
        assert(b =~= (b + y).take(b.len() as int));
    }
}

/// The signature line of a body depends on nothing but the set of undecorated names:
/// neither on the values, nor on the order of the records, nor on how often a name
/// occurs.
pub proof fn lemma_signature_follows_name_set(a: Seq<MetricView>, b: Seq<MetricView>)
    requires
        record_names(a).to_set() == record_names(b).to_set(),
    ensures
        body_lines(a).last() == body_lines(b).last(),
        body_lines(a).last() == signature_name() + seq![' '] + decimal(
            signature_of(record_names(a).to_set()),
        ),
{
    let ta = trailer(signature_of(record_names(a).to_set()));
    let tb = trailer(signature_of(record_names(b).to_set()));
    assert(body_lines(a).last() == ta[2]);
    assert(body_lines(b).last() == tb[2]);
}

/// Every body closes with the same two comment lines, and after them the line of the
/// signature metric: its name, a space, and the decimal numeral of the signature.
pub proof fn lemma_body_closes_with_trailer(records: Seq<MetricView>)
    ensures
        body_lines(records).len() == records.len() + 3,
        body_lines(records)[records.len() as int]
            == "# nc_metric_names_hash: first digits of a hash of all extracted metric names"@,
        body_lines(records)[records.len() as int + 1]
            == "# this number indicates change of names or change of number of metrics"@,
        body_lines(records)[records.len() as int + 2] == signature_name() + seq![' '] + decimal(
            signature_of(record_names(records).to_set()),
        ),
{
    let n = records.len() as int;
    let closing = trailer(signature_of(record_names(records).to_set()));
    assert(body_lines(records)[n] == closing[0]);
    assert(body_lines(records)[n + 1] == closing[1]);
    assert(body_lines(records)[n + 2] == closing[2]);
}

/// The body follows from the document, the table and the readings of the numbers:
/// two conversions of one document under one table that got the same readings give
/// the same body, text for text.
pub proof fn lemma_body_follows_readings<
    F: Fn(&str) -> Result<String, String>,
    G: Fn(&str) -> Result<String, String>,
>(
    first: Seq<char>,
    second: Seq<char>,
    xml: Seq<char>,
    table: Map<Seq<char>, SubstituteView>,
    first_reader: F,
    second_reader: G,
    first_numbers: Seq<Result<String, String>>,
    second_numbers: Seq<Result<String, String>>,
)
    requires
        is_body_of(first, xml, table, first_reader, first_numbers),
        is_body_of(second, xml, table, second_reader, second_numbers),
        outcome_views(first_numbers) == outcome_views(second_numbers),
    ensures
        first == second,
{
}

/// Whether `number_text` gives one answer to one question: whenever it is asked about
/// the same text, it returns the same reading.
pub open spec fn is_consistent<F: Fn(&str) -> Result<String, String>>(number_text: F) -> bool {
    forall|s: &str, t: &str, a: Result<String, String>, b: Result<String, String>|
        s@ == t@ && #[trigger] call_ensures(number_text, (s,), a) && #[trigger] call_ensures(
            number_text,
            (t,),
            b,
        ) ==> outcome_view(a) == outcome_view(b)
}

/// Converting the same document under the same table twice gives the same body, text
/// for text, as long as the reading of numbers gives one answer to one question.
pub proof fn lemma_conversion_repeats<F: Fn(&str) -> Result<String, String>>(
    first: Seq<char>,
    second: Seq<char>,
    xml: Seq<char>,
    table: Map<Seq<char>, SubstituteView>,
    number_text: F,
    first_numbers: Seq<Result<String, String>>,
    second_numbers: Seq<Result<String, String>>,
)
    requires
        is_consistent(number_text),
        is_body_of(first, xml, table, number_text, first_numbers),
        is_body_of(second, xml, table, number_text, second_numbers),
    ensures
        first == second,
{
    let candidates = crate::flatten::candidates_of(crate::events::document_events(xml));
    assert forall|i: int| 0 <= i < first_numbers.len() implies outcome_view(first_numbers[i])
        == outcome_view(second_numbers[i]) by {
        assert(answers_of(number_text, candidates[i].text, first_numbers[i]));
        assert(answers_of(number_text, candidates[i].text, second_numbers[i]));
    }
    assert(outcome_views(first_numbers) =~= outcome_views(second_numbers));
    lemma_body_follows_readings(
        first,
        second,
        xml,
        table,
        number_text,
        number_text,
        first_numbers,
        second_numbers,
    );
}

} // verus!
