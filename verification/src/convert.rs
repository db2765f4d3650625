//! From candidates to the text body: acceptance, unique names, signature, lines.

use crate::coerce::{answers_of, coerce, coerced, outcome_view};
use crate::events::document_events;
use crate::flatten::{
    candidate_views, candidates_of, failure_of, flatten_xml, Candidate, CandidateView,
};
use crate::occurrences::{
    decorate, emitted_name, lemma_occurrences_bounded, lemma_occurrences_positive, occurrences,
    NameOccurrenceTable,
};
use crate::replace::{ReplacementConfig, SubstituteView};
use crate::signature::{names_signature, signature_of};
use crate::text::{decimal, push_decimal, push_text, texts, trim};
use vstd::prelude::*;

verus! {

/// An accepted metric: the undecorated name and the value.
pub struct MetricRecord {
    pub name: String,
    pub value: String,
}

/// What a [`MetricRecord`] holds, as mathematical text.
pub struct MetricView {
    pub name: Seq<char>,
    pub value: Seq<char>,
}

impl View for MetricRecord {
    type V = MetricView;

    open spec fn view(&self) -> MetricView {
        MetricView { name: self.name@, value: self.value@ }
    }
}

/// The views of a sequence of records.
pub open spec fn record_views(records: Seq<MetricRecord>) -> Seq<MetricView> {
    records.map_values(|r: MetricRecord| r@)
}

/// The views of a sequence of outcomes.
pub open spec fn outcome_views(numbers: Seq<Result<String, String>>) -> Seq<
    Result<Seq<char>, Seq<char>>,
> {
    numbers.map_values(|r: Result<String, String>| outcome_view(r))
}

/// The records accepted among `candidates`, in their order. `numbers` holds, for each
/// candidate, the reading of its trimmed text as a number.
pub open spec fn accepted(
    candidates: Seq<CandidateView>,
    numbers: Seq<Result<Seq<char>, Seq<char>>>,
    table: Map<Seq<char>, SubstituteView>,
) -> Seq<MetricView>
    recommends
        candidates.len() == numbers.len(),
    decreases candidates.len(),
{
    if candidates.len() == 0 || numbers.len() == 0 {
        Seq::empty()
    } else {
        let before = accepted(candidates.drop_last(), numbers.drop_last(), table);
        match coerced(candidates.last().text, numbers.last(), table) {
            Ok(value) => before.push(MetricView { name: candidates.last().name, value }),
            Err(_) => before,
        }
    }
}

/// A rejected candidate: its name and the note that says why it was dropped.
pub struct Rejection {
    pub name: String,
    pub note: String,
}

/// What a [`Rejection`] holds, as mathematical text.
pub struct RejectionView {
    pub name: Seq<char>,
    pub note: Seq<char>,
}

impl View for Rejection {
    type V = RejectionView;

    open spec fn view(&self) -> RejectionView {
        RejectionView { name: self.name@, note: self.note@ }
    }
}

/// The views of a sequence of rejections.
pub open spec fn rejection_views(rejections: Seq<Rejection>) -> Seq<RejectionView> {
    rejections.map_values(|r: Rejection| r@)
}

/// The candidates rejected among `candidates`, in their order, each with its note.
pub open spec fn rejected(
    candidates: Seq<CandidateView>,
    numbers: Seq<Result<Seq<char>, Seq<char>>>,
    table: Map<Seq<char>, SubstituteView>,
) -> Seq<RejectionView>
    recommends
        candidates.len() == numbers.len(),
    decreases candidates.len(),
{
    if candidates.len() == 0 || numbers.len() == 0 {
        Seq::empty()
    } else {
        let before = rejected(candidates.drop_last(), numbers.drop_last(), table);
        match coerced(candidates.last().text, numbers.last(), table) {
            Ok(_) => before,
            Err(note) => before.push(RejectionView { name: candidates.last().name, note }),
        }
    }
}

/// The candidates of a document, sorted into accepted and rejected.
pub struct Sorted {
    /// The accepted records, in document order.
    pub records: Vec<MetricRecord>,
    /// The rejected candidates, in document order.
    pub rejections: Vec<Rejection>,
}

/// The undecorated names of `records`.
pub open spec fn record_names(records: Seq<MetricView>) -> Seq<Seq<char>> {
    records.map_values(|r: MetricView| r.name)
}

/// The line of the record at `i`: its emitted name, a space, its value.
pub open spec fn metric_line(records: Seq<MetricView>, i: int) -> Seq<char> {
    emitted_name(record_names(records), i) + seq![' '] + records[i].value
}

/// One line for each record, in the order of the records.
pub open spec fn metric_lines(records: Seq<MetricView>) -> Seq<Seq<char>> {
    Seq::new(records.len(), |i: int| metric_line(records, i))
}

/// The name of the signature metric.
pub open spec fn signature_name() -> Seq<char> {
    "nc_metric_names_hash"@
}

/// The three lines that close the body: two comments and the signature metric.
pub open spec fn trailer(signature: nat) -> Seq<Seq<char>> {
    seq![
        "# nc_metric_names_hash: first digits of a hash of all extracted metric names"@,
        "# this number indicates change of names or change of number of metrics"@,
        signature_name() + seq![' '] + decimal(signature),
    ]
}

/// `lines` with a newline between each two. There is none after the last.
pub open spec fn join_lines(lines: Seq<Seq<char>>) -> Seq<char>
    decreases lines.len(),
{
    if lines.len() == 0 {
        Seq::empty()
    } else if lines.len() == 1 {
        lines[0]
    } else {
        join_lines(lines.drop_last()) + seq!['\n'] + lines.last()
    }
}

/// The lines of the body for `records`: the metric lines, then the trailer with the
/// signature of the set of undecorated names.
pub open spec fn body_lines(records: Seq<MetricView>) -> Seq<Seq<char>> {
    metric_lines(records) + trailer(signature_of(record_names(records).to_set()))
}

/// The text body for `records`.
pub open spec fn prometheus_text(records: Seq<MetricView>) -> Seq<char> {
    join_lines(body_lines(records))
}

/// Joins `lines` with newlines.
pub fn join(lines: &Vec<String>) -> (out: String)
    ensures
        out@ == join_lines(texts(lines@)),
{
    let mut out = String::new();
    let n = lines.len();
    let mut i: usize = 0;
    while i < n
        invariant
            n == lines@.len(),
            i <= n,
            out@ == join_lines(texts(lines@).take(i as int)),
        decreases n - i,
    {
        let ghost before = out@;
        if i > 0 {
            out.push('\n');
        }
        push_text(&mut out, lines[i].as_str());
        proof {
            let next = texts(lines@).take(i + 1);
            assert(next.drop_last() =~= texts(lines@).take(i as int));
            assert(next.last() == lines@[i as int]@);
            if i > 0 {
                assert(out@ =~= before + seq!['\n'] + lines@[i as int]@);
            } else {
                assert(out@ =~= lines@[i as int]@);
            }
        }
        i += 1;
    }
    proof {
        assert(texts(lines@).take(n as int) =~= texts(lines@));
    }
    out
}

/// Sorts the candidates into accepted and rejected, each kind in document order.
/// `numbers` holds, for each candidate, the reading of its trimmed text as a number.
pub fn accept_candidates(
    candidates: &Vec<Candidate>,
    numbers: &Vec<Result<String, String>>,
    replace_cfg: &ReplacementConfig,
) -> (sorted: Sorted)
    requires
        candidates@.len() == numbers@.len(),
    ensures
        record_views(sorted.records@) == accepted(
            candidate_views(candidates@),
            outcome_views(numbers@),
            replace_cfg@,
        ),
        rejection_views(sorted.rejections@) == rejected(
            candidate_views(candidates@),
            outcome_views(numbers@),
            replace_cfg@,
        ),
{
    let ghost cands = candidate_views(candidates@);
    let ghost outcomes = outcome_views(numbers@);
    let mut records: Vec<MetricRecord> = Vec::new();
    let mut rejections: Vec<Rejection> = Vec::new();
    let n = candidates.len();
    let mut i: usize = 0;
    while i < n
        invariant
            n == candidates@.len(),
            n == numbers@.len(),
            rejection_views(rejections@) == rejected(
                cands.take(i as int),
                outcomes.take(i as int),
                replace_cfg@,
            ),
            i <= n,
            cands == candidate_views(candidates@),
            outcomes == outcome_views(numbers@),
            record_views(records@) == accepted(
                cands.take(i as int),
                outcomes.take(i as int),
                replace_cfg@,
            ),
        decreases n - i,
    {
        let ghost held = record_views(records@);
        let ghost dropped = rejection_views(rejections@);
        let candidate = &candidates[i];
        proof {
            assert(cands.take(i + 1).drop_last() =~= cands.take(i as int));
            assert(outcomes.take(i + 1).drop_last() =~= outcomes.take(i as int));
            assert(cands.take(i + 1).last() == candidate@);
            assert(outcomes.take(i + 1).last() == outcome_view(numbers@[i as int]));
        }
        match coerce(candidate.text.as_str(), &numbers[i], replace_cfg) {
            Ok(value) => {
                records.push(MetricRecord { name: candidate.name.clone(), value });
                proof {
                    assert(record_views(records@) =~= held.push(
                        MetricView { name: candidate@.name, value: value@ },
                    ));
                }
            },
            Err(note) => {
                rejections.push(Rejection { name: candidate.name.clone(), note });
                proof {
                    assert(rejection_views(rejections@) =~= dropped.push(
                        RejectionView { name: candidate@.name, note: note@ },
                    ));
                }
            },
        }
        i += 1;
    }
    proof {
        assert(cands.take(n as int) =~= cands);
        assert(outcomes.take(n as int) =~= outcomes);
    }
    Sorted { records, rejections }
}

/// Writes the text body for `records`: one line for each record under a name that is
/// decorated where the undecorated name came before, then the trailer with the
/// signature of the undecorated names.
pub fn serialize(records: &Vec<MetricRecord>) -> (out: String)
    ensures
        out@ == prometheus_text(record_views(records@)),
        signature_of(record_names(record_views(records@)).to_set()) < 0x100_0000,
{
    let ghost views = record_views(records@);
    let ghost names = record_names(views);
    let mut metric_names = NameOccurrenceTable::new();
    let mut txt: Vec<String> = Vec::new();
    let n = records.len();
    let mut i: usize = 0;
    while i < n
        invariant
            n == records@.len(),
            i <= n,
            views == record_views(records@),
            names == record_names(views),
            forall|name: Seq<char>|
                metric_names@.dom().contains(name) <==> occurrences(names.take(i as int), name) > 0,
            forall|name: Seq<char>| #[trigger]
                metric_names.count_of(name) == occurrences(names.take(i as int), name),
            texts(txt@) == metric_lines(views).take(i as int),
        decreases n - i,
    {
        let ghost lines = texts(txt@);
        let ghost counted = metric_names;
        let record = &records[i];
        proof {
            assert(names.take(i + 1).drop_last() =~= names.take(i as int));
            assert(names.take(i + 1).last() == record@.name);
            lemma_occurrences_bounded(names.take(i as int), record@.name);
            assert(counted.count_of(record@.name) == occurrences(
                names.take(i as int),
                record@.name,
            ));
        }
        let name_count = metric_names.record(record.name.as_str());
        let mut line = decorate(record.name.as_str(), name_count);
        line.push(' ');
        push_text(&mut line, record.value.as_str());
        txt.push(line);
        proof {
            assert forall|name: Seq<char>| #[trigger]
                metric_names.count_of(name) == occurrences(names.take(i + 1), name) by {
                assert(counted.count_of(name) == occurrences(names.take(i as int), name));
            }
            assert(line@ =~= metric_line(views, i as int));
            assert(texts(txt@) =~= lines.push(line@));
            assert(metric_lines(views).take(i + 1) =~= metric_lines(views).take(i as int).push(
                metric_line(views, i as int),
            ));
        }
        i += 1;
    }
    let all_names = metric_names.distinct_names_seen();
    let md5_metric = names_signature(&all_names);
    proof {
        assert(names.take(n as int) =~= names);
        assert(metric_lines(views).take(n as int) =~= metric_lines(views));
        assert forall|name: Seq<char>| texts(all_names@).contains(name) <==> names.contains(
            name,
        ) by {
            lemma_occurrences_positive(names, name);
        }
        assert(texts(all_names@).to_set() =~= names.to_set());
    }
    let ghost lines = texts(txt@);
    txt.push(
        "# nc_metric_names_hash: first digits of a hash of all extracted metric names".to_owned(),
    );
    txt.push("# this number indicates change of names or change of number of metrics".to_owned());
    let mut last = "nc_metric_names_hash".to_owned();
    last.push(' ');
    push_decimal(&mut last, md5_metric as u64);
    txt.push(last);
    proof {
        assert(last@ =~= trailer(md5_metric as nat)[2]);
        assert(texts(txt@) =~= lines + trailer(md5_metric as nat));
    }
    join(&txt)
}

/// Asks `number_text` about the trimmed text of each candidate, in their order.
pub fn read_numbers<F: Fn(&str) -> Result<String, String>>(
    candidates: &Vec<Candidate>,
    number_text: F,
) -> (numbers: Vec<Result<String, String>>)
    requires
        forall|t: &str| call_requires(number_text, (t,)),
    ensures
        numbers@.len() == candidates@.len(),
        forall|i: int|
            0 <= i < numbers@.len() ==> answers_of(
                number_text,
                candidates@[i]@.text,
                #[trigger] numbers@[i],
            ),
{
    let mut numbers: Vec<Result<String, String>> = Vec::new();
    let n = candidates.len();
    let mut i: usize = 0;
    while i < n
        invariant
            n == candidates@.len(),
            i <= n,
            numbers@.len() == i,
            forall|t: &str| call_requires(number_text, (t,)),
            forall|k: int|
                0 <= k < i ==> answers_of(number_text, candidates@[k]@.text, #[trigger] numbers@[k]),
        decreases n - i,
    {
        let t = trim(candidates[i].text.as_str());
        let number = number_text(t);
        proof {
            assert(answers_of(number_text, candidates@[i as int]@.text, number));
        }
        numbers.push(number);
        i += 1;
    }
    numbers
}

/// Whether `out` is the text body of the document `xml` under the table `table`, given
/// that `number_text` returned `numbers` when it was asked about the candidates of the
/// document, one after the other. The signature in its last line is below 2^24.
pub open spec fn is_body_of<F: Fn(&str) -> Result<String, String>>(
    out: Seq<char>,
    xml: Seq<char>,
    table: Map<Seq<char>, SubstituteView>,
    number_text: F,
    numbers: Seq<Result<String, String>>,
) -> bool {
    let candidates = candidates_of(document_events(xml));
    let records = accepted(candidates, outcome_views(numbers), table);
    &&& numbers.len() == candidates.len()
    &&& forall|i: int|
        0 <= i < numbers.len() ==> answers_of(number_text, candidates[i].text, #[trigger] numbers[i])
    &&& out == prometheus_text(records)
    &&& signature_of(record_names(records).to_set()) < 0x100_0000
}

/// What the conversion of a document yields.
pub struct Conversion {
    /// The text body: the metric lines and the trailer.
    pub body: String,
    /// The candidates that were dropped, in document order, each with its note.
    pub rejections: Vec<Rejection>,
    /// The byte offset at which the document proved malformed, if it did.
    pub error_at: Option<usize>,
}

/// Whether `conversion` is what the document `xml` yields under the table `table`,
/// given that `number_text` returned `numbers` when it was asked about the candidates
/// of the document, one after the other.
pub open spec fn is_conversion_of<F: Fn(&str) -> Result<String, String>>(
    conversion: Conversion,
    xml: Seq<char>,
    table: Map<Seq<char>, SubstituteView>,
    number_text: F,
    numbers: Seq<Result<String, String>>,
) -> bool {
    let events = document_events(xml);
    &&& is_body_of(conversion.body@, xml, table, number_text, numbers)
    &&& rejection_views(conversion.rejections@) == rejected(
        candidates_of(events),
        outcome_views(numbers),
        table,
    )
    &&& match conversion.error_at {
        Some(at) => failure_of(events) == Some(at as nat),
        None => failure_of(events) is None,
    }
}

/// Converts the status document `xml`: the text body of metrics, the candidates that
/// were dropped, and where the document proved malformed if it did.
///
/// The document is walked depth first; every text found directly inside an element is
/// a candidate under the name of that element. `number_text` reads a trimmed text as a
/// number and gives its numeral, or the reason why it is none: it is asked once about
/// each candidate, in document order. A candidate is accepted with its numeral, or else
/// with its substitute from `replace_cfg`, or else dropped. A malformed document yields
/// the candidates that come before the place where it is malformed.
pub fn convert<F: Fn(&str) -> Result<String, String>>(
    xml: &str,
    replace_cfg: &ReplacementConfig,
    number_text: F,
) -> (conversion: Conversion)
    requires
        forall|t: &str| call_requires(number_text, (t,)),
    ensures
        exists|numbers: Seq<Result<String, String>>| #[trigger]
            is_conversion_of(conversion, xml@, replace_cfg@, number_text, numbers),
{
    let flat = flatten_xml(xml);
    let numbers = read_numbers(&flat.candidates, number_text);
    let sorted = accept_candidates(&flat.candidates, &numbers, replace_cfg);
    let body = serialize(&sorted.records);
    let conversion = Conversion { body, rejections: sorted.rejections, error_at: flat.error_at };
    proof {
        let candidates = candidates_of(document_events(xml@));
        assert(candidates == candidate_views(flat.candidates@));
        assert forall|i: int| 0 <= i < numbers@.len() implies answers_of(
            number_text,
            candidates[i].text,
            #[trigger] numbers@[i],
        ) by {
            assert(candidates[i] == flat.candidates@[i]@);
        }
        assert(is_body_of(conversion.body@, xml@, replace_cfg@, number_text, numbers@));
        assert(is_conversion_of(conversion, xml@, replace_cfg@, number_text, numbers@));
    }
    conversion
}

/// Converts the status document `xml` into the text body of metrics: the body of
/// [`convert`], without what it reports beside it.
pub fn xml_to_prometheus<F: Fn(&str) -> Result<String, String>>(
    xml: &str,
    replace_cfg: &ReplacementConfig,
    number_text: F,
) -> (out: String)
    requires
        forall|t: &str| call_requires(number_text, (t,)),
    ensures
        exists|numbers: Seq<Result<String, String>>| #[trigger]
            is_body_of(out@, xml@, replace_cfg@, number_text, numbers),
{
    let conversion = convert(xml, replace_cfg, number_text);
    proof {
        let numbers = choose|numbers: Seq<Result<String, String>>| #[trigger]
            is_conversion_of(conversion, xml@, replace_cfg@, number_text, numbers);
        assert(is_body_of(conversion.body@, xml@, replace_cfg@, number_text, numbers));
    }
    conversion.body
}

} // verus!
