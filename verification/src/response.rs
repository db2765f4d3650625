//! The body that the exporter serves: its own measurements, then the metrics.

use crate::counter::RequestCounter;
use crate::text::{decimal, push_decimal, push_text};
use vstd::prelude::*;

verus! {

/// The body of a response: the exporter's durations and request counts, each on a line
/// of its own, then the metrics of the monitored service.
pub open spec fn response_text(
    dur_parse: Seq<char>,
    dur_load: Seq<char>,
    dur_total: Seq<char>,
    started: nat,
    completed: nat,
    prom_str: Seq<char>,
) -> Seq<char> {
    "# exporter duration\nrust_nce_parse_duration "@ + dur_parse + "\nrust_nce_load_duration "@
        + dur_load + "\nrust_nce_total_duration "@ + dur_total
        + "\nrust_nce_request_start_count "@ + decimal(started)
        + "\nrust_nce_request_end_count "@ + decimal(completed)
        + "\n# nextcloud metrics\nocs_meta_up 1\n"@ + prom_str
}

/// Puts the exporter's own measurements before the metrics `prom_str`. The durations
/// come as the texts that are to be written; the counts are read from `req_counter`.
pub fn index(
    dur_parse: &str,
    dur_load: &str,
    dur_total: &str,
    req_counter: &RequestCounter,
    prom_str: &str,
) -> (body: String)
    ensures
        body@ == response_text(
            dur_parse@,
            dur_load@,
            dur_total@,
            req_counter.started() as nat,
            req_counter.completed() as nat,
            prom_str@,
        ),
{
    let mut body = String::new();
    push_text(&mut body, "# exporter duration\nrust_nce_parse_duration ");
    push_text(&mut body, dur_parse);
    push_text(&mut body, "\nrust_nce_load_duration ");
    push_text(&mut body, dur_load);
    push_text(&mut body, "\nrust_nce_total_duration ");
    push_text(&mut body, dur_total);
    push_text(&mut body, "\nrust_nce_request_start_count ");
    push_decimal(&mut body, req_counter.start_count() as u64);
    push_text(&mut body, "\nrust_nce_request_end_count ");
    push_decimal(&mut body, req_counter.end_count() as u64);
    push_text(&mut body, "\n# nextcloud metrics\nocs_meta_up 1\n");
    push_text(&mut body, prom_str);
    proof {
        assert(body@ =~= response_text(
            dur_parse@,
            dur_load@,
            dur_total@,
            req_counter.started() as nat,
            req_counter.completed() as nat,
            prom_str@,
        ));
    }
    body
}

} // verus!
