//! Conversion of an XML status document into line-based text metrics.

pub mod coerce;
pub mod config;
pub mod convert;
pub mod counter;
pub mod events;
pub mod flatten;
pub mod laws;
pub mod name;
pub mod occurrences;
pub mod order;
pub mod replace;
pub mod response;
pub mod signature;
pub mod text;

pub use coerce::{coerce, nc_metric_to_number};
pub use config::Config;
pub use convert::{
    accept_candidates, convert, read_numbers, serialize, xml_to_prometheus, Conversion,
    MetricRecord, Rejection, Sorted,
};
pub use counter::RequestCounter;
pub use events::{read_events, XmlEvent};
pub use flatten::{flatten_events, flatten_xml, Candidate, Flattened};
pub use name::xml_path_to_metric_name;
pub use occurrences::NameOccurrenceTable;
pub use replace::{ReplacementConfig, Substitute};
pub use response::index;
pub use signature::{digest_number, names_signature};
