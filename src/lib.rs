//! Availability scanner for short `.li` domain labels: candidate generation,
//! reply parsing, result aggregation and the dispatch decisions of a scan.

pub mod aggregate;
pub mod candidate;
pub mod dispatch;
pub mod pattern;
pub mod probe;
pub mod scan;
pub mod status;

pub use aggregate::ResultAggregator;
pub use candidate::{generate_domains, is_valid_domain};
pub use dispatch::{DispatchAction, DispatchEvent, Dispatcher};
pub use pattern::generate_repeat_pattern_domains;
pub use probe::{domain_name, parse_response, query_line, reply_from_trimmed, ProbeResult, Reply, SENTINEL_CODE};
pub use scan::{available_report, scan_candidates, LiDomainScanner};
pub use status::DomainStatus;
