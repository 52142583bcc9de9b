//! Extraction, encoding and classification of DNS message sequences.

pub mod adaptive_padding;
pub mod bounded_buffer;
pub mod chrome;
pub mod confusion;
pub mod constant_rate;
pub mod constants;
pub mod crawl_index;
pub mod distance_cost_info;
pub mod dns_tcp;
pub mod dnstap;
pub mod duration_text;
pub mod edns_padding;
pub mod element_text;
pub mod evaluation_plan;
pub mod jsonl;
pub mod keyed;
pub mod knn;
pub mod load_sequence;
pub mod minmax;
pub mod payload;
pub mod pcap;
pub mod sequence;
pub mod sequence_element;
pub mod tcp_buffer;
pub mod tls_extract;
pub mod precision_sequence;
pub mod recording;
pub mod framestream;
pub mod stable_sort;
pub mod stats;
pub mod stats_collector;
pub mod surt;
