//! Parsing of the nmap `nmap-service-probes` format and matching of
//! normalized HTTP requests against the service patterns it defines.

pub mod escape;
pub mod fields;
pub mod patterns;
pub mod probes;
pub mod request;
pub mod text;
pub mod trusted;

pub use escape::{decode_nmap_escape_bytes, hex_nibble, parse_q_field};
pub use fields::{
    extract_m_delimited, parse_port_ranges_list, parse_probe_tcp_line, parse_probe_udp_line,
    split_first_token, PortRanges, ProbeError,
};
pub use patterns::{
    chunk_len, collect_patterns, compile_pattern, count_matches, worker_count, Pattern,
};
pub use probes::{
    match_line_fields, parse_probes, service_match_from, ServiceMatch, ServiceProbes, TcpProbe,
    UdpProbe,
};
pub use request::{append_requests, corpus_is_full, HttpRequest};
