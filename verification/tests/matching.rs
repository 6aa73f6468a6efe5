use nmap_regex_matcher::{
    chunk_len, collect_patterns, compile_pattern, count_matches, parse_probes, worker_count,
};

const PROBES: &str = "Probe TCP NULL q||\n\
match ftp m|^220 |\n\
match raw m|(?-u:\\xff)|\n\
Probe TCP GetRequest q|GET / HTTP/1.0\\r\\n\\r\\n|\n\
match http m|^GET |\n\
softmatch agent m|user-agent: curl|i\n\
Probe UDP Dns q||\n\
match dns m|example|\n";

#[test]
fn patterns_from_probes() {
    let probes = parse_probes(PROBES).unwrap();
    // The bytes-only pattern compiles for `regex::bytes` but not for the meta engine.
    assert_eq!(probes.tcp[0].matches.len(), 2);
    let patterns = collect_patterns(&probes);
    let summary: Vec<(&str, bool, usize, &str)> = patterns
        .iter()
        .map(|p| (p.service.as_str(), p.soft, p.probe_index, p.source()))
        .collect();
    assert_eq!(
        summary,
        vec![
            ("ftp", false, 0, "^220 "),
            ("http", false, 1, "^GET "),
            ("agent", true, 1, "(?i)user-agent: curl"),
            ("dns", false, 2, "example"),
        ]
    );
}

#[test]
fn compile_pattern_keeps_fields() {
    let probes = parse_probes(PROBES).unwrap();
    let p = compile_pattern(&probes.tcp[1].matches[1], 7).unwrap();
    assert_eq!(p.service, "agent");
    assert!(p.soft);
    assert_eq!(p.probe_index, 7);
    assert_eq!(p.source(), "(?i)user-agent: curl");
    assert_eq!(p.regex.as_str(), "(?i)user-agent: curl");
    assert!(compile_pattern(&probes.tcp[0].matches[1], 0).is_none());
}

#[test]
fn case_insensitive_pattern_matches() {
    let probes = parse_probes(PROBES).unwrap();
    let patterns = collect_patterns(&probes);
    let agent = vec![compile_pattern(&probes.tcp[1].matches[1], 1).unwrap()];
    assert_eq!(patterns.len(), 4);
    assert_eq!(count_matches(&agent, &[b"GET / HTTP/1.1\r\nUser-Agent: curl/8\r\n".to_vec()]), 1);
    assert_eq!(count_matches(&agent, &[b"GET / HTTP/1.1\r\n".to_vec()]), 0);
}

fn requests() -> Vec<Vec<u8>> {
    vec![
        b"GET / HTTP/1.1\r\nuser-agent: curl/7\r\n\r\n".to_vec(),
        b"POST /x HTTP/1.1\r\n\r\n".to_vec(),
        b"220 ready".to_vec(),
        b"GET /example HTTP/1.1\r\n\r\n".to_vec(),
    ]
}

#[test]
fn count_over_requests() {
    let probes = parse_probes(PROBES).unwrap();
    let patterns = collect_patterns(&probes);
    let reqs = requests();
    // request 0: http, agent; request 2: ftp; request 3: http, dns.
    assert_eq!(count_matches(&patterns, &reqs), 5);
    assert_eq!(count_matches(&patterns, &[]), 0);
    assert_eq!(count_matches(&Vec::new(), &reqs), 0);
}

#[test]
fn chunked_counts_add_up() {
    let probes = parse_probes(PROBES).unwrap();
    let patterns = collect_patterns(&probes);
    let reqs = requests();
    let whole = count_matches(&patterns, &reqs);
    for size in 1..=reqs.len() {
        let sum: u64 = reqs.chunks(size).map(|c| count_matches(&patterns, c)).sum();
        assert_eq!(sum, whole);
    }
}

#[test]
fn worker_counts() {
    assert_eq!(worker_count(None, 8), 8);
    assert_eq!(worker_count(Some(4), 8), 4);
    assert_eq!(worker_count(Some(32), 8), 32);
    assert_eq!(worker_count(Some(0), 8), 0);
}

#[test]
fn chunk_lengths() {
    assert_eq!(chunk_len(10, 3), 4);
    assert_eq!(chunk_len(9, 3), 3);
    // An empty batch still gets a usable chunk size.
    assert_eq!(chunk_len(0, 4), 1);
    assert_eq!(chunk_len(1, 16), 1);
    assert_eq!(chunk_len(100_000, 1), 100_000);
}
