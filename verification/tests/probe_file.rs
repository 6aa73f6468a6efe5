use nmap_regex_matcher::{parse_probes, ProbeError};

const SAMPLE: &str = "# The nmap-service-probes sample\n\
Exclude T:9100-9107\n\
\n\
Probe TCP NULL q||\n\
totalwaitms 6000\n\
match ftp m|^220 ([-.\\w]+) FTP|s p/generic ftp/\n\
softmatch smtp m/^220 /i\n\
match broken m|(unclosed|\n\
\n\
Probe TCP GetRequest q|GET / HTTP/1.0\\r\\n\\r\\n|\r\n\
rarity 1\n\
ports 80,8080-8081, 443\n\
sslports 443\n\
totalwaitms 5000   \n\
match http m|^HTTP/1\\.[01] \\d\\d\\d|\n\
Probe UDP DNSStatusRequest q|\\0\\0\\x10\\0|\n\
rarity 9\n\
ports 53\n\
sslports 853\n\
match dns m|^\\0\\0\\x90|\n\
match dns m|^\\x00\\x00\\x90|\n";

#[test]
fn sample_file_probes() {
    let probes = parse_probes(SAMPLE).unwrap();
    assert_eq!(probes.tcp.len(), 2);
    assert_eq!(probes.udp.len(), 1);

    let null = &probes.tcp[0];
    assert_eq!(null.name, "NULL");
    assert!(null.payload.is_empty());
    assert_eq!(null.totalwait_ms, 6000);
    assert_eq!(null.rarity, 5);
    assert_eq!(null.ports, None);
    assert_eq!(null.sslports, None);
    // The match with an unclosed group is dropped.
    assert_eq!(null.matches.len(), 2);
    assert_eq!(null.matches[0].service_name, "ftp");
    assert_eq!(null.matches[0].regex.as_str(), "(?s)^220 ([-.\\w]+) FTP");
    assert!(!null.matches[0].soft);
    assert_eq!(null.matches[1].service_name, "smtp");
    assert_eq!(null.matches[1].regex.as_str(), "(?i)^220 ");
    assert!(null.matches[1].soft);

    let get = &probes.tcp[1];
    assert_eq!(get.name, "GetRequest");
    assert_eq!(get.payload, b"GET / HTTP/1.0\r\n\r\n".to_vec());
    assert_eq!(get.rarity, 1);
    assert_eq!(get.totalwait_ms, 5000);
    assert_eq!(get.ports, Some(vec![(80, 80), (8080, 8081), (443, 443)]));
    assert_eq!(get.sslports, Some(vec![(443, 443)]));
    assert_eq!(get.matches.len(), 1);
    assert!(get.matches[0].regex.regex().is_match(b"HTTP/1.1 200 OK"));

    let dns = &probes.udp[0];
    assert_eq!(dns.name, "DNSStatusRequest");
    assert_eq!(dns.payload, vec![0, 0, 0x10, 0]);
    assert_eq!(dns.rarity, 9);
    assert_eq!(dns.ports, Some(vec![(53, 53)]));
    // `\0` is no escape of the regex syntax: that rule is dropped.
    assert_eq!(dns.matches.len(), 1);
    assert_eq!(dns.matches[0].service_name, "dns");
    assert_eq!(dns.matches[0].regex.regex().as_str(), dns.matches[0].regex.as_str());
    assert_eq!(dns.matches[0].regex.as_str(), "^\\x00\\x00\\x90");
}

#[test]
fn defaults_and_bad_numbers() {
    let probes = parse_probes("Probe TCP A q|x|\ntotalwaitms soon\nrarity 300\nports nope\n").unwrap();
    let a = &probes.tcp[0];
    assert_eq!(a.totalwait_ms, 6000);
    assert_eq!(a.rarity, 5);
    assert_eq!(a.ports, None);
    assert_eq!(a.payload, b"x".to_vec());
}

#[test]
fn bad_port_list_clears_ports() {
    let probes = parse_probes("Probe UDP U q||\nports 1,2\nports 3,x\n").unwrap();
    assert_eq!(probes.udp[0].ports, None);
}

#[test]
fn lines_before_any_probe_are_ignored() {
    let probes = parse_probes("match http m|x|\nrarity 3\n").unwrap();
    assert!(probes.tcp.is_empty());
    assert!(probes.udp.is_empty());
}

#[test]
fn sslports_are_ignored_for_udp() {
    let probes = parse_probes("Probe UDP U q||\nsslports 443\n").unwrap();
    assert_eq!(probes.udp[0].ports, None);
}

#[test]
fn probes_keep_file_order() {
    let text = "Probe UDP U1 q||\nProbe TCP T1 q||\nProbe UDP U2 q||\nProbe TCP T2 q||\n";
    let probes = parse_probes(text).unwrap();
    let tcp: Vec<&str> = probes.tcp.iter().map(|p| p.name.as_str()).collect();
    let udp: Vec<&str> = probes.udp.iter().map(|p| p.name.as_str()).collect();
    assert_eq!(tcp, vec!["T1", "T2"]);
    assert_eq!(udp, vec!["U1", "U2"]);
}

#[test]
fn one_probe_per_header_line() {
    let probes = parse_probes(SAMPLE).unwrap();
    let tcp_headers = SAMPLE.lines().filter(|l| l.trim_end().starts_with("Probe TCP ")).count();
    let udp_headers = SAMPLE.lines().filter(|l| l.trim_end().starts_with("Probe UDP ")).count();
    assert_eq!(probes.tcp.len(), tcp_headers);
    assert_eq!(probes.udp.len(), udp_headers);
}

#[test]
fn every_match_is_well_formed() {
    let probes = parse_probes(SAMPLE).unwrap();
    for m in probes.tcp.iter().flat_map(|p| p.matches.iter()) {
        assert!(!m.service_name.is_empty());
        assert!(regex::bytes::Regex::new(m.regex.as_str()).is_ok());
    }
}

#[test]
fn missing_probe_name_is_refused() {
    assert_eq!(
        parse_probes("Probe TCP NULL q||\nProbe TCP Lonely\n").err(),
        Some(ProbeError::MissingTcpProbeName)
    );
    assert_eq!(
        parse_probes("Probe UDP Lonely").err(),
        Some(ProbeError::MissingUdpProbeName)
    );
}

#[test]
fn empty_text() {
    let probes = parse_probes("").unwrap();
    assert!(probes.tcp.is_empty() && probes.udp.is_empty());
}

#[test]
fn udp_and_tcp_directives_agree() {
    let body = "totalwaitms 700\nrarity 2\nports 1-3,9\nmatch http m|^HTTP|i\nsoftmatch x m|y|\nunknown line\n";
    let probes = parse_probes(&format!("Probe TCP A q|p|\n{body}Probe UDP A q|p|\n{body}")).unwrap();
    let (t, u) = (&probes.tcp[0], &probes.udp[0]);
    assert_eq!(t.name, u.name);
    assert_eq!(t.payload, u.payload);
    assert_eq!(t.totalwait_ms, u.totalwait_ms);
    assert_eq!(t.rarity, u.rarity);
    assert_eq!(t.ports, u.ports);
    let names = |ms: &Vec<nmap_regex_matcher::ServiceMatch>| -> Vec<(String, String, bool)> {
        ms.iter()
            .map(|m| (m.service_name.clone(), m.regex.as_str().to_string(), m.soft))
            .collect()
    };
    assert_eq!(names(&t.matches), names(&u.matches));
}
