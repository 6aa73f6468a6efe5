use nmap_regex_matcher::{
    decode_nmap_escape_bytes, extract_m_delimited, hex_nibble, match_line_fields,
    parse_port_ranges_list, parse_probe_tcp_line, parse_probe_udp_line, parse_q_field,
    split_first_token, ProbeError,
};

#[test]
fn hex_nibble_values() {
    assert_eq!(hex_nibble('0'), Some(0));
    assert_eq!(hex_nibble('9'), Some(9));
    assert_eq!(hex_nibble('a'), Some(10));
    assert_eq!(hex_nibble('f'), Some(15));
    assert_eq!(hex_nibble('A'), Some(10));
    assert_eq!(hex_nibble('F'), Some(15));
    assert_eq!(hex_nibble('g'), None);
    assert_eq!(hex_nibble(' '), None);
}

#[test]
fn decode_plain_and_escapes() {
    assert_eq!(
        decode_nmap_escape_bytes("GET / HTTP/1.0\\r\\n\\r\\n"),
        b"GET / HTTP/1.0\r\n\r\n".to_vec()
    );
    assert_eq!(decode_nmap_escape_bytes("\\0\\t\\\\\\q"), vec![0, 9, 92, b'q']);
    assert_eq!(decode_nmap_escape_bytes("\\n\\r"), vec![10, 13]);
}

#[test]
fn decode_hex_escapes() {
    assert_eq!(decode_nmap_escape_bytes("\\x41\\X42"), vec![0x41, 0x42]);
    assert_eq!(decode_nmap_escape_bytes("\\x4g!"), vec![b'!']);
    assert_eq!(decode_nmap_escape_bytes("\\x4"), vec![0x40]);
    assert_eq!(decode_nmap_escape_bytes("\\x"), vec![0x00]);
    assert_eq!(decode_nmap_escape_bytes("\\xff"), vec![0xff]);
}

#[test]
fn decode_edge_cases() {
    assert_eq!(decode_nmap_escape_bytes(""), Vec::<u8>::new());
    assert_eq!(decode_nmap_escape_bytes("ab\\"), vec![b'a', b'b']);
    // A non-ASCII character stands for its code point truncated to a byte.
    assert_eq!(decode_nmap_escape_bytes("é"), vec![0xe9]);
    assert_eq!(decode_nmap_escape_bytes("\u{263a}"), vec![0x3a]);
}

#[test]
fn decode_is_never_longer() {
    for s in ["", "abc", "\\x41\\x42", "\\", "\\x", "é\\n"] {
        assert!(decode_nmap_escape_bytes(s).len() <= s.chars().count());
    }
}

#[test]
fn q_field_payloads() {
    assert_eq!(parse_q_field("q|GET / HTTP/1.0\\r\\n\\r\\n|"), Some(b"GET / HTTP/1.0\r\n\r\n".to_vec()));
    assert_eq!(parse_q_field("   q||"), Some(vec![]));
    assert_eq!(parse_q_field("q/a|b/ trailing"), Some(b"a|b".to_vec()));
    assert_eq!(parse_q_field("x|a|"), None);
    assert_eq!(parse_q_field("q|abc"), None);
    assert_eq!(parse_q_field("q"), None);
    assert_eq!(parse_q_field(""), None);
}

#[test]
fn port_lists() {
    assert_eq!(parse_port_ranges_list("80,443"), Some(vec![(80, 80), (443, 443)]));
    assert_eq!(
        parse_port_ranges_list("1-5, 10 ,20-15"),
        Some(vec![(1, 5), (10, 10), (15, 20)])
    );
    assert_eq!(parse_port_ranges_list(" 7 - 9 ,"), Some(vec![(7, 9)]));
    assert_eq!(parse_port_ranges_list("+5"), Some(vec![(5, 5)]));
    assert_eq!(parse_port_ranges_list("65535"), Some(vec![(65535, 65535)]));
}

#[test]
fn port_lists_refused() {
    assert_eq!(parse_port_ranges_list(""), None);
    assert_eq!(parse_port_ranges_list(",,"), None);
    assert_eq!(parse_port_ranges_list("80,abc"), None);
    assert_eq!(parse_port_ranges_list("70000"), None);
    assert_eq!(parse_port_ranges_list("1-2-3"), None);
    assert_eq!(parse_port_ranges_list("-5"), None);
    assert_eq!(parse_port_ranges_list("+"), None);
}

#[test]
fn port_ranges_are_ordered() {
    for s in ["9-1", "1-9", "3", "100-50,2-1"] {
        let r = parse_port_ranges_list(s).unwrap();
        assert!(!r.is_empty());
        assert!(r.iter().all(|(lo, hi)| lo <= hi));
    }
}

#[test]
fn probe_header_lines() {
    assert_eq!(
        parse_probe_tcp_line("NULL q||").unwrap(),
        ("NULL".to_string(), vec![])
    );
    assert_eq!(
        parse_probe_tcp_line("  GetRequest q|GET / HTTP/1.0\\r\\n\\r\\n|").unwrap(),
        ("GetRequest".to_string(), b"GET / HTTP/1.0\r\n\r\n".to_vec())
    );
    assert_eq!(
        parse_probe_udp_line("DNSStatusRequest q|\\0\\0\\x10|").unwrap(),
        ("DNSStatusRequest".to_string(), vec![0, 0, 0x10])
    );
    // A missing or malformed q field gives an empty payload.
    assert_eq!(
        parse_probe_tcp_line("Weird nothing").unwrap(),
        ("Weird".to_string(), vec![])
    );
}

#[test]
fn probe_header_without_name_end() {
    assert_eq!(parse_probe_tcp_line("NULL"), Err(ProbeError::MissingTcpProbeName));
    assert_eq!(parse_probe_tcp_line("   "), Err(ProbeError::MissingTcpProbeName));
    assert_eq!(parse_probe_udp_line("NULL"), Err(ProbeError::MissingUdpProbeName));
    assert_eq!(
        ProbeError::MissingTcpProbeName.message(),
        "Probe TCP: missing probe name"
    );
    assert_eq!(
        ProbeError::MissingUdpProbeName.message(),
        "Probe UDP: missing probe name"
    );
}

#[test]
fn first_token() {
    assert_eq!(split_first_token("  http m|x|"), ("http", " m|x|"));
    assert_eq!(split_first_token("abc"), ("abc", ""));
    assert_eq!(split_first_token(""), ("", ""));
    assert_eq!(split_first_token("é\tz"), ("é", "\tz"));
    let (tok, rest) = split_first_token("\u{3000}name\u{a0}rest");
    assert_eq!(tok, "name");
    assert_eq!(rest, "\u{a0}rest");
}

#[test]
fn m_delimited_fields() {
    assert_eq!(
        extract_m_delimited("m|^HTTP/1\\.[01] \\d\\d\\d|s p/x/"),
        Some(("^HTTP/1\\.[01] \\d\\d\\d", "s p/x/"))
    );
    assert_eq!(extract_m_delimited("m|a\\|b|i"), Some(("a\\|b", "i")));
    assert_eq!(extract_m_delimited("m=x="), Some(("x", "")));
    assert_eq!(extract_m_delimited("m||"), Some(("", "")));
    assert_eq!(extract_m_delimited("m|é|ü"), Some(("é", "ü")));
}

#[test]
fn m_delimited_refused() {
    assert_eq!(extract_m_delimited(""), None);
    assert_eq!(extract_m_delimited("m"), None);
    assert_eq!(extract_m_delimited("mx"), None);
    assert_eq!(extract_m_delimited("n|x|"), None);
    assert_eq!(extract_m_delimited("m|abc"), None);
    assert_eq!(extract_m_delimited("m|abc\\|"), None);
    // A delimiter byte that starts a multi-byte character cannot yield UTF-8 parts.
    assert_eq!(extract_m_delimited("méabcé"), None);
}

#[test]
fn match_line_field_values() {
    assert_eq!(
        match_line_fields("match http m|^HTTP/1| p/Apache/"),
        Some(("http".to_string(), "^HTTP/1".to_string(), false))
    );
    assert_eq!(
        match_line_fields("softmatch ftp m|^220|i"),
        Some(("ftp".to_string(), "(?i)^220".to_string(), true))
    );
    assert_eq!(
        match_line_fields("match x m/a.b/is"),
        Some(("x".to_string(), "(?s)(?i)a.b".to_string(), false))
    );
    assert_eq!(
        match_line_fields("match x m|y|q i"),
        Some(("x".to_string(), "y".to_string(), false))
    );
    assert_eq!(match_line_fields("match  "), None);
    assert_eq!(match_line_fields("match http |x|"), None);
    assert_eq!(match_line_fields("match http m|x"), None);
}

#[test]
fn m_delimited_parts_rebuild_the_field() {
    for field in ["m|^HTTP/1\\.[01]|s", "m=a\\=b=i x", "m||", "m|é|ü"] {
        let (p, t) = extract_m_delimited(field).unwrap();
        let d = &field[1..2];
        assert_eq!(format!("m{d}{p}{d}{t}"), field);
    }
}

#[test]
fn first_token_parts_rebuild_the_text() {
    for s in ["  http m|x|", "abc", "", " \t a b "] {
        let (tok, rest) = split_first_token(s);
        assert_eq!(format!("{tok}{rest}"), s.trim_start());
        assert!(!tok.chars().any(char::is_whitespace));
        assert!(rest.is_empty() || rest.starts_with(char::is_whitespace));
    }
}
