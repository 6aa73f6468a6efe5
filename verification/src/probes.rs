//! The probe file: its line-oriented grammar, the probes it declares and the
//! service match rules that each probe carries.

use vstd::prelude::*;
use vstd::string::StringExecFns;

use crate::fields::{
    extract_m_delimited, first_token, port_ranges, port_ranges_from, probe_line,
    ranges_ordered, spec_first_token, spec_m_delimited, spec_port_part, spec_port_ranges,
    spec_probe_line, PortRanges, ProbeError,
};
use crate::fields::lemma_first_token_parts;
use crate::text::{
    is_ws, lemma_first_ws_bound, alpha_prefix, alpha_prefix_len, chars_of, contains_char, find_char, first_of,
    lemma_first_of_bound, parse_uint, prefix_len, spec_parse_uint, string_of, trim,
    trim_bounds, trim_end, trim_end_len, trim_start, trim_start_len,
};
use crate::trusted::{bytes_regex_accepts, compile_bytes_regex, CompiledBytesRegex};

verus! {

/// A `match` / `softmatch` rule: a service name and the regex that identifies it.
#[derive(Debug)]
pub struct ServiceMatch {
    pub service_name: String,
    /// The regex, with the text it was compiled from (flags prefix included).
    pub regex: CompiledBytesRegex,
    pub soft: bool,
}

pub struct ServiceMatchView {
    pub service_name: Seq<char>,
    pub pattern: Seq<char>,
    pub soft: bool,
}

impl View for ServiceMatch {
    type V = ServiceMatchView;

    open spec fn view(&self) -> ServiceMatchView {
        ServiceMatchView { service_name: self.service_name@, pattern: self.regex@, soft: self.soft }
    }
}

pub open spec fn ranges_view(r: Option<PortRanges>) -> Option<Seq<(u16, u16)>> {
    match r {
        Some(v) => Some(v@),
        None => None,
    }
}

pub open spec fn matches_view(m: Seq<ServiceMatch>) -> Seq<ServiceMatchView> {
    m.map_values(|x: ServiceMatch| x@)
}

#[derive(Debug)]
pub struct TcpProbe {
    pub name: String,
    pub payload: Vec<u8>,
    pub totalwait_ms: u64,
    pub rarity: u8,
    /// `None` ⇒ probe may run against any port (Nmap default when `ports` omitted for some probes).
    pub ports: Option<PortRanges>,
    pub sslports: Option<PortRanges>,
    pub matches: Vec<ServiceMatch>,
}

pub struct TcpProbeView {
    pub name: Seq<char>,
    pub payload: Seq<u8>,
    pub totalwait_ms: u64,
    pub rarity: u8,
    pub ports: Option<Seq<(u16, u16)>>,
    pub sslports: Option<Seq<(u16, u16)>>,
    pub matches: Seq<ServiceMatchView>,
}

impl View for TcpProbe {
    type V = TcpProbeView;

    open spec fn view(&self) -> TcpProbeView {
        TcpProbeView {
            name: self.name@,
            payload: self.payload@,
            totalwait_ms: self.totalwait_ms,
            rarity: self.rarity,
            ports: ranges_view(self.ports),
            sslports: ranges_view(self.sslports),
            matches: matches_view(self.matches@),
        }
    }
}

#[derive(Debug)]
pub struct UdpProbe {
    pub name: String,
    pub payload: Vec<u8>,
    pub totalwait_ms: u64,
    pub rarity: u8,
    pub ports: Option<PortRanges>,
    pub matches: Vec<ServiceMatch>,
}

pub struct UdpProbeView {
    pub name: Seq<char>,
    pub payload: Seq<u8>,
    pub totalwait_ms: u64,
    pub rarity: u8,
    pub ports: Option<Seq<(u16, u16)>>,
    pub matches: Seq<ServiceMatchView>,
}

impl View for UdpProbe {
    type V = UdpProbeView;

    open spec fn view(&self) -> UdpProbeView {
        UdpProbeView {
            name: self.name@,
            payload: self.payload@,
            totalwait_ms: self.totalwait_ms,
            rarity: self.rarity,
            ports: ranges_view(self.ports),
            matches: matches_view(self.matches@),
        }
    }
}

#[derive(Debug)]
pub struct ServiceProbes {
    pub tcp: Vec<TcpProbe>,
    pub udp: Vec<UdpProbe>,
}

impl Default for ServiceProbes {
    fn default() -> (r: ServiceProbes)
        ensures
            r.tcp@.len() == 0 && r.udp@.len() == 0,
    {
        ServiceProbes { tcp: Vec::new(), udp: Vec::new() }
    }
}

pub struct ServiceProbesView {
    pub tcp: Seq<TcpProbeView>,
    pub udp: Seq<UdpProbeView>,
}

impl View for ServiceProbes {
    type V = ServiceProbesView;

    open spec fn view(&self) -> ServiceProbesView {
        ServiceProbesView {
            tcp: self.tcp@.map_values(|p: TcpProbe| p@),
            udp: self.udp@.map_values(|p: UdpProbe| p@),
        }
    }
}

/// The regex flags prefix for the letters after a match pattern: `(?s)` when
/// they hold `s`, then `(?i)` when they hold `i`.
pub open spec fn flags_prefix(flags: Seq<char>) -> Seq<char> {
    (if flags.contains('s') {
        "(?s)"@
    } else {
        Seq::empty()
    }) + (if flags.contains('i') {
        "(?i)"@
    } else {
        Seq::empty()
    })
}

/// The fields of a `match ` / `softmatch ` line: the service name (the first
/// token, which must not be empty) and the pattern of the `m` field preceded by
/// the prefix of its flags; `None` when the `m` field is missing or malformed.
pub open spec fn spec_match_fields(line: Seq<char>) -> Option<ServiceMatchView> {
    let soft = "softmatch "@.is_prefix_of(line);
    let rest = if soft {
        line.skip("softmatch "@.len() as int)
    } else {
        line.skip("match "@.len() as int)
    };
    let (token, after) = spec_first_token(rest);
    if token.len() == 0 {
        None
    } else {
        match spec_m_delimited(trim_start(after)) {
            None => None,
            Some((p, tail)) => Some(
                ServiceMatchView {
                    service_name: token,
                    pattern: flags_prefix(alpha_prefix(tail)) + p,
                    soft,
                },
            ),
        }
    }
}

/// The rule of a match line: its fields, kept only when `regex::bytes::Regex`
/// accepts the pattern.
pub open spec fn spec_match_line(line: Seq<char>) -> Option<ServiceMatchView> {
    match spec_match_fields(line) {
        Some(m) => if bytes_regex_accepts(m.pattern) {
            Some(m)
        } else {
            None
        },
        None => None,
    }
}

pub open spec fn is_match_line(line: Seq<char>) -> bool {
    "match "@.is_prefix_of(line) || "softmatch "@.is_prefix_of(line)
}

/// A freshly declared TCP probe.
pub open spec fn new_tcp_probe(name: Seq<char>, payload: Seq<u8>) -> TcpProbeView {
    TcpProbeView {
        name,
        payload,
        totalwait_ms: 6000,
        rarity: 5,
        ports: None,
        sslports: None,
        matches: Seq::empty(),
    }
}

/// A freshly declared UDP probe.
pub open spec fn new_udp_probe(name: Seq<char>, payload: Seq<u8>) -> UdpProbeView {
    UdpProbeView { name, payload, totalwait_ms: 6000, rarity: 5, ports: None, matches: Seq::empty() }
}

/// The effect of a directive line on the current TCP probe, and whether the
/// line was one of its directives (`totalwaitms`, `rarity`, `ports`,
/// `sslports`, `match`, `softmatch`). A number that does not parse leaves the
/// field as it was; a port list that does not parse clears it.
pub open spec fn spec_apply_tcp(line: Seq<char>, p: TcpProbeView) -> (bool, TcpProbeView) {
    if "totalwaitms "@.is_prefix_of(line) {
        match spec_parse_uint(trim(line.skip("totalwaitms "@.len() as int)), u64::MAX as nat) {
            Some(n) => (true, TcpProbeView { totalwait_ms: n as u64, ..p }),
            None => (true, p),
        }
    } else if "rarity "@.is_prefix_of(line) {
        match spec_parse_uint(trim(line.skip("rarity "@.len() as int)), u8::MAX as nat) {
            Some(n) => (true, TcpProbeView { rarity: n as u8, ..p }),
            None => (true, p),
        }
    } else if "ports "@.is_prefix_of(line) {
        (true, TcpProbeView { ports: spec_port_ranges(line.skip("ports "@.len() as int)), ..p })
    } else if "sslports "@.is_prefix_of(line) {
        (
            true,
            TcpProbeView { sslports: spec_port_ranges(line.skip("sslports "@.len() as int)), ..p },
        )
    } else if is_match_line(line) {
        match spec_match_line(line) {
            Some(m) => (true, TcpProbeView { matches: p.matches.push(m), ..p }),
            None => (true, p),
        }
    } else {
        (false, p)
    }
}

/// The effect of a directive line on the current UDP probe, as for TCP but
/// without `sslports`.
pub open spec fn spec_apply_udp(line: Seq<char>, p: UdpProbeView) -> (bool, UdpProbeView) {
    if "totalwaitms "@.is_prefix_of(line) {
        match spec_parse_uint(trim(line.skip("totalwaitms "@.len() as int)), u64::MAX as nat) {
            Some(n) => (true, UdpProbeView { totalwait_ms: n as u64, ..p }),
            None => (true, p),
        }
    } else if "rarity "@.is_prefix_of(line) {
        match spec_parse_uint(trim(line.skip("rarity "@.len() as int)), u8::MAX as nat) {
            Some(n) => (true, UdpProbeView { rarity: n as u8, ..p }),
            None => (true, p),
        }
    } else if "ports "@.is_prefix_of(line) {
        (true, UdpProbeView { ports: spec_port_ranges(line.skip("ports "@.len() as int)), ..p })
    } else if is_match_line(line) {
        match spec_match_line(line) {
            Some(m) => (true, UdpProbeView { matches: p.matches.push(m), ..p }),
            None => (true, p),
        }
    } else {
        (false, p)
    }
}

/// The reader's state between two lines: the probes completed so far and the
/// probe being read, if any.
pub struct ParseState {
    pub probes: ServiceProbesView,
    pub tcp: Option<TcpProbeView>,
    pub udp: Option<UdpProbeView>,
}

pub open spec fn initial_state() -> ParseState {
    ParseState {
        probes: ServiceProbesView { tcp: Seq::empty(), udp: Seq::empty() },
        tcp: None,
        udp: None,
    }
}

/// Completes the UDP probe being read, if any.
pub open spec fn flush_udp(st: ParseState) -> ParseState {
    match st.udp {
        Some(p) => ParseState {
            probes: ServiceProbesView { tcp: st.probes.tcp, udp: st.probes.udp.push(p) },
            tcp: st.tcp,
            udp: None,
        },
        None => st,
    }
}

/// Completes the TCP probe being read, if any.
pub open spec fn flush_tcp(st: ParseState) -> ParseState {
    match st.tcp {
        Some(p) => ParseState {
            probes: ServiceProbesView { tcp: st.probes.tcp.push(p), udp: st.probes.udp },
            tcp: None,
            udp: st.udp,
        },
        None => st,
    }
}

/// The effect of one line of the file. Trailing white space is ignored; empty
/// lines, comments and `Exclude` lines change nothing; a `Probe TCP` /
/// `Probe UDP` header completes the probe being read and starts a new one;
/// any other line is offered to the current TCP probe, then to the current UDP
/// probe.
pub open spec fn spec_step(st: ParseState, raw: Seq<char>) -> Result<ParseState, ProbeError> {
    let line = trim_end(raw);
    if line.len() == 0 || line[0] == '#' || "Exclude "@.is_prefix_of(line) {
        Ok(st)
    } else if "Probe TCP "@.is_prefix_of(line) {
        let st1 = flush_tcp(flush_udp(st));
        match spec_probe_line(line.skip("Probe TCP "@.len() as int)) {
            None => Err(ProbeError::MissingTcpProbeName),
            Some((name, payload)) => Ok(
                ParseState { probes: st1.probes, tcp: Some(new_tcp_probe(name, payload)), udp: st1.udp },
            ),
        }
    } else if "Probe UDP "@.is_prefix_of(line) {
        let st1 = flush_udp(flush_tcp(st));
        match spec_probe_line(line.skip("Probe UDP "@.len() as int)) {
            None => Err(ProbeError::MissingUdpProbeName),
            Some((name, payload)) => Ok(
                ParseState { probes: st1.probes, tcp: st1.tcp, udp: Some(new_udp_probe(name, payload)) },
            ),
        }
    } else {
        let (done, st2) = match st.tcp {
            Some(p) => {
                let (d, p2) = spec_apply_tcp(line, p);
                (d, ParseState { probes: st.probes, tcp: Some(p2), udp: st.udp })
            },
            None => (false, st),
        };
        if done {
            Ok(st2)
        } else {
            match st2.udp {
                Some(p) => Ok(
                    ParseState { probes: st2.probes, tcp: st2.tcp, udp: Some(spec_apply_udp(line, p).1) },
                ),
                None => Ok(st2),
            }
        }
    }
}

/// The state after the lines of `text` (separated by `\n`), starting from `st`.
pub open spec fn run_lines(text: Seq<char>, st: ParseState) -> Result<ParseState, ProbeError>
    decreases text.len(),
{
    let i = first_of(text, '\n');
    match spec_step(st, text.take(i as int)) {
        Err(e) => Err(e),
        Ok(st2) => if i < text.len() {
            run_lines(text.skip(i + 1int), st2)
        } else {
            Ok(st2)
        },
    }
}

/// The probes that a probe file declares, or the error that refuses it.
pub open spec fn spec_parse_probes(text: Seq<char>) -> Result<ServiceProbesView, ProbeError> {
    match run_lines(text, initial_state()) {
        Ok(st) => Ok(flush_tcp(flush_udp(st)).probes),
        Err(e) => Err(e),
    }
}

/// The fields of a `match ` / `softmatch ` line, before its pattern is compiled:
/// `(service name, pattern with flags prefix, soft)`.
pub fn match_line_fields(line: &str) -> (res: Option<(String, String, bool)>)
    requires
        is_match_line(line@),
    ensures
        match spec_match_fields(line@) {
            Some(m) => res matches Some((n, p, s)) && n@ == m.service_name && p@ == m.pattern
                && s == m.soft,
            None => res is None,
        },
{
    let v = chars_of(line);
    match_fields(v.as_slice())
}

fn match_fields(line: &[char]) -> (res: Option<(String, String, bool)>)
    requires
        is_match_line(line@),
    ensures
        match spec_match_fields(line@) {
            Some(m) => res matches Some((n, p, s)) && n@ == m.service_name && p@ == m.pattern
                && s == m.soft,
            None => res is None,
        },
{
    let (soft, n) = match prefix_len(line, "softmatch ") {
        Some(n) => (true, n),
        None => match prefix_len(line, "match ") {
            Some(n) => (false, n),
            None => {
                return None;
            },
        },
    };
    let rest = &line[n..line.len()];
    assert(rest@ == line@.skip(n as int));
    let (a, b) = first_token(rest);
    if a == b {
        return None;
    }
    let service = string_of(&rest[a..b]);
    let after = &rest[b..rest.len()];
    assert(after@ == rest@.skip(b as int));
    let j = trim_start_len(after);
    let after_text = string_of(&after[j..after.len()]);
    assert(after_text@ == trim_start(after@));
    match extract_m_delimited(after_text.as_str()) {
        None => None,
        Some((pattern_src, tail)) => {
            let tail_chars = chars_of(tail);
            let k = alpha_prefix_len(tail_chars.as_slice());
            let flags = &tail_chars.as_slice()[0..k];
            assert(flags@ == alpha_prefix(tail@));
            let mut pat = String::new();
            if contains_char(flags, 's') {
                pat.append("(?s)");
            }
            if contains_char(flags, 'i') {
                pat.append("(?i)");
            }
            pat.append(pattern_src);
            proof {
                assert(pat@ =~= flags_prefix(flags@) + pattern_src@);
            }
            Some((service, pat, soft))
        },
    }
}

/// The rule made of a service name, the soft flag and the result of compiling
/// the rule's pattern: `None` when the compilation failed, else a rule whose
/// pattern is the text that was compiled.
pub fn service_match_from(
    service_name: String,
    soft: bool,
    compiled: Result<CompiledBytesRegex, regex::Error>,
) -> (res: Option<ServiceMatch>)
    ensures
        match compiled {
            Ok(r) => res matches Some(m) && m@ == (ServiceMatchView {
                service_name: service_name@,
                pattern: r@,
                soft,
            }),
            Err(_) => res is None,
        },
{
    match compiled {
        Ok(regex) => Some(ServiceMatch { service_name, regex, soft }),
        Err(_) => None,
    }
}

fn parse_match_line(line: &[char]) -> (res: Option<ServiceMatch>)
    requires
        is_match_line(line@),
    ensures
        match spec_match_line(line@) {
            Some(m) => res matches Some(r) && r@ == m,
            None => res is None,
        },
{
    match match_fields(line) {
        None => None,
        Some((service_name, pattern, soft)) => {
            let compiled = compile_bytes_regex(pattern.as_str());
            service_match_from(service_name, soft, compiled)
        },
    }
}

fn parse_trimmed_uint(s: &[char], max: u64) -> (res: Option<u64>)
    ensures
        match spec_parse_uint(trim(s@), max as nat) {
            Some(v) => res == Some(v as u64),
            None => res is None,
        },
{
    let (a, b) = trim_bounds(s);
    parse_uint(&s[a..b], max)
}

proof fn lemma_push_matches(m: Seq<ServiceMatch>, x: ServiceMatch)
    ensures
        matches_view(m.push(x)) == matches_view(m).push(x@),
{
    assert(matches_view(m.push(x)) =~= matches_view(m).push(x@));
}

fn apply_probe_line_tcp(line: &[char], p: &mut TcpProbe) -> (res: bool)
    ensures
        (res, final(p)@) == spec_apply_tcp(line@, old(p)@),
{
    if let Some(n) = prefix_len(line, "totalwaitms ") {
        if let Some(v) = parse_trimmed_uint(&line[n..line.len()], u64::MAX) {
            p.totalwait_ms = v;
        }
        return true;
    }
    if let Some(n) = prefix_len(line, "rarity ") {
        if let Some(v) = parse_trimmed_uint(&line[n..line.len()], 255) {
            p.rarity = v as u8;
        }
        return true;
    }
    if let Some(n) = prefix_len(line, "ports ") {
        p.ports = port_ranges(&line[n..line.len()]);
        return true;
    }
    if let Some(n) = prefix_len(line, "sslports ") {
        p.sslports = port_ranges(&line[n..line.len()]);
        return true;
    }
    if prefix_len(line, "match ").is_some() || prefix_len(line, "softmatch ").is_some() {
        if let Some(m) = parse_match_line(line) {
            proof {
                lemma_push_matches(p.matches@, m);
            }
            p.matches.push(m);
        }
        return true;
    }
    false
}

fn apply_probe_line_udp(line: &[char], p: &mut UdpProbe) -> (res: bool)
    ensures
        (res, final(p)@) == spec_apply_udp(line@, old(p)@),
{
    if let Some(n) = prefix_len(line, "totalwaitms ") {
        if let Some(v) = parse_trimmed_uint(&line[n..line.len()], u64::MAX) {
            p.totalwait_ms = v;
        }
        return true;
    }
    if let Some(n) = prefix_len(line, "rarity ") {
        if let Some(v) = parse_trimmed_uint(&line[n..line.len()], 255) {
            p.rarity = v as u8;
        }
        return true;
    }
    if let Some(n) = prefix_len(line, "ports ") {
        p.ports = port_ranges(&line[n..line.len()]);
        return true;
    }
    if prefix_len(line, "match ").is_some() || prefix_len(line, "softmatch ").is_some() {
        if let Some(m) = parse_match_line(line) {
            proof {
                lemma_push_matches(p.matches@, m);
            }
            p.matches.push(m);
        }
        return true;
    }
    false
}

/// The reader's state: the probes completed so far and the probe being read.
struct ProbeReader {
    out: ServiceProbes,
    cur_tcp: Option<TcpProbe>,
    cur_udp: Option<UdpProbe>,
}

impl View for ProbeReader {
    type V = ParseState;

    closed spec fn view(&self) -> ParseState {
        ParseState {
            probes: self.out@,
            tcp: match self.cur_tcp {
                Some(p) => Some(p@),
                None => None,
            },
            udp: match self.cur_udp {
                Some(p) => Some(p@),
                None => None,
            },
        }
    }
}

impl ProbeReader {
    fn flush_udp(&mut self)
        ensures
            final(self)@ == flush_udp(old(self)@),
    {
        if let Some(p) = self.cur_udp.take() {
            proof {
                assert(self.out.udp@.push(p).map_values(|q: UdpProbe| q@) =~= self.out.udp@.map_values(
                    |q: UdpProbe| q@,
                ).push(p@));
            }
            self.out.udp.push(p);
        }
    }

    fn flush_tcp(&mut self)
        ensures
            final(self)@ == flush_tcp(old(self)@),
    {
        if let Some(p) = self.cur_tcp.take() {
            proof {
                assert(self.out.tcp@.push(p).map_values(|q: TcpProbe| q@) =~= self.out.tcp@.map_values(
                    |q: TcpProbe| q@,
                ).push(p@));
            }
            self.out.tcp.push(p);
        }
    }

    fn feed_line(&mut self, raw: &[char]) -> (res: Result<(), ProbeError>)
        ensures
            match spec_step(old(self)@, raw@) {
                Ok(st) => res is Ok && final(self)@ == st,
                Err(e) => res == Err::<(), ProbeError>(e),
            },
    {
        let len = trim_end_len(raw);
        let line = &raw[0..len];
        assert(line@ == trim_end(raw@));
        if len == 0 || line[0] == '#' || prefix_len(line, "Exclude ").is_some() {
            return Ok(());
        }
        if let Some(n) = prefix_len(line, "Probe TCP ") {
            self.flush_udp();
            self.flush_tcp();
            match probe_line(&line[n..len]) {
                None => {
                    return Err(ProbeError::MissingTcpProbeName);
                },
                Some((name, payload)) => {
                    self.cur_tcp = Some(
                        TcpProbe {
                            name,
                            payload,
                            totalwait_ms: 6000,
                            rarity: 5,
                            ports: None,
                            sslports: None,
                            matches: Vec::new(),
                        },
                    );
                    proof {
                        assert(matches_view(Seq::<ServiceMatch>::empty()) =~= Seq::empty());
                    }
                    return Ok(());
                },
            }
        }
        if let Some(n) = prefix_len(line, "Probe UDP ") {
            self.flush_tcp();
            self.flush_udp();
            match probe_line(&line[n..len]) {
                None => {
                    return Err(ProbeError::MissingUdpProbeName);
                },
                Some((name, payload)) => {
                    self.cur_udp = Some(
                        UdpProbe {
                            name,
                            payload,
                            totalwait_ms: 6000,
                            rarity: 5,
                            ports: None,
                            matches: Vec::new(),
                        },
                    );
                    proof {
                        assert(matches_view(Seq::<ServiceMatch>::empty()) =~= Seq::empty());
                    }
                    return Ok(());
                },
            }
        }
        if let Some(mut p) = self.cur_tcp.take() {
            let done = apply_probe_line_tcp(line, &mut p);
            self.cur_tcp = Some(p);
            if done {
                return Ok(());
            }
        }
        if let Some(mut p) = self.cur_udp.take() {
            let _ = apply_probe_line_udp(line, &mut p);
            self.cur_udp = Some(p);
        }
        Ok(())
    }
}

/// Parses the text of an `nmap-service-probes` file into its TCP and UDP probes.
pub fn parse_probes(text: &str) -> (res: Result<ServiceProbes, ProbeError>)
    ensures
        match spec_parse_probes(text@) {
            Ok(v) => res matches Ok(r) && r@ == v,
            Err(e) => res matches Err(re) && re == e,
        },
{
    let chars = chars_of(text);
    let s = chars.as_slice();
    let mut reader = ProbeReader {
        out: ServiceProbes::default(),
        cur_tcp: None,
        cur_udp: None,
    };
    proof {
        assert(reader@.probes.tcp =~= Seq::empty());
        assert(reader@.probes.udp =~= Seq::empty());
        assert(s@.skip(0) =~= s@);
    }
    let mut start: usize = 0;
    loop
        invariant_except_break
            start <= s@.len(),
            s@ == text@,
            run_lines(s@.skip(start as int), reader@) == run_lines(s@, initial_state()),
        ensures
            run_lines(s@, initial_state()) == Ok::<ParseState, ProbeError>(reader@),
        decreases s@.len() - start,
    {
        let rest = &s[start..s.len()];
        assert(rest@ == s@.skip(start as int));
        let i = find_char(rest, '\n');
        proof {
            lemma_first_of_bound(rest@, '\n');
        }
        let line = &rest[0..i];
        assert(line@ == rest@.take(i as int));
        match reader.feed_line(line) {
            Err(e) => {
                return Err(e);
            },
            Ok(()) => {},
        }
        if i == rest.len() {
            break ;
        }
        proof {
            assert(rest@.skip(i + 1) =~= s@.skip(start + i + 1));
        }
        start = start + i + 1;
    }
    reader.flush_udp();
    reader.flush_tcp();
    Ok(reader.out)
}

/// A rule has a service name and a pattern that `regex::bytes::Regex` accepts.
pub open spec fn match_wf(m: ServiceMatchView) -> bool {
    m.service_name.len() > 0 && bytes_regex_accepts(m.pattern)
}

/// A port list, when present, is not empty and each of its ranges is ordered.
pub open spec fn ports_wf(p: Option<Seq<(u16, u16)>>) -> bool {
    match p {
        Some(v) => v.len() > 0 && ranges_ordered(v),
        None => true,
    }
}

pub open spec fn matches_wf(ms: Seq<ServiceMatchView>) -> bool {
    forall|k: int| 0 <= k < ms.len() ==> match_wf(#[trigger] ms[k])
}

pub open spec fn tcp_wf(p: TcpProbeView) -> bool {
    ports_wf(p.ports) && ports_wf(p.sslports) && matches_wf(p.matches)
}

pub open spec fn udp_wf(p: UdpProbeView) -> bool {
    ports_wf(p.ports) && matches_wf(p.matches)
}

pub open spec fn probes_wf(v: ServiceProbesView) -> bool {
    &&& forall|k: int| 0 <= k < v.tcp.len() ==> tcp_wf(#[trigger] v.tcp[k])
    &&& forall|k: int| 0 <= k < v.udp.len() ==> udp_wf(#[trigger] v.udp[k])
}

pub open spec fn state_wf(st: ParseState) -> bool {
    &&& probes_wf(st.probes)
    &&& st.tcp matches Some(p) ==> tcp_wf(p)
    &&& st.udp matches Some(p) ==> udp_wf(p)
}

proof fn lemma_port_part_ordered(part: Seq<char>)
    ensures
        spec_port_part(part) matches Some(Some(r)) ==> r.0 <= r.1,
{
}

proof fn lemma_port_ranges_from_ordered(s: Seq<char>, acc: Seq<(u16, u16)>)
    requires
        ranges_ordered(acc),
    ensures
        port_ranges_from(s, acc) matches Some(v) ==> ranges_ordered(v) && v.len() >= acc.len(),
    decreases s.len(),
{
    let i = first_of(s, ',');
    lemma_first_of_bound(s, ',');
    lemma_port_part_ordered(trim(s.take(i as int)));
    match spec_port_part(trim(s.take(i as int))) {
        None => {},
        Some(r) => {
            let acc2 = match r {
                Some(x) => acc.push(x),
                None => acc,
            };
            assert(ranges_ordered(acc2));
            if i < s.len() {
                lemma_port_ranges_from_ordered(s.skip(i + 1int), acc2);
            }
        },
    }
}

/// Every port list that parses holds at least one range, and each range
/// `(lo, hi)` has `lo <= hi`.
pub proof fn lemma_port_ranges_wf(s: Seq<char>)
    ensures
        ports_wf(spec_port_ranges(s)),
{
    lemma_port_ranges_from_ordered(s, Seq::empty());
}

proof fn lemma_match_line_wf(line: Seq<char>)
    ensures
        spec_match_line(line) matches Some(m) ==> match_wf(m),
{
}

proof fn lemma_push_match_wf(ms: Seq<ServiceMatchView>, m: ServiceMatchView)
    requires
        matches_wf(ms),
        match_wf(m),
    ensures
        matches_wf(ms.push(m)),
{
    assert forall|k: int| 0 <= k < ms.push(m).len() implies match_wf(#[trigger] ms.push(m)[k]) by {
        if k < ms.len() {
            assert(ms.push(m)[k] == ms[k]);
        }
    }
}

proof fn lemma_apply_tcp_wf(line: Seq<char>, p: TcpProbeView)
    requires
        tcp_wf(p),
    ensures
        tcp_wf(spec_apply_tcp(line, p).1),
{
    lemma_port_ranges_wf(line.skip("ports "@.len() as int));
    lemma_port_ranges_wf(line.skip("sslports "@.len() as int));
    lemma_match_line_wf(line);
    if let Some(m) = spec_match_line(line) {
        lemma_push_match_wf(p.matches, m);
    }
}

proof fn lemma_apply_udp_wf(line: Seq<char>, p: UdpProbeView)
    requires
        udp_wf(p),
    ensures
        udp_wf(spec_apply_udp(line, p).1),
{
    lemma_port_ranges_wf(line.skip("ports "@.len() as int));
    lemma_match_line_wf(line);
    if let Some(m) = spec_match_line(line) {
        lemma_push_match_wf(p.matches, m);
    }
}

proof fn lemma_flush_wf(st: ParseState)
    requires
        state_wf(st),
    ensures
        state_wf(flush_udp(st)),
        state_wf(flush_tcp(st)),
{
    if let Some(p) = st.udp {
        let u = st.probes.udp.push(p);
        assert forall|k: int| 0 <= k < u.len() implies udp_wf(#[trigger] u[k]) by {
            if k < st.probes.udp.len() {
                assert(u[k] == st.probes.udp[k]);
            }
        }
    }
    if let Some(p) = st.tcp {
        let t = st.probes.tcp.push(p);
        assert forall|k: int| 0 <= k < t.len() implies tcp_wf(#[trigger] t[k]) by {
            if k < st.probes.tcp.len() {
                assert(t[k] == st.probes.tcp[k]);
            }
        }
    }
}

proof fn lemma_step_wf(st: ParseState, raw: Seq<char>)
    requires
        state_wf(st),
    ensures
        spec_step(st, raw) matches Ok(st2) ==> state_wf(st2),
{
    let line = trim_end(raw);
    lemma_flush_wf(st);
    lemma_flush_wf(flush_udp(st));
    lemma_flush_wf(flush_tcp(st));
    assert(matches_wf(Seq::<ServiceMatchView>::empty()));
    if let Some(p) = st.tcp {
        lemma_apply_tcp_wf(line, p);
    }
    if let Some(p) = st.udp {
        lemma_apply_udp_wf(line, p);
    }
}

proof fn lemma_run_lines_wf(text: Seq<char>, st: ParseState)
    requires
        state_wf(st),
    ensures
        run_lines(text, st) matches Ok(st2) ==> state_wf(st2),
    decreases text.len(),
{
    let i = first_of(text, '\n');
    lemma_first_of_bound(text, '\n');
    lemma_step_wf(st, text.take(i as int));
    if let Ok(st2) = spec_step(st, text.take(i as int)) {
        if i < text.len() {
            lemma_run_lines_wf(text.skip(i + 1int), st2);
        }
    }
}

/// Whatever a probe file holds, the probes read from it are well formed: every
/// port list is non-empty with ordered ranges, and every rule has a service
/// name and a pattern that `regex::bytes::Regex` accepts.
pub proof fn lemma_parsed_probes_wf(text: Seq<char>)
    ensures
        spec_parse_probes(text) matches Ok(v) ==> probes_wf(v),
{
    lemma_run_lines_wf(text, initial_state());
    if let Ok(st) = run_lines(text, initial_state()) {
        lemma_flush_wf(st);
        lemma_flush_wf(flush_udp(st));
    }
}

/// The probe names declared by the lines of `text` that begin, once trailing
/// white space is removed, with `header`, in the order of the lines.
pub open spec fn header_names(text: Seq<char>, header: Seq<char>) -> Seq<Seq<char>>
    decreases text.len(),
{
    let i = first_of(text, '\n');
    let line = trim_end(text.take(i as int));
    let here = if header.is_prefix_of(line) {
        match spec_probe_line(line.skip(header.len() as int)) {
            Some((n, _)) => seq![n],
            None => Seq::empty(),
        }
    } else {
        Seq::empty()
    };
    here + if i < text.len() {
        header_names(text.skip(i + 1int), header)
    } else {
        Seq::empty()
    }
}

/// Names of the TCP probes completed or being read.
pub open spec fn tcp_names(st: ParseState) -> Seq<Seq<char>> {
    st.probes.tcp.map_values(|p: TcpProbeView| p.name) + match st.tcp {
        Some(p) => seq![p.name],
        None => Seq::empty(),
    }
}

/// Names of the UDP probes completed or being read.
pub open spec fn udp_names(st: ParseState) -> Seq<Seq<char>> {
    st.probes.udp.map_values(|p: UdpProbeView| p.name) + match st.udp {
        Some(p) => seq![p.name],
        None => Seq::empty(),
    }
}

/// The names a single line declares with `header`.
pub open spec fn line_names(raw: Seq<char>, header: Seq<char>) -> Seq<Seq<char>> {
    let line = trim_end(raw);
    if header.is_prefix_of(line) {
        match spec_probe_line(line.skip(header.len() as int)) {
            Some((n, _)) => seq![n],
            None => Seq::empty(),
        }
    } else {
        Seq::empty()
    }
}

proof fn lemma_flush_names(st: ParseState)
    ensures
        tcp_names(flush_udp(st)) == tcp_names(st),
        udp_names(flush_tcp(st)) == udp_names(st),
        flush_tcp(st).tcp is None && tcp_names(flush_tcp(st)) == tcp_names(st),
        flush_udp(st).udp is None && udp_names(flush_udp(st)) == udp_names(st),
{
    if let Some(p) = st.tcp {
        assert(st.probes.tcp.push(p).map_values(|q: TcpProbeView| q.name) =~= st.probes.tcp.map_values(
            |q: TcpProbeView| q.name,
        ) + seq![p.name]);
        assert(tcp_names(flush_tcp(st)) =~= tcp_names(st));
    }
    if let Some(p) = st.udp {
        assert(st.probes.udp.push(p).map_values(|q: UdpProbeView| q.name) =~= st.probes.udp.map_values(
            |q: UdpProbeView| q.name,
        ) + seq![p.name]);
        assert(udp_names(flush_udp(st)) =~= udp_names(st));
    }
}

proof fn lemma_step_names(st: ParseState, raw: Seq<char>)
    ensures
        spec_step(st, raw) matches Ok(st2) ==> {
            &&& tcp_names(st2) == tcp_names(st) + line_names(raw, "Probe TCP "@)
            &&& udp_names(st2) == udp_names(st) + line_names(raw, "Probe UDP "@)
        },
{
    reveal_strlit("Probe TCP ");
    reveal_strlit("Probe UDP ");
    reveal_strlit("Exclude ");
    let line = trim_end(raw);
    let e: Seq<Seq<char>> = Seq::empty();
    assert(tcp_names(st) + e =~= tcp_names(st));
    assert(udp_names(st) + e =~= udp_names(st));
    if "Probe TCP "@.is_prefix_of(line) {
        assert(line[0] == "Probe TCP "@[0]);
        assert(line[6] == "Probe TCP "@[6]);
        assert(!"Exclude "@.is_prefix_of(line)) by {
            if "Exclude "@.is_prefix_of(line) {
                assert(line[0] == "Exclude "@[0]);
            }
        }
        assert(!"Probe UDP "@.is_prefix_of(line)) by {
            if "Probe UDP "@.is_prefix_of(line) {
                assert(line[6] == "Probe UDP "@[6]);
            }
        }
        lemma_flush_names(st);
        lemma_flush_names(flush_udp(st));
        if let Ok(st2) = spec_step(st, raw) {
            let st1 = flush_tcp(flush_udp(st));
            assert(tcp_names(st2) =~= st1.probes.tcp.map_values(|p: TcpProbeView| p.name) + seq![
                st2.tcp->0.name,
            ]);
            assert(tcp_names(st1) =~= st1.probes.tcp.map_values(|p: TcpProbeView| p.name));
        }
    } else if "Probe UDP "@.is_prefix_of(line) {
        assert(line[0] == "Probe UDP "@[0]);
        assert(!"Exclude "@.is_prefix_of(line)) by {
            if "Exclude "@.is_prefix_of(line) {
                assert(line[0] == "Exclude "@[0]);
            }
        }
        lemma_flush_names(st);
        lemma_flush_names(flush_tcp(st));
        if let Ok(st2) = spec_step(st, raw) {
            let st1 = flush_udp(flush_tcp(st));
            assert(udp_names(st2) =~= st1.probes.udp.map_values(|p: UdpProbeView| p.name) + seq![
                st2.udp->0.name,
            ]);
            assert(udp_names(st1) =~= st1.probes.udp.map_values(|p: UdpProbeView| p.name));
        }
    }
}

proof fn lemma_run_lines_names(text: Seq<char>, st: ParseState)
    ensures
        run_lines(text, st) matches Ok(st2) ==> {
            &&& tcp_names(st2) == tcp_names(st) + header_names(text, "Probe TCP "@)
            &&& udp_names(st2) == udp_names(st) + header_names(text, "Probe UDP "@)
        },
    decreases text.len(),
{
    let i = first_of(text, '\n');
    lemma_first_of_bound(text, '\n');
    let raw = text.take(i as int);
    lemma_step_names(st, raw);
    if let Ok(st2) = spec_step(st, raw) {
        if i < text.len() {
            let rest = text.skip(i + 1int);
            lemma_run_lines_names(rest, st2);
            assert(tcp_names(st) + header_names(text, "Probe TCP "@) =~= tcp_names(st) + line_names(
                raw,
                "Probe TCP "@,
            ) + header_names(rest, "Probe TCP "@));
            assert(udp_names(st) + header_names(text, "Probe UDP "@) =~= udp_names(st) + line_names(
                raw,
                "Probe UDP "@,
            ) + header_names(rest, "Probe UDP "@));
        } else {
            assert(header_names(text, "Probe TCP "@) =~= line_names(raw, "Probe TCP "@));
            assert(header_names(text, "Probe UDP "@) =~= line_names(raw, "Probe UDP "@));
        }
    }
}

/// Each `Probe TCP` line of a probe file declares one TCP probe and each
/// `Probe UDP` line one UDP probe, named as on that line: the probes come in
/// the order of their lines.
pub proof fn lemma_parsed_probe_names(text: Seq<char>)
    ensures
        spec_parse_probes(text) matches Ok(v) ==> {
            &&& v.tcp.map_values(|p: TcpProbeView| p.name) == header_names(text, "Probe TCP "@)
            &&& v.udp.map_values(|p: UdpProbeView| p.name) == header_names(text, "Probe UDP "@)
        },
{
    let st0 = initial_state();
    assert(tcp_names(st0) =~= Seq::empty());
    assert(udp_names(st0) =~= Seq::empty());
    lemma_run_lines_names(text, st0);
    if let Ok(st) = run_lines(text, st0) {
        lemma_flush_names(st);
        lemma_flush_names(flush_udp(st));
        let f = flush_tcp(flush_udp(st));
        assert(tcp_names(f) =~= f.probes.tcp.map_values(|p: TcpProbeView| p.name));
        assert(udp_names(f) =~= f.probes.udp.map_values(|p: UdpProbeView| p.name));
        assert(header_names(text, "Probe TCP "@) =~= Seq::empty() + header_names(text, "Probe TCP "@));
        assert(header_names(text, "Probe UDP "@) =~= Seq::empty() + header_names(text, "Probe UDP "@));
    }
}

/// A UDP probe and a TCP probe agree on every field that both have.
pub open spec fn agree_on_shared_fields(u: UdpProbeView, t: TcpProbeView) -> bool {
    &&& u.name == t.name
    &&& u.payload == t.payload
    &&& u.totalwait_ms == t.totalwait_ms
    &&& u.rarity == t.rarity
    &&& u.ports == t.ports
    &&& u.matches == t.matches
}

/// UDP and TCP probes read their directive lines alike, `sslports` aside: on
/// any other line, two probes that agree on their shared fields both take the
/// line as a directive or both ignore it, and agree afterwards.
pub proof fn lemma_udp_tcp_directives_agree(line: Seq<char>, u: UdpProbeView, t: TcpProbeView)
    requires
        !"sslports "@.is_prefix_of(line),
        agree_on_shared_fields(u, t),
    ensures
        spec_apply_udp(line, u).0 == spec_apply_tcp(line, t).0,
        agree_on_shared_fields(spec_apply_udp(line, u).1, spec_apply_tcp(line, t).1),
{
}

/// The service name of a match line is the whole first token after `match ` or
/// `softmatch `: after the white space that follows the keyword, it runs up to
/// the next white space (or the end of the line), holds no white space, and
/// is not empty. The rule is soft exactly when the line begins `softmatch `.
pub proof fn lemma_match_fields_service_name(line: Seq<char>)
    ensures
        spec_match_fields(line) matches Some(m) ==> {
            let rest = if m.soft {
                line.skip("softmatch "@.len() as int)
            } else {
                line.skip("match "@.len() as int)
            };
            let t = trim_start(rest);
            let n = m.service_name.len();
            &&& m.soft == "softmatch "@.is_prefix_of(line)
            &&& 0 < n <= t.len()
            &&& t.take(n as int) == m.service_name
            &&& forall|k: int| 0 <= k < n ==> !is_ws(#[trigger] m.service_name[k])
            &&& (n == t.len() || is_ws(t[n as int]))
        },
{
    let soft = "softmatch "@.is_prefix_of(line);
    let rest = if soft {
        line.skip("softmatch "@.len() as int)
    } else {
        line.skip("match "@.len() as int)
    };
    let t = trim_start(rest);
    lemma_first_ws_bound(t);
    lemma_first_token_parts(rest);
}

} // verus!
