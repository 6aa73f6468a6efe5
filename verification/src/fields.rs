//! The fields of a probe file line: port lists, probe headers, the first token
//! of a line and the `m<d>pattern<d>flags` field of a match line.

use vstd::prelude::*;
use vstd::string::StrSliceExecFns;
use vstd::utf8::{decode_utf8, encode_utf8, valid_utf8};

use crate::escape::{q_field, spec_q_field};
use crate::text::{
    chars_of, find_char, find_whitespace, first_of, first_ws, is_ws, lemma_first_of_bound,
    lemma_first_ws_bound, parse_uint, spec_parse_uint, string_of, trim, trim_bounds,
    trim_start, trim_start_len,
};
use crate::trusted::str_from_utf8;

verus! {

/// Inclusive port ranges `(lo, hi)` from Nmap `ports` / `sslports` lines.
pub type PortRanges = Vec<(u16, u16)>;

/// Why a probe file was refused.
#[derive(Debug, PartialEq, Eq, Clone, Copy, Structural)]
pub enum ProbeError {
    /// A `Probe TCP` line has no white space after the probe name.
    MissingTcpProbeName,
    /// A `Probe UDP` line has no white space after the probe name.
    MissingUdpProbeName,
}

impl ProbeError {
    /// The text of the message that describes the error.
    pub open spec fn spec_message(self) -> Seq<char> {
        match self {
            ProbeError::MissingTcpProbeName => "Probe TCP: missing probe name"@,
            ProbeError::MissingUdpProbeName => "Probe UDP: missing probe name"@,
        }
    }

    /// The message that describes the error.
    pub fn message(&self) -> (res: String)
        ensures
            res@ == self.spec_message(),
    {
        match self {
            ProbeError::MissingTcpProbeName => String::from_str("Probe TCP: missing probe name"),
            ProbeError::MissingUdpProbeName => String::from_str("Probe UDP: missing probe name"),
        }
    }
}

/// One comma-separated element of a port list, already trimmed: `None` when it
/// is malformed, `Some(None)` when it is empty, else the range it denotes
/// (`a-b` in either order, or a single port).
pub open spec fn spec_port_part(part: Seq<char>) -> Option<Option<(u16, u16)>> {
    if part.len() == 0 {
        Some(None)
    } else {
        let d = first_of(part, '-');
        if d < part.len() {
            match (
                spec_parse_uint(trim(part.take(d as int)), 65535),
                spec_parse_uint(trim(part.skip(d + 1int)), 65535),
            ) {
                (Some(a), Some(b)) => if a <= b {
                    Some(Some((a as u16, b as u16)))
                } else {
                    Some(Some((b as u16, a as u16)))
                },
                _ => None,
            }
        } else {
            match spec_parse_uint(part, 65535) {
                Some(p) => Some(Some((p as u16, p as u16))),
                None => None,
            }
        }
    }
}

/// The ranges of the comma-separated list `s`, appended to `acc`; `None` as soon
/// as one element is malformed.
pub open spec fn port_ranges_from(s: Seq<char>, acc: Seq<(u16, u16)>) -> Option<
    Seq<(u16, u16)>,
>
    decreases s.len(),
{
    let i = first_of(s, ',');
    match spec_port_part(trim(s.take(i as int))) {
        None => None,
        Some(r) => {
            let acc2 = match r {
                Some(x) => acc.push(x),
                None => acc,
            };
            if i < s.len() {
                port_ranges_from(s.skip(i + 1int), acc2)
            } else {
                Some(acc2)
            }
        },
    }
}

/// A port list: `None` when an element is malformed or the list holds no range.
pub open spec fn spec_port_ranges(s: Seq<char>) -> Option<Seq<(u16, u16)>> {
    match port_ranges_from(s, Seq::empty()) {
        Some(v) => if v.len() == 0 {
            None
        } else {
            Some(v)
        },
        None => None,
    }
}

pub open spec fn ranges_ordered(v: Seq<(u16, u16)>) -> bool {
    forall|k: int| 0 <= k < v.len() ==> (#[trigger] v[k]).0 <= v[k].1
}

/// A probe header after `Probe TCP ` / `Probe UDP `: the name up to the first
/// white space (which must exist), then the payload of the `q` field, empty
/// when that field is missing or malformed.
pub open spec fn spec_probe_line(rest: Seq<char>) -> Option<(Seq<char>, Seq<u8>)> {
    let t = trim_start(rest);
    let e = first_ws(t);
    if e < t.len() {
        let payload = match spec_q_field(trim_start(t.skip(e as int))) {
            Some(p) => p,
            None => Seq::empty(),
        };
        Some((t.take(e as int), payload))
    } else {
        None
    }
}

/// After leading white space: the token up to the next white space, and the rest.
pub open spec fn spec_first_token(s: Seq<char>) -> (Seq<char>, Seq<char>) {
    let t = trim_start(s);
    let e = first_ws(t);
    (t.take(e as int), t.skip(e as int))
}

/// The index of the first byte equal to `d` at or after `i` that is not
/// escaped: a `\` byte escapes the byte after it.
pub open spec fn scan_delim(b: Seq<u8>, d: u8, i: nat) -> Option<nat>
    decreases b.len() - i,
{
    if i >= b.len() {
        None
    } else if b[i as int] == 92 {
        if i + 1 < b.len() {
            scan_delim(b, d, i + 2)
        } else {
            None
        }
    } else if b[i as int] == d {
        Some(i)
    } else {
        scan_delim(b, d, i + 1)
    }
}

/// `m<d>pattern<d>tail`, read on the UTF-8 bytes of `s`: the pattern and the
/// tail, when the closing delimiter exists and both parts are valid UTF-8.
pub open spec fn spec_m_delimited(s: Seq<char>) -> Option<(Seq<char>, Seq<char>)> {
    let b = encode_utf8(s);
    if b.len() >= 2 && b[0] == 109 {
        match scan_delim(b, b[1], 2) {
            Some(i) => {
                let p = b.subrange(2, i as int);
                let t = b.subrange(i + 1int, b.len() as int);
                if valid_utf8(p) && valid_utf8(t) {
                    Some((decode_utf8(p), decode_utf8(t)))
                } else {
                    None
                }
            },
            None => None,
        }
    } else {
        None
    }
}

fn port_part(part: &[char]) -> (res: Option<Option<(u16, u16)>>)
    ensures
        res == spec_port_part(part@),
        res matches Some(Some(r)) ==> r.0 <= r.1,
{
    if part.len() == 0 {
        return Some(None);
    }
    let d = find_char(part, '-');
    proof {
        lemma_first_of_bound(part@, '-');
    }
    if d < part.len() {
        let a_all = &part[0..d];
        let b_all = &part[d + 1..part.len()];
        assert(a_all@ == part@.take(d as int));
        assert(b_all@ == part@.skip(d + 1));
        let (a0, a1) = trim_bounds(a_all);
        let (b0, b1) = trim_bounds(b_all);
        let lo = parse_uint(&a_all[a0..a1], 65535);
        let hi = parse_uint(&b_all[b0..b1], 65535);
        match (lo, hi) {
            (Some(a), Some(b)) => {
                if a <= b {
                    Some(Some((a as u16, b as u16)))
                } else {
                    Some(Some((b as u16, a as u16)))
                }
            },
            _ => None,
        }
    } else {
        match parse_uint(part, 65535) {
            Some(p) => Some(Some((p as u16, p as u16))),
            None => None,
        }
    }
}

pub(crate) fn port_ranges(s: &[char]) -> (res: Option<PortRanges>)
    ensures
        match spec_port_ranges(s@) {
            Some(v) => res matches Some(r) && r@ == v,
            None => res is None,
        },
        res matches Some(r) ==> r@.len() > 0 && ranges_ordered(r@),
{
    let mut out: PortRanges = Vec::new();
    let mut start: usize = 0;
    proof {
        assert(s@.skip(0) =~= s@);
    }
    loop
        invariant_except_break
            start <= s@.len(),
            port_ranges_from(s@.skip(start as int), out@) == port_ranges_from(s@, Seq::empty()),
            ranges_ordered(out@),
        ensures
            port_ranges_from(s@, Seq::empty()) == Some(out@),
            ranges_ordered(out@),
        decreases s@.len() - start,
    {
        let rest = &s[start..s.len()];
        assert(rest@ == s@.skip(start as int));
        let i = find_char(rest, ',');
        proof {
            lemma_first_of_bound(rest@, ',');
        }
        let piece = &rest[0..i];
        assert(piece@ == rest@.take(i as int));
        let (a, b) = trim_bounds(piece);
        let part = &piece[a..b];
        assert(part@ == trim(rest@.take(first_of(rest@, ',') as int)));
        let ghost old_out = out@;
        match port_part(part) {
            None => {
                return None;
            },
            Some(None) => {},
            Some(Some(r)) => {
                out.push(r);
            },
        }
        if i == rest.len() {
            break ;
        }
        proof {
            assert(rest@.skip(i + 1) =~= s@.skip(start + i + 1));
        }
        start = start + i + 1;
    }
    if out.len() == 0 {
        None
    } else {
        Some(out)
    }
}

/// Parses a comma-separated list of ports and `lo-hi` port ranges.
pub fn parse_port_ranges_list(s: &str) -> (res: Option<PortRanges>)
    ensures
        match spec_port_ranges(s@) {
            Some(v) => res matches Some(r) && r@ == v,
            None => res is None,
        },
        res matches Some(r) ==> r@.len() > 0 && ranges_ordered(r@),
{
    let v = chars_of(s);
    port_ranges(v.as_slice())
}

pub(crate) fn probe_line(rest: &[char]) -> (res: Option<(String, Vec<u8>)>)
    ensures
        match spec_probe_line(rest@) {
            Some((n, p)) => res matches Some((rn, rp)) && rn@ == n && rp@ == p,
            None => res is None,
        },
{
    let i = trim_start_len(rest);
    let t = &rest[i..rest.len()];
    assert(t@ == trim_start(rest@));
    let e = find_whitespace(t);
    proof {
        lemma_first_ws_bound(t@);
    }
    if e == t.len() {
        return None;
    }
    let name = string_of(&t[0..e]);
    let after = &t[e..t.len()];
    assert(after@ == t@.skip(e as int));
    let j = trim_start_len(after);
    let qpart = &after[j..after.len()];
    assert(qpart@ == trim_start(after@));
    let payload = match q_field(qpart) {
        Some(p) => p,
        None => Vec::new(),
    };
    proof {
        assert(t@.take(e as int) == t@.subrange(0, e as int));
    }
    Some((name, payload))
}

/// Parses the rest of a `Probe TCP ` line into the probe's name and payload.
pub fn parse_probe_tcp_line(rest: &str) -> (res: Result<(String, Vec<u8>), ProbeError>)
    ensures
        match spec_probe_line(rest@) {
            Some((n, p)) => res matches Ok((rn, rp)) && rn@ == n && rp@ == p,
            None => res == Err::<(String, Vec<u8>), ProbeError>(ProbeError::MissingTcpProbeName),
        },
{
    let v = chars_of(rest);
    match probe_line(v.as_slice()) {
        Some(r) => Ok(r),
        None => Err(ProbeError::MissingTcpProbeName),
    }
}

/// Parses the rest of a `Probe UDP ` line into the probe's name and payload.
pub fn parse_probe_udp_line(rest: &str) -> (res: Result<(String, Vec<u8>), ProbeError>)
    ensures
        match spec_probe_line(rest@) {
            Some((n, p)) => res matches Ok((rn, rp)) && rn@ == n && rp@ == p,
            None => res == Err::<(String, Vec<u8>), ProbeError>(ProbeError::MissingUdpProbeName),
        },
{
    let v = chars_of(rest);
    match probe_line(v.as_slice()) {
        Some(r) => Ok(r),
        None => Err(ProbeError::MissingUdpProbeName),
    }
}

/// Character bounds of the first token of `s`: `(start, end)`.
pub(crate) fn first_token(s: &[char]) -> (r: (usize, usize))
    ensures
        r.0 <= r.1 <= s@.len(),
        s@.subrange(r.0 as int, r.1 as int) == spec_first_token(s@).0,
        s@.skip(r.1 as int) == spec_first_token(s@).1,
{
    let i = trim_start_len(s);
    let t = &s[i..s.len()];
    assert(t@ == trim_start(s@));
    let e = find_whitespace(t);
    proof {
        lemma_first_ws_bound(t@);
        assert(s@.subrange(i as int, i + e) =~= t@.take(e as int));
        assert(s@.skip(i + e) =~= t@.skip(e as int));
    }
    (i, i + e)
}

/// Splits `s`, after its leading white space, at its first white space.
pub fn split_first_token(s: &str) -> (res: (&str, &str))
    ensures
        res.0@ == spec_first_token(s@).0,
        res.1@ == spec_first_token(s@).1,
{
    let v = chars_of(s);
    let (a, b) = first_token(v.as_slice());
    proof {
        assert(s@.subrange(b as int, s@.len() as int) =~= s@.skip(b as int));
    }
    (s.substring_char(a, b), s.substring_char(b, v.len()))
}

/// Splits `m<d>pattern<d>tail` into the pattern and the tail. The delimiter `d`
/// is the byte after `m`; a `\` escapes the byte after it.
pub fn extract_m_delimited(rest: &str) -> (res: Option<(&str, &str)>)
    ensures
        match spec_m_delimited(rest@) {
            Some((p, t)) => res matches Some((rp, rt)) && rp@ == p && rt@ == t,
            None => res is None,
        },
{
    let b = rest.as_bytes();
    if b.len() < 2 || b[0] != 109u8 {
        return None;
    }
    let delim = b[1];
    let mut i: usize = 2;
    let mut escaped = false;
    while i < b.len()
        invariant
            2 <= i <= b@.len(),
            b@ == encode_utf8(rest@),
            b@.len() >= 2,
            b@[0] == 109,
            delim == b@[1],
            !escaped ==> scan_delim(b@, delim, 2) == scan_delim(b@, delim, i as nat),
            escaped ==> scan_delim(b@, delim, 2) == (if (i as int) < b@.len() {
                scan_delim(b@, delim, (i + 1) as nat)
            } else {
                None
            }),
        decreases b@.len() - i,
    {
        let c = b[i];
        if escaped {
            escaped = false;
            i = i + 1;
            continue;
        }
        if c == 92u8 {
            escaped = true;
            i = i + 1;
            continue;
        }
        if c == delim {
            assert(scan_delim(b@, delim, i as nat) == Some(i as nat));
            let pb = &b[2..i];
            let tb = &b[i + 1..b.len()];
            let p = match str_from_utf8(pb) {
                Ok(p) => p,
                Err(_) => {
                    return None;
                },
            };
            let t = match str_from_utf8(tb) {
                Ok(t) => t,
                Err(_) => {
                    return None;
                },
            };
            proof {
                vstd::utf8::encode_utf8_decode_utf8(p@);
                vstd::utf8::encode_utf8_decode_utf8(t@);
                assert(pb@ == b@.subrange(2, i as int));
                assert(tb@ == b@.subrange(i + 1, b@.len() as int));
                assert(decode_utf8(pb@) == p@);
                assert(decode_utf8(tb@) == t@);
                assert(valid_utf8(pb@) && valid_utf8(tb@));
                assert(spec_m_delimited(rest@) == Some((p@, t@)));
            }
            return Some((p, t));
        }
        i = i + 1;
    }
    None
}

/// The first token holds no white space and, followed by the rest, gives back
/// the text without its leading white space; the rest, if any, begins with
/// white space.
pub proof fn lemma_first_token_parts(s: Seq<char>)
    ensures
        spec_first_token(s).0 + spec_first_token(s).1 == trim_start(s),
        forall|k: int|
            0 <= k < spec_first_token(s).0.len() ==> !is_ws(#[trigger] spec_first_token(s).0[k]),
        spec_first_token(s).1.len() > 0 ==> is_ws(spec_first_token(s).1[0]),
{
    let t = trim_start(s);
    lemma_first_ws_bound(t);
    assert(t.take(first_ws(t) as int) + t.skip(first_ws(t) as int) =~= t);
}

proof fn lemma_scan_delim_found(b: Seq<u8>, d: u8, i: nat)
    ensures
        scan_delim(b, d, i) matches Some(j) ==> i <= j < b.len() && b[j as int] == d,
    decreases b.len() - i,
{
    if i < b.len() {
        if b[i as int] == 92 {
            if i + 1 < b.len() {
                lemma_scan_delim_found(b, d, i + 2);
            }
        } else if b[i as int] != d {
            lemma_scan_delim_found(b, d, i + 1);
        }
    }
}

/// A split `m` field is the bytes `m`, the delimiter, the pattern, the
/// delimiter again and the tail: nothing is lost or added.
pub proof fn lemma_m_delimited_parts(s: Seq<char>)
    ensures
        spec_m_delimited(s) matches Some((p, t)) ==> encode_utf8(s) == seq![
            109u8,
            encode_utf8(s)[1],
        ] + encode_utf8(p) + seq![encode_utf8(s)[1]] + encode_utf8(t),
{
    let b = encode_utf8(s);
    if b.len() >= 2 && b[0] == 109 {
        lemma_scan_delim_found(b, b[1], 2);
        if let Some(i) = scan_delim(b, b[1], 2) {
            let pb = b.subrange(2, i as int);
            let tb = b.subrange(i + 1int, b.len() as int);
            if valid_utf8(pb) && valid_utf8(tb) {
                vstd::utf8::decode_utf8_encode_utf8(pb);
                vstd::utf8::decode_utf8_encode_utf8(tb);
                assert(b =~= seq![109u8, b[1]] + pb + seq![b[1]] + tb);
            }
        }
    }
}

/// The pieces of `s` between the occurrences of `c`, as `str::split` gives them.
pub open spec fn split_on(s: Seq<char>, c: char) -> Seq<Seq<char>>
    decreases s.len(),
{
    let i = first_of(s, c);
    if i < s.len() {
        seq![s.take(i as int)] + split_on(s.skip(i + 1int), c)
    } else {
        seq![s]
    }
}

/// Every element of a port list, once trimmed, is empty or a port or range.
pub open spec fn all_elements_ok(parts: Seq<Seq<char>>) -> bool {
    forall|k: int| 0 <= k < parts.len() ==> (#[trigger] spec_port_part(trim(parts[k]))) is Some
}

/// The range that a non-empty well-formed element denotes.
pub open spec fn element_range(part: Seq<char>) -> (u16, u16) {
    spec_port_part(trim(part))->0->0
}

proof fn lemma_port_ranges_from_elementwise(s: Seq<char>, acc: Seq<(u16, u16)>)
    ensures
        port_ranges_from(s, acc) == if all_elements_ok(split_on(s, ',')) {
            Some(
                acc + split_on(s, ',').filter(|p: Seq<char>| trim(p).len() > 0).map_values(
                    |p: Seq<char>| element_range(p),
                ),
            )
        } else {
            None
        },
    decreases s.len(),
{
    let nonempty = |p: Seq<char>| trim(p).len() > 0;
    let f = |p: Seq<char>| element_range(p);
    let i = first_of(s, ',');
    lemma_first_of_bound(s, ',');
    let x = s.take(i as int);
    let parts = split_on(s, ',');
    let rest = if i < s.len() {
        split_on(s.skip(i + 1int), ',')
    } else {
        Seq::<Seq<char>>::empty()
    };
    if i == s.len() {
        assert(x =~= s);
    }
    assert(parts =~= seq![x] + rest);
    rest.lemma_filter_prepend(x, nonempty);
    assert(parts.filter(nonempty) == (if nonempty(x) {
        seq![x]
    } else {
        Seq::empty()
    }) + rest.filter(nonempty));
    assert(all_elements_ok(parts) == (spec_port_part(trim(x)) is Some && all_elements_ok(rest)))
        by {
        if all_elements_ok(parts) {
            assert(spec_port_part(trim(parts[0])) is Some);
            assert forall|k: int| 0 <= k < rest.len() implies (#[trigger] spec_port_part(
                trim(rest[k]),
            )) is Some by {
                assert(rest[k] == parts[k + 1]);
            }
        }
        if spec_port_part(trim(x)) is Some && all_elements_ok(rest) {
            assert forall|k: int| 0 <= k < parts.len() implies (#[trigger] spec_port_part(
                trim(parts[k]),
            )) is Some by {
                if k > 0 {
                    assert(parts[k] == rest[k - 1]);
                }
            }
        }
    }
    match spec_port_part(trim(x)) {
        None => {},
        Some(r) => {
            let acc2 = match r {
                Some(v) => acc.push(v),
                None => acc,
            };
            let kr = rest.filter(nonempty).map_values(f);
            if nonempty(x) {
                assert(r == Some(f(x)));
                assert((seq![x] + rest.filter(nonempty)).map_values(f) =~= seq![f(x)] + kr);
                assert(acc2 + kr =~= acc + (seq![f(x)] + kr));
            } else {
                assert(r is None);
                assert((Seq::<Seq<char>>::empty() + rest.filter(nonempty)) =~= rest.filter(
                    nonempty,
                ));
            }
            if i < s.len() {
                lemma_port_ranges_from_elementwise(s.skip(i + 1int), acc2);
            } else {
                assert(rest.filter(nonempty) =~= Seq::<Seq<char>>::empty()) by {
                    reveal_with_fuel(Seq::filter, 1);
                }
                assert(kr =~= Seq::<(u16, u16)>::empty());
                assert(acc2 + kr =~= acc2);
                assert(all_elements_ok(rest));
            }
        },
    }
}

/// A port list denotes one range per non-empty comma-separated element, in
/// order, each the range that element denotes; it is refused when any element
/// is malformed or no element is non-empty.
pub proof fn lemma_port_ranges_elementwise(s: Seq<char>)
    ensures
        spec_port_ranges(s) == {
            let kept = split_on(s, ',').filter(|p: Seq<char>| trim(p).len() > 0);
            if all_elements_ok(split_on(s, ',')) && kept.len() > 0 {
                Some(kept.map_values(|p: Seq<char>| element_range(p)))
            } else {
                None
            }
        },
{
    lemma_port_ranges_from_elementwise(s, Seq::empty());
    let kept = split_on(s, ',').filter(|p: Seq<char>| trim(p).len() > 0);
    let m = kept.map_values(|p: Seq<char>| element_range(p));
    assert(Seq::<(u16, u16)>::empty() + m =~= m);
}

/// A probe's name is the whole first token of its header: it is not empty,
/// holds no white space, and white space follows it.
pub proof fn lemma_probe_line_name(rest: Seq<char>)
    ensures
        spec_probe_line(rest) matches Some((n, _)) ==> {
            let t = trim_start(rest);
            &&& 0 < n.len() < t.len()
            &&& t.take(n.len() as int) == n
            &&& forall|k: int| 0 <= k < n.len() ==> !is_ws(#[trigger] n[k])
            &&& is_ws(t[n.len() as int])
        },
{
    let t = trim_start(rest);
    lemma_first_ws_bound(t);
    crate::text::lemma_trim_start_drops_leading_ws(rest);
}

} // verus!
