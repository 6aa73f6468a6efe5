//! Payload strings of probes: the `q|...|` field and nmap's escape sequences.

use vstd::prelude::*;

use crate::text::{chars_of, find_char, first_of, lemma_first_of_bound, trim_start, trim_start_len};

verus! {

/// The value of the hexadecimal digit `c`, if it is one.
pub open spec fn spec_hex_nibble(c: char) -> Option<u8> {
    if '0' <= c <= '9' {
        Some((c as u32 - '0' as u32) as u8)
    } else if 'a' <= c <= 'f' {
        Some((c as u32 - 'a' as u32 + 10) as u8)
    } else if 'A' <= c <= 'F' {
        Some((c as u32 - 'A' as u32 + 10) as u8)
    } else {
        None
    }
}

/// The byte that `\e` stands for, for an escape letter `e` other than `x`/`X`:
/// `\0`, `\n`, `\r`, `\t`, `\\`, and otherwise the letter itself.
pub open spec fn escaped_byte(e: char) -> u8 {
    if e == '0' {
        0
    } else if e == 'n' {
        10
    } else if e == 'r' {
        13
    } else if e == 't' {
        9
    } else if e == '\\' {
        92
    } else {
        e as u8
    }
}

/// The byte that `\xAB` stands for, empty when `a` or `b` is not a hex digit.
pub open spec fn hex_escape(a: char, b: char) -> Seq<u8> {
    match (spec_hex_nibble(a), spec_hex_nibble(b)) {
        (Some(hi), Some(lo)) => seq![(hi * 16 + lo) as u8],
        _ => Seq::empty(),
    }
}

/// The bytes that an nmap escaped string stands for. A character other than `\`
/// stands for its code point truncated to a byte. `\x` takes the next two
/// characters (`0` in place of missing ones) as hex digits and stands for nothing
/// when they are not both hex digits; a lone `\` at the end stands for nothing.
pub open spec fn spec_decode_escapes(s: Seq<char>) -> Seq<u8>
    decreases s.len(),
{
    if s.len() == 0 {
        Seq::empty()
    } else if s[0] != '\\' {
        seq![s[0] as u8] + spec_decode_escapes(s.drop_first())
    } else if s.len() == 1 {
        Seq::empty()
    } else if s[1] == 'x' || s[1] == 'X' {
        let a = if s.len() > 2 {
            s[2]
        } else {
            '0'
        };
        let b = if s.len() > 3 {
            s[3]
        } else {
            '0'
        };
        let n = if s.len() >= 4 {
            4
        } else {
            s.len() as int
        };
        hex_escape(a, b) + spec_decode_escapes(s.skip(n))
    } else {
        seq![escaped_byte(s[1])] + spec_decode_escapes(s.skip(2))
    }
}

/// The payload of a `q<d>...<d>` field: after leading white space, `q`, a
/// delimiter character `d`, then the escaped payload up to the next `d`.
pub open spec fn spec_q_field(s: Seq<char>) -> Option<Seq<u8>> {
    let t = trim_start(s);
    if t.len() >= 2 && t[0] == 'q' {
        let inner = t.skip(2);
        let end = first_of(inner, t[1]);
        if end < inner.len() {
            Some(spec_decode_escapes(inner.take(end as int)))
        } else {
            None
        }
    } else {
        None
    }
}

/// A decoded string is never longer than the escaped text.
pub proof fn lemma_decode_escapes_len(s: Seq<char>)
    ensures
        spec_decode_escapes(s).len() <= s.len(),
    decreases s.len(),
{
    if s.len() == 0 {
    } else if s[0] != '\\' {
        lemma_decode_escapes_len(s.drop_first());
    } else if s.len() == 1 {
    } else if s[1] == 'x' || s[1] == 'X' {
        let n = if s.len() >= 4 {
            4
        } else {
            s.len() as int
        };
        lemma_decode_escapes_len(s.skip(n));
    } else {
        lemma_decode_escapes_len(s.skip(2));
    }
}

/// The value of the hexadecimal digit `c`, if it is one.
pub fn hex_nibble(c: char) -> (res: Option<u8>)
    ensures
        res == spec_hex_nibble(c),
        res matches Some(v) ==> v < 16,
{
    if '0' <= c && c <= '9' {
        Some((c as u32 - '0' as u32) as u8)
    } else if 'a' <= c && c <= 'f' {
        Some((c as u32 - 'a' as u32 + 10) as u8)
    } else if 'A' <= c && c <= 'F' {
        Some((c as u32 - 'A' as u32 + 10) as u8)
    } else {
        None
    }
}

fn decode_escapes(s: &[char]) -> (out: Vec<u8>)
    ensures
        out@ == spec_decode_escapes(s@),
{
    let mut out: Vec<u8> = Vec::with_capacity(s.len());
    let mut i: usize = 0;
    proof {
        assert(s@.skip(0) =~= s@);
    }
    while i < s.len()
        invariant
            i <= s@.len(),
            out@ + spec_decode_escapes(s@.skip(i as int)) == spec_decode_escapes(s@),
        decreases s@.len() - i,
    {
        let ghost rest = s@.skip(i as int);
        let c = s[i];
        if c != '\\' {
            let ghost old_out = out@;
            out.push(c as u8);
            proof {
                assert(rest.drop_first() =~= s@.skip(i + 1));
                assert(old_out + (seq![c as u8] + spec_decode_escapes(s@.skip(i + 1)))
                    =~= out@ + spec_decode_escapes(s@.skip(i + 1)));
            }
            i = i + 1;
            continue;
        }
        if i + 1 == s.len() {
            proof {
                assert(s@.skip(i + 1) =~= Seq::<char>::empty());
                assert(out@ + Seq::<u8>::empty() =~= out@);
            }
            i = i + 1;
            continue;
        }
        let e = s[i + 1];
        if e == 'x' || e == 'X' {
            let a = if s.len() - i > 2 {
                s[i + 2]
            } else {
                '0'
            };
            let b = if s.len() - i > 3 {
                s[i + 3]
            } else {
                '0'
            };
            let ghost old_out = out@;
            match (hex_nibble(a), hex_nibble(b)) {
                (Some(hi), Some(lo)) => {
                    let v: u8 = hi << 4 | lo;
                    assert(v == hi * 16 + lo) by (bit_vector)
                        requires
                            hi < 16,
                            lo < 16,
                            v == hi << 4 | lo,
                    ;
                    out.push(v);
                },
                _ => {},
            }
            let n: usize = if s.len() - i >= 4 {
                4
            } else {
                s.len() - i
            };
            proof {
                assert(out@ =~= old_out + hex_escape(a, b));
                assert(rest.skip(n as int) =~= s@.skip(i + n));
                assert(old_out + (hex_escape(a, b) + spec_decode_escapes(s@.skip(i + n)))
                    =~= out@ + spec_decode_escapes(s@.skip(i + n)));
            }
            i = i + n;
        } else {
            let v: u8 = if e == '0' {
                0
            } else if e == 'n' {
                10
            } else if e == 'r' {
                13
            } else if e == 't' {
                9
            } else if e == '\\' {
                92
            } else {
                e as u8
            };
            let ghost old_out = out@;
            out.push(v);
            proof {
                assert(rest.skip(2) =~= s@.skip(i + 2));
                assert(old_out + (seq![v] + spec_decode_escapes(s@.skip(i + 2)))
                    =~= out@ + spec_decode_escapes(s@.skip(i + 2)));
            }
            i = i + 2;
        }
    }
    proof {
        assert(s@.skip(i as int) =~= Seq::<char>::empty());
        assert(out@ + Seq::<u8>::empty() =~= out@);
    }
    out
}

/// Decodes nmap's escape sequences in `s` into bytes.
pub fn decode_nmap_escape_bytes(s: &str) -> (out: Vec<u8>)
    ensures
        out@ == spec_decode_escapes(s@),
{
    let v = chars_of(s);
    decode_escapes(v.as_slice())
}

pub(crate) fn q_field(s: &[char]) -> (res: Option<Vec<u8>>)
    ensures
        match spec_q_field(s@) {
            Some(p) => res matches Some(v) && v@ == p,
            None => res is None,
        },
{
    let i = trim_start_len(s);
    let t = &s[i..s.len()];
    assert(t@ == trim_start(s@));
    if t.len() < 2 || t[0] != 'q' {
        return None;
    }
    let delim = t[1];
    let inner = &t[2..t.len()];
    assert(inner@ == t@.skip(2));
    let end = find_char(inner, delim);
    proof {
        lemma_first_of_bound(inner@, delim);
    }
    if end == inner.len() {
        return None;
    }
    let payload = &inner[0..end];
    assert(payload@ == inner@.take(end as int));
    Some(decode_escapes(payload))
}

/// Parses a `q|payload|` field; the delimiter is the first character after `q`.
pub fn parse_q_field(s: &str) -> (res: Option<Vec<u8>>)
    ensures
        match spec_q_field(s@) {
            Some(p) => res matches Some(v) && v@ == p,
            None => res is None,
        },
{
    let v = chars_of(s);
    q_field(v.as_slice())
}

} // verus!
