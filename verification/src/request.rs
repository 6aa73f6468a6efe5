//! HTTP requests of the corpus and the byte form in which they are matched.

use vstd::prelude::*;
use vstd::utf8::encode_utf8;

use crate::text::chars_of;

verus! {

/// An HTTP request of the corpus. `headers` holds the header fields in
/// increasing order of their names, each name once (see `well_formed`).
pub struct HttpRequest {
    pub method: String,
    pub url: String,
    pub headers: Vec<(String, String)>,
    pub data: Option<String>,
}

pub struct HttpRequestView {
    pub method: Seq<char>,
    pub url: Seq<char>,
    pub headers: Seq<(Seq<char>, Seq<char>)>,
    pub data: Option<Seq<char>>,
}

impl View for HttpRequest {
    type V = HttpRequestView;

    open spec fn view(&self) -> HttpRequestView {
        HttpRequestView {
            method: self.method@,
            url: self.url@,
            headers: self.headers@.map_values(|h: (String, String)| (h.0@, h.1@)),
            data: match self.data {
                Some(d) => Some(d@),
                None => None,
            },
        }
    }
}

/// `a` comes before `b` in the order of `String` (code point by code point).
pub open spec fn chars_lt(a: Seq<char>, b: Seq<char>) -> bool
    decreases a.len(),
{
    if a.len() == 0 {
        b.len() > 0
    } else if b.len() == 0 {
        false
    } else if a[0] != b[0] {
        a[0] < b[0]
    } else {
        chars_lt(a.drop_first(), b.drop_first())
    }
}

impl HttpRequestView {
    /// The header names are strictly increasing, as a map's keys are.
    pub open spec fn well_formed(self) -> bool {
        forall|i: int, j: int|
            0 <= i < j < self.headers.len() ==> chars_lt(
                #[trigger] self.headers[i].0,
                #[trigger] self.headers[j].0,
            )
    }
}

/// `chars_lt` is a strict order: no text comes before itself.
pub proof fn lemma_chars_lt_irreflexive(a: Seq<char>)
    ensures
        !chars_lt(a, a),
    decreases a.len(),
{
    if a.len() > 0 {
        lemma_chars_lt_irreflexive(a.drop_first());
    }
}

/// `chars_lt` is a strict order: it is transitive.
pub proof fn lemma_chars_lt_transitive(a: Seq<char>, b: Seq<char>, c: Seq<char>)
    requires
        chars_lt(a, b),
        chars_lt(b, c),
    ensures
        chars_lt(a, c),
    decreases a.len(),
{
    if a.len() > 0 && b.len() > 0 && c.len() > 0 && a[0] == b[0] && b[0] == c[0] {
        lemma_chars_lt_transitive(a.drop_first(), b.drop_first(), c.drop_first());
    }
}

/// Each header name is strictly below the next one.
pub open spec fn adjacent_names_increase(h: Seq<(Seq<char>, Seq<char>)>) -> bool {
    forall|i: int, j: int|
        0 <= i && j == i + 1 && j < h.len() ==> chars_lt(#[trigger] h[i].0, #[trigger] h[j].0)
}

proof fn lemma_adjacent_names_increase(h: Seq<(Seq<char>, Seq<char>)>, i: int, j: int)
    requires
        adjacent_names_increase(h),
        0 <= i < j < h.len(),
    ensures
        chars_lt(h[i].0, h[j].0),
    decreases j - i,
{
    if j > i + 1 {
        lemma_adjacent_names_increase(h, i, j - 1);
        assert(chars_lt(h[j - 1].0, h[j].0));
        lemma_chars_lt_transitive(h[i].0, h[j - 1].0, h[j].0);
    }
}

/// In a well-formed request no header name occurs twice.
pub proof fn lemma_header_names_distinct(r: HttpRequestView, i: int, j: int)
    requires
        r.well_formed(),
        0 <= i < j < r.headers.len(),
    ensures
        r.headers[i].0 != r.headers[j].0,
{
    lemma_chars_lt_irreflexive(r.headers[i].0);
}

fn text_lt(a: &[char], b: &[char]) -> (res: bool)
    ensures
        res == chars_lt(a@, b@),
{
    let mut i: usize = 0;
    proof {
        assert(a@.skip(0) =~= a@);
        assert(b@.skip(0) =~= b@);
    }
    while i < a.len() && i < b.len() && a[i] == b[i]
        invariant
            i <= a@.len(),
            i <= b@.len(),
            chars_lt(a@, b@) == chars_lt(a@.skip(i as int), b@.skip(i as int)),
        decreases a@.len() - i,
    {
        proof {
            assert(a@.skip(i as int).drop_first() =~= a@.skip(i + 1));
            assert(b@.skip(i as int).drop_first() =~= b@.skip(i + 1));
        }
        i = i + 1;
    }
    if i == a.len() {
        i < b.len()
    } else if i == b.len() {
        false
    } else {
        a[i] < b[i]
    }
}

/// The bytes of the header lines `name: value\r\n`, in order.
pub open spec fn header_bytes(h: Seq<(Seq<char>, Seq<char>)>) -> Seq<u8>
    decreases h.len(),
{
    if h.len() == 0 {
        Seq::empty()
    } else {
        header_bytes(h.drop_last()) + encode_utf8(h.last().0) + encode_utf8(": "@) + encode_utf8(
            h.last().1,
        ) + encode_utf8("\r\n"@)
    }
}

/// The request as the bytes of an HTTP/1.1 message: request line, header
/// lines, an empty line, then the body.
pub open spec fn spec_normalize(r: HttpRequestView) -> Seq<u8> {
    encode_utf8(r.method) + seq![32u8] + encode_utf8(r.url) + encode_utf8(" HTTP/1.1\r\n"@)
        + header_bytes(r.headers) + encode_utf8("\r\n"@) + match r.data {
        Some(d) => encode_utf8(d),
        None => Seq::empty(),
    }
}

/// How many requests of a batch of `n` are kept when `have` are kept already
/// and at most `limit` are wanted.
pub open spec fn kept_count(have: nat, n: nat, limit: nat) -> nat {
    if have >= limit {
        0
    } else if n <= limit - have {
        n
    } else {
        (limit - have) as nat
    }
}

pub open spec fn bytes_view(v: Seq<Vec<u8>>) -> Seq<Seq<u8>> {
    v.map_values(|r: Vec<u8>| r@)
}

pub open spec fn normalized(batch: Seq<HttpRequest>) -> Seq<Seq<u8>> {
    batch.map_values(|r: HttpRequest| spec_normalize(r@))
}

fn append_bytes(buf: &mut Vec<u8>, b: &[u8])
    ensures
        final(buf)@ == old(buf)@ + b@,
{
    buf.extend_from_slice(b);
    proof {
        assert(final(buf)@ =~= old(buf)@ + b@);
    }
}

impl HttpRequest {
    /// Whether the header names are strictly increasing (`well_formed`).
    pub fn has_ordered_headers(&self) -> (res: bool)
        ensures
            res == self@.well_formed(),
    {
        let ghost h = self@.headers;
        let mut k: usize = 1;
        while k < self.headers.len()
            invariant
                1 <= k,
                h == self@.headers,
                k <= self.headers@.len() || self.headers@.len() == 0,
                forall|i: int, j: int|
                    0 <= i && j == i + 1 && j < k && j < h.len() ==> chars_lt(
                        #[trigger] h[i].0,
                        #[trigger] h[j].0,
                    ),
            decreases self.headers@.len() - k,
        {
            let a = chars_of(self.headers[k - 1].0.as_str());
            let b = chars_of(self.headers[k].0.as_str());
            if !text_lt(a.as_slice(), b.as_slice()) {
                proof {
                    assert(h[k - 1].0 == a@);
                    assert(h[k as int].0 == b@);
                    assert(!chars_lt(h[k - 1].0, h[k as int].0));
                }
                return false;
            }
            k = k + 1;
        }
        proof {
            assert(adjacent_names_increase(h));
            assert forall|i: int, j: int| 0 <= i < j < h.len() implies chars_lt(
                #[trigger] h[i].0,
                #[trigger] h[j].0,
            ) by {
                lemma_adjacent_names_increase(h, i, j);
            }
        }
        true
    }

    /// The request as the bytes of an HTTP/1.1 message.
    pub fn normalize(&self) -> (buf: Vec<u8>)
        requires
            self@.well_formed(),
        ensures
            buf@ == spec_normalize(self@),
    {
        let mut buf: Vec<u8> = Vec::with_capacity(512);
        append_bytes(&mut buf, self.method.as_str().as_bytes());
        buf.push(32u8);
        append_bytes(&mut buf, self.url.as_str().as_bytes());
        append_bytes(&mut buf, " HTTP/1.1\r\n".as_bytes());
        let ghost hv = self@.headers;
        let ghost start = buf@;
        let mut i: usize = 0;
        proof {
            assert(hv.take(0) =~= Seq::<(Seq<char>, Seq<char>)>::empty());
            assert(start + Seq::<u8>::empty() =~= start);
        }
        while i < self.headers.len()
            invariant
                i <= self.headers@.len(),
                hv == self@.headers,
                buf@ == start + header_bytes(hv.take(i as int)),
            decreases self.headers@.len() - i,
        {
            let (k, v) = &self.headers[i];
            let ghost before = buf@;
            append_bytes(&mut buf, k.as_str().as_bytes());
            append_bytes(&mut buf, ": ".as_bytes());
            append_bytes(&mut buf, v.as_str().as_bytes());
            append_bytes(&mut buf, "\r\n".as_bytes());
            proof {
                assert(hv.take(i + 1).drop_last() =~= hv.take(i as int));
                assert(hv.take(i + 1).last() == (k@, v@));
                assert(buf@ =~= start + header_bytes(hv.take(i + 1)));
            }
            i = i + 1;
        }
        proof {
            assert(hv.take(self.headers@.len() as int) =~= hv);
        }
        append_bytes(&mut buf, "\r\n".as_bytes());
        if let Some(body) = &self.data {
            if !body.as_str().is_empty() {
                append_bytes(&mut buf, body.as_str().as_bytes());
            } else {
                proof {
                    assert(encode_utf8(body@) =~= Seq::<u8>::empty());
                    assert(buf@ + Seq::<u8>::empty() =~= buf@);
                }
            }
        } else {
            proof {
                assert(buf@ + Seq::<u8>::empty() =~= buf@);
            }
        }
        proof {
            assert(buf@ =~= spec_normalize(self@));
        }
        buf
    }
}

/// Whether `limit` requests are kept already.
pub fn corpus_is_full(requests: &Vec<Vec<u8>>, limit: usize) -> (res: bool)
    ensures
        res == (requests@.len() >= limit),
{
    requests.len() >= limit
}

/// Appends the normalized requests of `batch`, in order, while fewer than
/// `limit` requests are kept.
pub fn append_requests(requests: &mut Vec<Vec<u8>>, batch: &Vec<HttpRequest>, limit: usize)
    requires
        forall|k: int| 0 <= k < batch@.len() ==> (#[trigger] batch@[k])@.well_formed(),
    ensures
        bytes_view(final(requests)@) == bytes_view(old(requests)@) + normalized(batch@).take(
            kept_count(old(requests)@.len(), batch@.len(), limit as nat) as int,
        ),
        old(requests)@.len() <= limit ==> final(requests)@.len() <= limit,
{
    let ghost start = bytes_view(requests@);
    let ghost have = requests@.len();
    let ghost nb = normalized(batch@);
    let mut i: usize = 0;
    proof {
        assert(nb.take(0) =~= Seq::<Seq<u8>>::empty());
        assert(start + Seq::<Seq<u8>>::empty() =~= start);
    }
    while i < batch.len()
        invariant_except_break
            i <= batch@.len(),
            have < limit ==> i <= limit - have,
            requests@.len() == (if have >= limit { have as int } else { have + i }),
            have >= limit ==> i == 0,
            nb == normalized(batch@),
            bytes_view(requests@) == start + nb.take(i as int),
            forall|k: int| 0 <= k < batch@.len() ==> (#[trigger] batch@[k])@.well_formed(),
        ensures
            bytes_view(requests@) == start + nb.take(
                kept_count(have, batch@.len(), limit as nat) as int,
            ),
            requests@.len() == have + kept_count(have, batch@.len(), limit as nat),
        decreases batch@.len() - i,
    {
        if requests.len() >= limit {
            break ;
        }
        let r = batch[i].normalize();
        let ghost before = requests@;
        requests.push(r);
        proof {
            assert(nb.take(i + 1) =~= nb.take(i as int).push(spec_normalize(batch@[i as int]@)));
            assert(bytes_view(requests@) =~= bytes_view(before).push(r@));
        }
        i = i + 1;
    }
}

/// The length of the header line `name: value\r\n`.
pub open spec fn header_line_len(h: (Seq<char>, Seq<char>)) -> nat {
    encode_utf8(h.0).len() + encode_utf8(": "@).len() + encode_utf8(h.1).len() + encode_utf8(
        "\r\n"@,
    ).len()
}

/// The total length of the header lines of `h`.
pub open spec fn headers_len(h: Seq<(Seq<char>, Seq<char>)>) -> nat
    decreases h.len(),
{
    if h.len() == 0 {
        0
    } else {
        headers_len(h.drop_last()) + header_line_len(h.last())
    }
}

/// The request line: method, space, the whole URL, ` HTTP/1.1\r\n`.
pub open spec fn request_line(r: HttpRequestView) -> Seq<u8> {
    encode_utf8(r.method) + seq![32u8] + encode_utf8(r.url) + encode_utf8(" HTTP/1.1\r\n"@)
}

proof fn lemma_header_bytes_len(h: Seq<(Seq<char>, Seq<char>)>)
    ensures
        header_bytes(h).len() == headers_len(h),
    decreases h.len(),
{
    if h.len() > 0 {
        lemma_header_bytes_len(h.drop_last());
    }
}

/// Header `i` appears in the header block as `name: value\r\n`, right after
/// the lines of the headers before it.
pub proof fn lemma_header_line_at(h: Seq<(Seq<char>, Seq<char>)>, i: int)
    requires
        0 <= i < h.len(),
    ensures
        headers_len(h.take(i + 1)) == headers_len(h.take(i)) + header_line_len(h[i]),
        header_bytes(h).subrange(headers_len(h.take(i)) as int, headers_len(h.take(i + 1)) as int)
            == encode_utf8(h[i].0) + encode_utf8(": "@) + encode_utf8(h[i].1) + encode_utf8(
            "\r\n"@,
        ),
    decreases h.len(),
{
    let last = h.len() - 1;
    let a = header_bytes(h.drop_last());
    let line = encode_utf8(h.last().0) + encode_utf8(": "@) + encode_utf8(h.last().1) + encode_utf8(
        "\r\n"@,
    );
    assert(header_bytes(h) =~= a + line);
    assert(h.take(i + 1).drop_last() =~= h.take(i));
    assert(h.take(i + 1).last() == h[i]);
    lemma_header_bytes_len(h.drop_last());
    if i < last {
        lemma_header_line_at(h.drop_last(), i);
        assert(h.drop_last().take(i) =~= h.take(i));
        assert(h.drop_last().take(i + 1) =~= h.take(i + 1));
        lemma_header_bytes_len(h.drop_last().take(i + 1));
        lemma_headers_len_take(h.drop_last(), i + 1);
        assert(header_bytes(h).subrange(
            headers_len(h.take(i)) as int,
            headers_len(h.take(i + 1)) as int,
        ) =~= a.subrange(headers_len(h.take(i)) as int, headers_len(h.take(i + 1)) as int));
    } else {
        assert(h.take(i) =~= h.drop_last());
        assert(header_bytes(h).subrange(
            headers_len(h.take(i)) as int,
            headers_len(h.take(i + 1)) as int,
        ) =~= line);
    }
}

proof fn lemma_headers_len_take(h: Seq<(Seq<char>, Seq<char>)>, i: int)
    requires
        0 <= i <= h.len(),
    ensures
        headers_len(h.take(i)) <= headers_len(h),
    decreases h.len() - i,
{
    if i < h.len() {
        lemma_headers_len_take(h, i + 1);
        assert(h.take(i + 1).drop_last() =~= h.take(i));
    } else {
        assert(h.take(i) =~= h);
    }
}

/// The normalized request begins with the request line that holds the method
/// and the whole URL; the header lines follow, then `\r\n`, then the whole
/// body; nothing else is added or left out.
pub proof fn lemma_normalize_layout(r: HttpRequestView)
    ensures
        request_line(r).is_prefix_of(spec_normalize(r)),
        spec_normalize(r).subrange(
            request_line(r).len() as int,
            (request_line(r).len() + headers_len(r.headers)) as int,
        ) == header_bytes(r.headers),
        spec_normalize(r).subrange(
            (request_line(r).len() + headers_len(r.headers)) as int,
            (request_line(r).len() + headers_len(r.headers) + encode_utf8("\r\n"@).len()) as int,
        ) == encode_utf8("\r\n"@),
        spec_normalize(r).len() == request_line(r).len() + headers_len(r.headers) + encode_utf8(
            "\r\n"@,
        ).len() + match r.data {
            Some(d) => encode_utf8(d).len(),
            None => 0,
        },
        r.data matches Some(d) ==> spec_normalize(r).skip(
            spec_normalize(r).len() - encode_utf8(d).len(),
        ) == encode_utf8(d),
{
    lemma_header_bytes_len(r.headers);
    let rl = request_line(r);
    let hb = header_bytes(r.headers);
    let crlf = encode_utf8("\r\n"@);
    let body = match r.data {
        Some(d) => encode_utf8(d),
        None => Seq::<u8>::empty(),
    };
    let n = spec_normalize(r);
    assert(n =~= rl + hb + crlf + body);
    assert(n.take(rl.len() as int) =~= rl);
    assert(n.subrange(rl.len() as int, (rl.len() + hb.len()) as int) =~= hb);
    assert(n.subrange((rl.len() + hb.len()) as int, (rl.len() + hb.len() + crlf.len()) as int)
        =~= crlf);
    assert(n.skip(n.len() - body.len()) =~= body);
}

} // verus!
