//! The patterns that requests are matched against: one compiled meta regex per
//! service match rule, and the count of matches over a batch of requests.

use vstd::prelude::*;

use crate::probes::{ServiceMatch, ServiceMatchView, ServiceProbes, ServiceProbesView};
use crate::trusted::{
    compile_meta_regex, meta_regex_accepts, meta_regex_finds, new_meta_searcher, CompiledMetaRegex,
};

verus! {

/// A service match rule compiled for matching, with the index of its probe
/// (TCP probes first, then UDP probes).
pub struct Pattern {
    pub service: String,
    pub soft: bool,
    /// The meta regex, with the text it was compiled from.
    pub regex: CompiledMetaRegex,
    pub probe_index: usize,
}

pub struct PatternView {
    pub service: Seq<char>,
    pub soft: bool,
    pub source: Seq<char>,
    pub probe_index: usize,
}

impl View for Pattern {
    type V = PatternView;

    open spec fn view(&self) -> PatternView {
        PatternView {
            service: self.service@,
            soft: self.soft,
            source: self.regex@,
            probe_index: self.probe_index,
        }
    }
}

impl Pattern {
    /// The text the pattern's regex was compiled from.
    pub fn source(&self) -> (s: &str)
        ensures
            s@ == self@.source,
    {
        self.regex.as_str()
    }
}

/// The pattern for a match rule of the probe at `probe_index`.
pub open spec fn pattern_of(m: ServiceMatchView, probe_index: usize) -> PatternView {
    PatternView { service: m.service_name, soft: m.soft, source: m.pattern, probe_index }
}

/// The patterns of the rules `ms` of one probe, in order, leaving out those
/// whose text the meta regex engine refuses.
pub open spec fn match_patterns(ms: Seq<ServiceMatchView>, probe_index: usize) -> Seq<PatternView>
    decreases ms.len(),
{
    if ms.len() == 0 {
        Seq::empty()
    } else {
        match_patterns(ms.drop_last(), probe_index) + if meta_regex_accepts(ms.last().pattern) {
            seq![pattern_of(ms.last(), probe_index)]
        } else {
            Seq::empty()
        }
    }
}

/// The patterns of the probes whose rules are `groups`, numbered from `base`.
pub open spec fn probes_patterns(groups: Seq<Seq<ServiceMatchView>>, base: int) -> Seq<
    PatternView,
>
    decreases groups.len(),
{
    if groups.len() == 0 {
        Seq::empty()
    } else {
        probes_patterns(groups.drop_last(), base) + match_patterns(
            groups.last(),
            (base + groups.len() - 1) as usize,
        )
    }
}

pub open spec fn tcp_groups(p: ServiceProbesView) -> Seq<Seq<ServiceMatchView>> {
    p.tcp.map_values(|t: crate::probes::TcpProbeView| t.matches)
}

pub open spec fn udp_groups(p: ServiceProbesView) -> Seq<Seq<ServiceMatchView>> {
    p.udp.map_values(|u: crate::probes::UdpProbeView| u.matches)
}

/// All patterns of a probe file: those of the TCP probes, then those of the
/// UDP probes, whose indices follow the TCP ones.
pub open spec fn spec_collect_patterns(p: ServiceProbesView) -> Seq<PatternView> {
    probes_patterns(tcp_groups(p), 0) + probes_patterns(udp_groups(p), p.tcp.len() as int)
}

pub open spec fn patterns_view(ps: Seq<Pattern>) -> Seq<PatternView> {
    ps.map_values(|p: Pattern| p@)
}

/// Compiles the rule `m` of the probe at `probe_index`; `None` when the meta
/// regex engine refuses its pattern.
pub fn compile_pattern(m: &ServiceMatch, probe_index: usize) -> (res: Option<Pattern>)
    ensures
        match res {
            Some(p) => meta_regex_accepts(m@.pattern) && p@ == pattern_of(m@, probe_index),
            None => !meta_regex_accepts(m@.pattern),
        },
{
    match compile_meta_regex(m.regex.as_str()) {
        Ok(regex) => Some(
            Pattern { service: m.service_name.clone(), soft: m.soft, regex, probe_index },
        ),
        Err(_) => None,
    }
}

fn push_probe_patterns(out: &mut Vec<Pattern>, matches: &Vec<ServiceMatch>, probe_index: usize)
    ensures
        patterns_view(final(out)@) == patterns_view(old(out)@) + match_patterns(
            matches@.map_values(|m: ServiceMatch| m@),
            probe_index,
        ),
{
    let ghost ms = matches@.map_values(|m: ServiceMatch| m@);
    let ghost start = patterns_view(out@);
    let mut j: usize = 0;
    proof {
        assert(ms.take(0) =~= Seq::<ServiceMatchView>::empty());
        assert(start + Seq::<PatternView>::empty() =~= start);
    }
    while j < matches.len()
        invariant
            j <= matches@.len(),
            ms == matches@.map_values(|m: ServiceMatch| m@),
            patterns_view(out@) == start + match_patterns(ms.take(j as int), probe_index),
        decreases matches@.len() - j,
    {
        let ghost before = patterns_view(out@);
        proof {
            assert(ms.take(j + 1).drop_last() =~= ms.take(j as int));
            assert(ms.take(j + 1).last() == matches@[j as int]@);
        }
        match compile_pattern(&matches[j], probe_index) {
            Some(p) => {
                out.push(p);
                proof {
                    assert(patterns_view(out@) =~= before + seq![p@]);
                }
            },
            None => {},
        }
        proof {
            assert(patterns_view(out@) =~= start + match_patterns(ms.take(j + 1), probe_index));
        }
        j = j + 1;
    }
    proof {
        assert(ms.take(matches@.len() as int) =~= ms);
    }
}

/// The patterns of every match rule of `probes` that the meta regex engine
/// accepts: TCP probes first, then UDP probes, whose probe indices continue
/// after the TCP ones.
pub fn collect_patterns(probes: &ServiceProbes) -> (res: Vec<Pattern>)
    requires
        probes.tcp@.len() + probes.udp@.len() <= usize::MAX,
    ensures
        patterns_view(res@) == spec_collect_patterns(probes@),
{
    let mut out: Vec<Pattern> = Vec::new();
    let ghost tg = tcp_groups(probes@);
    let ghost ug = udp_groups(probes@);
    proof {
        assert(patterns_view(out@) =~= Seq::empty());
        assert(tg.take(0) =~= Seq::<Seq<ServiceMatchView>>::empty());
    }
    let mut k: usize = 0;
    while k < probes.tcp.len()
        invariant
            k <= probes.tcp@.len(),
            tg == tcp_groups(probes@),
            patterns_view(out@) == probes_patterns(tg.take(k as int), 0),
        decreases probes.tcp@.len() - k,
    {
        push_probe_patterns(&mut out, &probes.tcp[k].matches, k);
        proof {
            assert(tg.take(k + 1).drop_last() =~= tg.take(k as int));
            assert(tg[k as int] == probes.tcp@[k as int]@.matches);
            assert(probes.tcp@[k as int]@.matches == probes.tcp@[k as int].matches@.map_values(
                |m: ServiceMatch| m@,
            ));
        }
        k = k + 1;
    }
    let ghost tcp_part = patterns_view(out@);
    proof {
        assert(tg.take(probes.tcp@.len() as int) =~= tg);
        assert(ug.take(0) =~= Seq::<Seq<ServiceMatchView>>::empty());
        assert(tcp_part + Seq::<PatternView>::empty() =~= tcp_part);
    }
    let base = probes.tcp.len();
    let mut k: usize = 0;
    while k < probes.udp.len()
        invariant
            k <= probes.udp@.len(),
            base == probes.tcp@.len(),
            base + probes.udp@.len() <= usize::MAX,
            ug == udp_groups(probes@),
            patterns_view(out@) == tcp_part + probes_patterns(ug.take(k as int), base as int),
        decreases probes.udp@.len() - k,
    {
        let ghost before = patterns_view(out@);
        push_probe_patterns(&mut out, &probes.udp[k].matches, base + k);
        proof {
            assert(ug.take(k + 1).drop_last() =~= ug.take(k as int));
            assert(ug[k as int] == probes.udp@[k as int]@.matches);
            assert(probes.udp@[k as int]@.matches == probes.udp@[k as int].matches@.map_values(
                |m: ServiceMatch| m@,
            ));
            assert(patterns_view(out@) =~= tcp_part + probes_patterns(
                ug.take(k + 1),
                base as int,
            ));
        }
        k = k + 1;
    }
    proof {
        assert(ug.take(probes.udp@.len() as int) =~= ug);
    }
    out
}

/// How many of `requests` the regex compiled from `source` finds a match in.
pub open spec fn matching_requests(source: Seq<char>, requests: Seq<Seq<u8>>) -> nat
    decreases requests.len(),
{
    if requests.len() == 0 {
        0
    } else {
        matching_requests(source, requests.drop_last()) + if meta_regex_finds(
            source,
            requests.last(),
        ) {
            1nat
        } else {
            0nat
        }
    }
}

/// The number of (pattern, request) pairs in which the pattern finds a match.
pub open spec fn total_matches(patterns: Seq<PatternView>, requests: Seq<Seq<u8>>) -> nat
    decreases patterns.len(),
{
    if patterns.len() == 0 {
        0
    } else {
        total_matches(patterns.drop_last(), requests) + matching_requests(
            patterns.last().source,
            requests,
        )
    }
}

pub open spec fn requests_view(requests: Seq<Vec<u8>>) -> Seq<Seq<u8>> {
    requests.map_values(|r: Vec<u8>| r@)
}

pub proof fn lemma_matching_requests_bound(source: Seq<char>, requests: Seq<Seq<u8>>)
    ensures
        matching_requests(source, requests) <= requests.len(),
    decreases requests.len(),
{
    if requests.len() > 0 {
        lemma_matching_requests_bound(source, requests.drop_last());
    }
}

/// Matching a concatenation of two batches finds as many matches as the two
/// batches separately.
pub proof fn lemma_matching_requests_split(
    source: Seq<char>,
    a: Seq<Seq<u8>>,
    b: Seq<Seq<u8>>,
)
    ensures
        matching_requests(source, a + b) == matching_requests(source, a) + matching_requests(
            source,
            b,
        ),
    decreases b.len(),
{
    if b.len() == 0 {
        assert(a + b =~= a);
    } else {
        assert((a + b).drop_last() =~= a + b.drop_last());
        assert((a + b).last() == b.last());
        lemma_matching_requests_split(source, a, b.drop_last());
    }
}

/// Splitting the requests into consecutive chunks and adding up the matches of
/// each chunk gives the matches of the whole: the total over `a + b` is the
/// total over `a` plus the total over `b`.
pub proof fn lemma_total_matches_split(
    patterns: Seq<PatternView>,
    a: Seq<Seq<u8>>,
    b: Seq<Seq<u8>>,
)
    ensures
        total_matches(patterns, a + b) == total_matches(patterns, a) + total_matches(patterns, b),
    decreases patterns.len(),
{
    if patterns.len() > 0 {
        lemma_total_matches_split(patterns.drop_last(), a, b);
        lemma_matching_requests_split(patterns.last().source, a, b);
    }
}

/// The requests of consecutive chunks, put back together.
pub open spec fn concat_chunks(chunks: Seq<Seq<Seq<u8>>>) -> Seq<Seq<u8>>
    decreases chunks.len(),
{
    if chunks.len() == 0 {
        Seq::empty()
    } else {
        chunks[0] + concat_chunks(chunks.drop_first())
    }
}

/// The sum, over the chunks, of the matches in each chunk.
pub open spec fn chunk_totals(patterns: Seq<PatternView>, chunks: Seq<Seq<Seq<u8>>>) -> nat
    decreases chunks.len(),
{
    if chunks.len() == 0 {
        0
    } else {
        total_matches(patterns, chunks[0]) + chunk_totals(patterns, chunks.drop_first())
    }
}

/// `requests` split into consecutive chunks of `size` requests, the last one
/// possibly shorter (as `slice::chunks` and rayon's `par_chunks` split).
pub open spec fn chunks_of(requests: Seq<Seq<u8>>, size: nat) -> Seq<Seq<Seq<u8>>>
    decreases requests.len(),
{
    if requests.len() == 0 || size == 0 {
        Seq::empty()
    } else if requests.len() <= size {
        seq![requests]
    } else {
        seq![requests.take(size as int)] + chunks_of(requests.skip(size as int), size)
    }
}

proof fn lemma_total_matches_empty(patterns: Seq<PatternView>)
    ensures
        total_matches(patterns, Seq::empty()) == 0,
    decreases patterns.len(),
{
    if patterns.len() > 0 {
        lemma_total_matches_empty(patterns.drop_last());
    }
}

/// Adding up the matches of any sequence of chunks gives the matches of the
/// requests of all the chunks together.
pub proof fn lemma_chunk_totals(patterns: Seq<PatternView>, chunks: Seq<Seq<Seq<u8>>>)
    ensures
        chunk_totals(patterns, chunks) == total_matches(patterns, concat_chunks(chunks)),
    decreases chunks.len(),
{
    if chunks.len() == 0 {
        lemma_total_matches_empty(patterns);
    } else {
        lemma_chunk_totals(patterns, chunks.drop_first());
        lemma_total_matches_split(patterns, chunks[0], concat_chunks(chunks.drop_first()));
    }
}

proof fn lemma_concat_chunks_of(requests: Seq<Seq<u8>>, size: nat)
    requires
        size > 0,
    ensures
        concat_chunks(chunks_of(requests, size)) == requests,
    decreases requests.len(),
{
    if requests.len() == 0 {
        assert(requests =~= Seq::<Seq<u8>>::empty());
    } else if requests.len() <= size {
        let c = chunks_of(requests, size);
        assert(c.drop_first() =~= Seq::<Seq<Seq<u8>>>::empty());
        assert(concat_chunks(c.drop_first()) == Seq::<Seq<u8>>::empty());
        assert(c[0] == requests);
        assert(requests + Seq::<Seq<u8>>::empty() =~= requests);
    } else {
        let rest = chunks_of(requests.skip(size as int), size);
        let c = chunks_of(requests, size);
        lemma_concat_chunks_of(requests.skip(size as int), size);
        assert(c.drop_first() =~= rest);
        assert(c[0] == requests.take(size as int));
        assert(requests.take(size as int) + requests.skip(size as int) =~= requests);
    }
}

/// The match count does not depend on how the requests are split: for every
/// chunk size, adding up the matches of each chunk gives the matches of all
/// the requests.
pub proof fn lemma_count_independent_of_chunking(
    patterns: Seq<PatternView>,
    requests: Seq<Seq<u8>>,
    size: nat,
)
    requires
        size > 0,
    ensures
        chunk_totals(patterns, chunks_of(requests, size)) == total_matches(patterns, requests),
{
    lemma_chunk_totals(patterns, chunks_of(requests, size));
    lemma_concat_chunks_of(requests, size);
}

/// No more matches than (pattern, request) pairs.
pub proof fn lemma_total_matches_bound(patterns: Seq<PatternView>, requests: Seq<Seq<u8>>)
    ensures
        total_matches(patterns, requests) <= patterns.len() * requests.len(),
    decreases patterns.len(),
{
    if patterns.len() > 0 {
        lemma_total_matches_bound(patterns.drop_last(), requests);
        lemma_matching_requests_bound(patterns.last().source, requests);
        assert((patterns.len() - 1) * requests.len() + requests.len() == patterns.len()
            * requests.len()) by (nonlinear_arith);
    }
}

/// Counts the (pattern, request) pairs in which the pattern's regex finds a
/// match in the request.
pub fn count_matches(patterns: &Vec<Pattern>, requests: &[Vec<u8>]) -> (count: u64)
    requires
        patterns@.len() * requests@.len() <= u64::MAX,
    ensures
        count == total_matches(patterns_view(patterns@), requests_view(requests@)),
{
    let ghost pv = patterns_view(patterns@);
    let ghost rv = requests_view(requests@);
    let mut count: u64 = 0;
    let mut j: usize = 0;
    proof {
        assert(pv.take(0) =~= Seq::<PatternView>::empty());
    }
    while j < patterns.len()
        invariant
            j <= patterns@.len(),
            pv == patterns_view(patterns@),
            rv == requests_view(requests@),
            patterns@.len() * requests@.len() <= u64::MAX,
            count == total_matches(pv.take(j as int), rv),
        decreases patterns@.len() - j,
    {
        let mut searcher = new_meta_searcher(&patterns[j].regex);
        let ghost source = pv[j as int].source;
        let ghost before = count as nat;
        proof {
            lemma_total_matches_bound(pv.take(j as int), rv);
            assert(rv.take(0) =~= Seq::<Seq<u8>>::empty());
            assert(j * requests@.len() + requests@.len() <= patterns@.len() * requests@.len())
                by (nonlinear_arith)
                requires
                    j < patterns@.len(),
            ;
        }
        let mut i: usize = 0;
        while i < requests.len()
            invariant
                i <= requests@.len(),
                rv == requests_view(requests@),
                searcher@ == source,
                count == before + matching_requests(source, rv.take(i as int)),
                before + requests@.len() <= u64::MAX,
            decreases requests@.len() - i,
        {
            proof {
                lemma_matching_requests_bound(source, rv.take(i as int));
                assert(rv.take(i + 1).drop_last() =~= rv.take(i as int));
                assert(rv.take(i + 1).last() == requests@[i as int]@);
            }
            if searcher.is_match(requests[i].as_slice()) {
                count = count + 1;
            }
            i = i + 1;
        }
        proof {
            assert(rv.take(requests@.len() as int) =~= rv);
            assert(pv.take(j + 1).drop_last() =~= pv.take(j as int));
        }
        j = j + 1;
    }
    proof {
        assert(pv.take(patterns@.len() as int) =~= pv);
    }
    count
}

/// The number of worker threads: the one requested, or else all the available
/// ones.
pub fn worker_count(requested: Option<usize>, available: usize) -> (n: usize)
    ensures
        n == match requested {
            Some(r) => r,
            None => available,
        },
{
    match requested {
        Some(r) => r,
        None => available,
    }
}

/// `total` divided by `workers`, rounded up, and 1 when `total` is 0.
pub open spec fn spec_chunk_len(total: nat, workers: nat) -> nat {
    if total == 0 {
        1
    } else if total % workers == 0 {
        total / workers
    } else {
        total / workers + 1
    }
}

/// Whatever the number of worker threads, splitting the requests into the
/// chunks that `chunk_len` sizes and adding up the matches of each chunk gives
/// the matches of all the requests: the count does not depend on the threads.
pub proof fn lemma_count_independent_of_workers(
    patterns: Seq<PatternView>,
    requests: Seq<Seq<u8>>,
    workers: nat,
)
    requires
        workers > 0,
    ensures
        chunk_totals(patterns, chunks_of(requests, spec_chunk_len(requests.len(), workers)))
            == total_matches(patterns, requests),
{
    let size = spec_chunk_len(requests.len(), workers);
    if requests.len() > 0 {
        assert(size >= 1) by (nonlinear_arith)
            requires
                size == (if requests.len() % workers == 0 {
                    requests.len() / workers
                } else {
                    requests.len() / workers + 1
                }),
                requests.len() > 0,
                workers > 0,
        ;
    }
    lemma_count_independent_of_chunking(patterns, requests, size);
}

/// The size of the chunks that `total` requests are split into for `workers`
/// threads: `total` divided by `workers`, rounded up, and at least 1 so that
/// an empty batch of requests is still a valid split (into no chunk).
pub fn chunk_len(total: usize, workers: usize) -> (n: usize)
    requires
        workers > 0,
    ensures
        n == spec_chunk_len(total as nat, workers as nat),
        n >= 1,
        n * workers >= total,
{
    if total == 0 {
        return 1;
    }
    let q = total / workers;
    proof {
        assert(q * workers + total % workers == total) by (nonlinear_arith)
            requires
                q == total / workers,
                workers > 0,
        ;
        assert(total % workers < workers) by (nonlinear_arith)
            requires
                workers > 0,
        ;
        assert(q <= q * workers) by (nonlinear_arith)
            requires
                workers > 0,
        ;
        assert((q + 1) * workers == q * workers + workers) by (nonlinear_arith);
        assert(total % workers == 0 ==> q >= 1) by (nonlinear_arith)
            requires
                q * workers + total % workers == total,
                total > 0,
        ;
    }
    let n = if total % workers == 0 {
        q
    } else {
        q + 1
    };
    n
}

proof fn lemma_match_patterns_props(ms: Seq<ServiceMatchView>, probe_index: usize)
    ensures
        forall|k: int|
            0 <= k < match_patterns(ms, probe_index).len() ==> {
                &&& (#[trigger] match_patterns(ms, probe_index)[k]).probe_index == probe_index
                &&& meta_regex_accepts(match_patterns(ms, probe_index)[k].source)
            },
    decreases ms.len(),
{
    if ms.len() > 0 {
        lemma_match_patterns_props(ms.drop_last(), probe_index);
        let a = match_patterns(ms.drop_last(), probe_index);
        let r = match_patterns(ms, probe_index);
        assert forall|k: int| 0 <= k < r.len() implies {
            &&& (#[trigger] r[k]).probe_index == probe_index
            &&& meta_regex_accepts(r[k].source)
        } by {
            if k < a.len() {
                assert(r[k] == a[k]);
            }
        }
    }
}

proof fn lemma_probes_patterns_props(groups: Seq<Seq<ServiceMatchView>>, base: int)
    requires
        0 <= base,
        base + groups.len() <= usize::MAX,
    ensures
        forall|k: int|
            0 <= k < probes_patterns(groups, base).len() ==> {
                &&& base <= (#[trigger] probes_patterns(groups, base)[k]).probe_index < base
                    + groups.len()
                &&& meta_regex_accepts(probes_patterns(groups, base)[k].source)
            },
        forall|k: int, l: int|
            0 <= k <= l < probes_patterns(groups, base).len() ==> (
            #[trigger] probes_patterns(groups, base)[k]).probe_index <= (
            #[trigger] probes_patterns(groups, base)[l]).probe_index,
    decreases groups.len(),
{
    if groups.len() > 0 {
        let idx = (base + groups.len() - 1) as usize;
        lemma_probes_patterns_props(groups.drop_last(), base);
        lemma_match_patterns_props(groups.last(), idx);
        let a = probes_patterns(groups.drop_last(), base);
        let m = match_patterns(groups.last(), idx);
        let r = probes_patterns(groups, base);
        assert(r == a + m);
        assert forall|k: int| 0 <= k < r.len() implies {
            &&& base <= (#[trigger] r[k]).probe_index < base + groups.len()
            &&& meta_regex_accepts(r[k].source)
        } by {
            if k < a.len() {
                assert(r[k] == a[k]);
            } else {
                assert(r[k] == m[k - a.len()]);
            }
        }
        assert forall|k: int, l: int| 0 <= k <= l < r.len() implies (
        #[trigger] r[k]).probe_index <= (#[trigger] r[l]).probe_index by {
            if l < a.len() {
                assert(r[k] == a[k] && r[l] == a[l]);
            } else if k >= a.len() {
                assert(r[k] == m[k - a.len()] && r[l] == m[l - a.len()]);
            } else {
                assert(r[k] == a[k] && r[l] == m[l - a.len()]);
            }
        }
    }
}

/// Every collected pattern compiles with the meta regex engine and points to
/// one of the file's probes; the probe indices never decrease along the list,
/// and the TCP probes' indices come before the UDP probes'.
pub proof fn lemma_collect_patterns_indices(p: ServiceProbesView)
    requires
        p.tcp.len() + p.udp.len() <= usize::MAX,
    ensures
        forall|k: int|
            0 <= k < spec_collect_patterns(p).len() ==> {
                &&& (#[trigger] spec_collect_patterns(p)[k]).probe_index < p.tcp.len()
                    + p.udp.len()
                &&& meta_regex_accepts(spec_collect_patterns(p)[k].source)
            },
        forall|k: int, l: int|
            0 <= k <= l < spec_collect_patterns(p).len() ==> (
            #[trigger] spec_collect_patterns(p)[k]).probe_index <= (
            #[trigger] spec_collect_patterns(p)[l]).probe_index,
{
    let tg = tcp_groups(p);
    let ug = udp_groups(p);
    lemma_probes_patterns_props(tg, 0);
    lemma_probes_patterns_props(ug, p.tcp.len() as int);
    let a = probes_patterns(tg, 0);
    let b = probes_patterns(ug, p.tcp.len() as int);
    let r = spec_collect_patterns(p);
    assert(r == a + b);
    assert forall|k: int| 0 <= k < r.len() implies {
        &&& (#[trigger] r[k]).probe_index < p.tcp.len() + p.udp.len()
        &&& meta_regex_accepts(r[k].source)
    } by {
        if k < a.len() {
            assert(r[k] == a[k]);
        } else {
            assert(r[k] == b[k - a.len()]);
        }
    }
    assert forall|k: int, l: int| 0 <= k <= l < r.len() implies (#[trigger] r[k]).probe_index <= (
    #[trigger] r[l]).probe_index by {
        if l < a.len() {
            assert(r[k] == a[k] && r[l] == a[l]);
        } else if k >= a.len() {
            assert(r[k] == b[k - a.len()] && r[l] == b[l - a.len()]);
        } else {
            assert(r[k] == a[k] && r[l] == b[l - a.len()]);
        }
    }
}

/// A request counts for a pattern exactly when the pattern's regex finds a
/// match in the whole of the request: over a batch, the count is the number of
/// requests (taken whole) in which it finds one.
pub proof fn lemma_matching_requests_counts_whole_requests(
    source: Seq<char>,
    requests: Seq<Seq<u8>>,
)
    ensures
        matching_requests(source, requests) == requests.filter(
            |h: Seq<u8>| meta_regex_finds(source, h),
        ).len(),
    decreases requests.len(),
{
    reveal_with_fuel(Seq::filter, 1);
    if requests.len() > 0 {
        lemma_matching_requests_counts_whole_requests(source, requests.drop_last());
    }
}

/// One request counts once for a pattern when the pattern's regex finds a match
/// anywhere in it, and not at all otherwise.
pub proof fn lemma_single_request_count(source: Seq<char>, haystack: Seq<u8>)
    ensures
        matching_requests(source, seq![haystack]) == if meta_regex_finds(source, haystack) {
            1nat
        } else {
            0nat
        },
{
    assert(seq![haystack].drop_last() =~= Seq::<Seq<u8>>::empty());
    assert(seq![haystack].last() == haystack);
    assert(matching_requests(source, Seq::<Seq<u8>>::empty()) == 0);
}

/// Against one request, the total is the number of patterns whose regex finds
/// a match in the whole request.
pub proof fn lemma_total_matches_one_request(patterns: Seq<PatternView>, haystack: Seq<u8>)
    ensures
        total_matches(patterns, seq![haystack]) == patterns.filter(
            |p: PatternView| meta_regex_finds(p.source, haystack),
        ).len(),
    decreases patterns.len(),
{
    reveal_with_fuel(Seq::filter, 1);
    if patterns.len() > 0 {
        lemma_total_matches_one_request(patterns.drop_last(), haystack);
        lemma_single_request_count(patterns.last().source, haystack);
    }
}

/// The patterns of one probe are its rules that the meta regex engine accepts,
/// every one of them, in order, each with the probe's index.
pub proof fn lemma_match_patterns_are_accepted_rules(ms: Seq<ServiceMatchView>, probe_index: usize)
    ensures
        match_patterns(ms, probe_index) == ms.filter(
            |m: ServiceMatchView| meta_regex_accepts(m.pattern),
        ).map_values(|m: ServiceMatchView| pattern_of(m, probe_index)),
    decreases ms.len(),
{
    reveal_with_fuel(Seq::filter, 1);
    let pred = |m: ServiceMatchView| meta_regex_accepts(m.pattern);
    let f = |m: ServiceMatchView| pattern_of(m, probe_index);
    if ms.len() == 0 {
        assert(match_patterns(ms, probe_index) =~= ms.filter(pred).map_values(f));
    } else {
        lemma_match_patterns_are_accepted_rules(ms.drop_last(), probe_index);
        let sub = ms.drop_last().filter(pred);
        if pred(ms.last()) {
            assert(sub.push(ms.last()).map_values(f) =~= sub.map_values(f) + seq![f(ms.last())]);
        } else {
            assert(sub.map_values(f) + Seq::<PatternView>::empty() =~= sub.map_values(f));
        }
    }
}

proof fn lemma_filter_all(s: Seq<PatternView>, pred: spec_fn(PatternView) -> bool)
    requires
        forall|k: int| 0 <= k < s.len() ==> pred(#[trigger] s[k]),
    ensures
        s.filter(pred) == s,
    decreases s.len(),
{
    reveal_with_fuel(Seq::filter, 1);
    if s.len() > 0 {
        lemma_filter_all(s.drop_last(), pred);
        assert(s.drop_last().push(s.last()) =~= s);
    }
}

proof fn lemma_filter_none(s: Seq<PatternView>, pred: spec_fn(PatternView) -> bool)
    requires
        forall|k: int| 0 <= k < s.len() ==> !pred(#[trigger] s[k]),
    ensures
        s.filter(pred) == Seq::<PatternView>::empty(),
    decreases s.len(),
{
    reveal_with_fuel(Seq::filter, 1);
    if s.len() > 0 {
        lemma_filter_none(s.drop_last(), pred);
    }
}

/// Within the patterns of several probes, those that carry a given probe's
/// index are exactly that probe's patterns, in order.
pub proof fn lemma_probes_patterns_per_probe(
    groups: Seq<Seq<ServiceMatchView>>,
    base: int,
    k: int,
)
    requires
        0 <= base,
        base + groups.len() <= usize::MAX,
        0 <= k < groups.len(),
    ensures
        probes_patterns(groups, base).filter(|p: PatternView| p.probe_index == base + k)
            == match_patterns(groups[k], (base + k) as usize),
    decreases groups.len(),
{
    let pred = |p: PatternView| p.probe_index == base + k;
    let last = groups.len() - 1;
    let a = probes_patterns(groups.drop_last(), base);
    let m = match_patterns(groups.last(), (base + last) as usize);
    assert(probes_patterns(groups, base) == a + m);
    Seq::filter_distributes_over_add(a, m, pred);
    lemma_match_patterns_props(groups.last(), (base + last) as usize);
    if k < last {
        lemma_probes_patterns_per_probe(groups.drop_last(), base, k);
        assert(groups.drop_last()[k] == groups[k]);
        lemma_filter_none(m, pred);
        assert(a.filter(pred) + Seq::<PatternView>::empty() =~= a.filter(pred));
    } else {
        if groups.len() > 1 {
            lemma_probes_patterns_props(groups.drop_last(), base);
        }
        assert forall|j: int| 0 <= j < a.len() implies !pred(#[trigger] a[j]) by {
            if groups.len() > 1 {
                assert(a[j].probe_index < base + last);
            } else {
                assert(a.len() == 0);
            }
        }
        lemma_filter_none(a, pred);
        lemma_filter_all(m, pred);
        assert(Seq::<PatternView>::empty() + m =~= m);
    }
}

/// Every rule of every probe whose pattern the meta regex engine accepts gives
/// one pattern: among all collected patterns, those of TCP probe `k` are its
/// accepted rules, and those of UDP probe `k` (index `tcp.len() + k`) are its
/// accepted rules, in order.
pub proof fn lemma_collect_patterns_per_probe(p: ServiceProbesView, k: int)
    requires
        p.tcp.len() + p.udp.len() <= usize::MAX,
    ensures
        0 <= k < p.tcp.len() ==> spec_collect_patterns(p).filter(
            |x: PatternView| x.probe_index == k,
        ) == p.tcp[k].matches.filter(|m: ServiceMatchView| meta_regex_accepts(m.pattern)).map_values(
            |m: ServiceMatchView| pattern_of(m, k as usize),
        ),
        0 <= k < p.udp.len() ==> spec_collect_patterns(p).filter(
            |x: PatternView| x.probe_index == p.tcp.len() + k,
        ) == p.udp[k].matches.filter(|m: ServiceMatchView| meta_regex_accepts(m.pattern)).map_values(
            |m: ServiceMatchView| pattern_of(m, (p.tcp.len() + k) as usize),
        ),
{
    let tg = tcp_groups(p);
    let ug = udp_groups(p);
    let a = probes_patterns(tg, 0);
    let b = probes_patterns(ug, p.tcp.len() as int);
    lemma_probes_patterns_props(tg, 0);
    lemma_probes_patterns_props(ug, p.tcp.len() as int);
    if 0 <= k < p.tcp.len() {
        let pred = |x: PatternView| x.probe_index == k;
        lemma_probes_patterns_per_probe(tg, 0, k);
        assert(a.filter(|x: PatternView| x.probe_index == 0 + k) == a.filter(pred)) by {
            assert(pred =~= |x: PatternView| x.probe_index == 0 + k);
        }
        Seq::filter_distributes_over_add(a, b, pred);
        assert forall|j: int| 0 <= j < b.len() implies !pred(#[trigger] b[j]) by {}
        lemma_filter_none(b, pred);
        assert(a.filter(pred) + Seq::<PatternView>::empty() =~= a.filter(pred));
        lemma_match_patterns_are_accepted_rules(tg[k], k as usize);
    }
    if 0 <= k < p.udp.len() {
        let pred = |x: PatternView| x.probe_index == p.tcp.len() + k;
        lemma_probes_patterns_per_probe(ug, p.tcp.len() as int, k);
        Seq::filter_distributes_over_add(a, b, pred);
        assert forall|j: int| 0 <= j < a.len() implies !pred(#[trigger] a[j]) by {}
        lemma_filter_none(a, pred);
        assert(Seq::<PatternView>::empty() + b.filter(pred) =~= b.filter(pred));
        lemma_match_patterns_are_accepted_rules(ug[k], (p.tcp.len() + k) as usize);
    }
}

} // verus!
