//! The processing entry points: sequential and parallel scans over a line
//! collection and over a raw byte buffer, with the parallel results merged
//! in partition order.
use vstd::prelude::*;
use rayon::iter::IntoParallelRefIterator;
use rayon::iter::ParallelIterator;
use crate::analyzer::AnalysisResult;
use crate::analyzer::LogAnalyzer;
use crate::analyzer::CompiledPattern;
use crate::analyzer::ResultModel;
use crate::analyzer::empty_model;
use crate::analyzer::merge_model;
use crate::analyzer::RegexMatcher;
use crate::analyzer::regex_clone;
use crate::laws;

verus! {

/// Lines per worker chunk when a line collection is scanned in parallel.
pub const LINE_CHUNK: usize = 20000;

/// The configuration left behind by an entry point: untouched when neither
/// a pattern nor a level filter was supplied, else holding the given level
/// filter and — when a precompiled regex was supplied — exactly that value
/// as the matcher, installed directly past the factory.
pub open spec fn configured(
    pre: LogAnalyzer,
    post: LogAnalyzer,
    pattern: Option<regex::Regex>,
    lf: Option<Seq<char>>,
) -> bool {
    &&& post.field_filters == pre.field_filters
    &&& post.parser == pre.parser
    &&& if pattern is None && lf is None {
        post == pre
    } else {
        &&& post.stored_lf() == lf
        &&& match pattern {
            None => post.pattern_matcher is None,
            Some(re) => (post.pattern_matcher matches Some(CompiledPattern::Re(rm)) && rm.regex
                == re),
        }
    }
}

/// The concatenation of a list of line chunks.
pub open spec fn cat_chunks(cs: Seq<Seq<Seq<char>>>) -> Seq<Seq<char>>
    decreases cs.len(),
{
    if cs.len() == 0 {
        Seq::empty()
    } else {
        cs[0] + cat_chunks(cs.drop_first())
    }
}

proof fn lemma_cat_push(cs: Seq<Seq<Seq<char>>>, c: Seq<Seq<char>>)
    ensures
        cat_chunks(cs.push(c)) == cat_chunks(cs) + c,
    decreases cs.len(),
{
    if cs.len() == 0 {
        assert(cs.push(c)[0] == c);
        assert(cs.push(c).drop_first() =~= Seq::<Seq<Seq<char>>>::empty());
        assert(cat_chunks(Seq::<Seq<Seq<char>>>::empty()) == Seq::<Seq<char>>::empty());
        assert(cat_chunks(cs.push(c)) == c + Seq::<Seq<char>>::empty());
        assert(c + Seq::<Seq<char>>::empty() =~= Seq::<Seq<char>>::empty() + c);
        assert(cat_chunks(cs) + c == Seq::<Seq<char>>::empty() + c);
    } else {
        assert(cs.push(c).drop_first() =~= cs.drop_first().push(c));
        assert(cs.push(c)[0] == cs[0]);
        lemma_cat_push(cs.drop_first(), c);
        assert(cs[0] + (cat_chunks(cs.drop_first()) + c) =~= (cs[0] + cat_chunks(cs.drop_first()))
            + c);
    }
}

/// A scan admits at most one count per line.
pub proof fn lemma_scan_count(
    cfg: &LogAnalyzer,
    ls: Seq<Seq<char>>,
    m: ResultModel,
    trends: bool,
    stats: bool,
)
    ensures
        cfg.scan_strs(ls, m, trends, stats).count <= m.count + ls.len(),
    decreases ls.len(),
{
    if ls.len() > 0 {
        lemma_scan_count(cfg, ls.drop_first(), cfg.step_line(m, ls[0], trends, stats), trends, stats);
    }
}

/// A byte scan admits at most one count per line.
pub proof fn lemma_scan_count_bytes(
    cfg: &LogAnalyzer,
    ls: Seq<Seq<u8>>,
    m: ResultModel,
    trends: bool,
    stats: bool,
)
    ensures
        cfg.scan_bytes(ls, m, trends, stats).count <= m.count + ls.len(),
    decreases ls.len(),
{
    if ls.len() > 0 {
        lemma_scan_count_bytes(
            cfg,
            ls.drop_first(),
            cfg.step_bytes(m, ls[0], trends, stats),
            trends,
            stats,
        );
    }
}

/// Scans a line collection sequentially into a fresh aggregate.
fn scan_lines_seq(cfg: &LogAnalyzer, lines: &Vec<String>, trends: bool, stats: bool) -> (r:
    AnalysisResult)
    requires
        cfg.wf(),
    ensures
        r.wf(),
        r@ == cfg.scan_strs(lines.deep_view(), empty_model(), trends, stats),
{
    let mut result = AnalysisResult::new();
    let n = lines.len();
    let mut i: usize = 0;
    while i < n
        invariant
            0 <= i <= n,
            n == lines@.len(),
            lines.deep_view().len() == n,
            cfg.wf(),
            result.wf(),
            result@.count <= i,
            result@ == cfg.scan_strs(
                lines.deep_view().take(i as int),
                empty_model(),
                trends,
                stats,
            ),
        decreases n - i,
    {
        proof {
            assert(lines.deep_view()[i as int] == lines@[i as int]@);
            let l = lines.deep_view()[i as int];
            laws::lemma_scan_append(
                cfg,
                lines.deep_view().take(i as int),
                seq![l],
                empty_model(),
                trends,
                stats,
            );
            assert(lines.deep_view().take(i as int) + seq![l] =~= lines.deep_view().take(i + 1));
            let m_prev = cfg.scan_strs(lines.deep_view().take(i as int), empty_model(), trends, stats);
            assert(cfg.scan_strs(seq![l], m_prev, trends, stats) == cfg.step_line(m_prev, l, trends, stats)) by {
                assert(seq![l].drop_first() =~= Seq::<Seq<char>>::empty());
                assert(seq![l][0] == l);
                assert(cfg.scan_strs(
                    Seq::<Seq<char>>::empty(),
                    cfg.step_line(m_prev, l, trends, stats),
                    trends,
                    stats,
                ) == cfg.step_line(m_prev, l, trends, stats));
            }
        }
        cfg.process_line(lines[i].as_str(), &mut result, trends, stats);
        i += 1;
    }
    proof {
        assert(lines.deep_view().take(n as int) =~= lines.deep_view());
    }
    result
}

/// Relies on rayon's parallel map over a slice with an order-preserving
/// collect: each chunk is scanned by the verified sequential scan on its own
/// worker, and the partial aggregates come back in chunk order.
#[verifier::external_body]
fn par_scan_line_chunks(cfg: &LogAnalyzer, chunks: &Vec<Vec<String>>, trends: bool, stats: bool) -> (r: Vec<AnalysisResult>)
    requires
        cfg.wf(),
    ensures
        r@.len() == chunks@.len(),
        forall|i: int|
            0 <= i < r@.len() ==> (#[trigger] r@[i]).wf() && r@[i]@ == cfg.scan_strs(
                chunks@[i].deep_view(),
                empty_model(),
                trends,
                stats,
            ),
{
    chunks.par_iter().map(|c| scan_lines_seq(cfg, c, trends, stats)).collect()
}

impl LogAnalyzer {
    /// Applies an entry point's pattern and level arguments when either is
    /// present: a supplied precompiled regex is installed as the matcher
    /// directly, bypassing the factory.
    fn apply_config(&mut self, pattern: Option<&regex::Regex>, level_filter: Option<&str>)
        requires
            old(self).wf(),
        ensures
            final(self).wf(),
            configured(
                *old(self),
                *final(self),
                match pattern {
                    Some(re) => Some(*re),
                    None => None,
                },
                match level_filter {
                    Some(l) => Some(l@),
                    None => None,
                },
            ),
    {
        if pattern.is_some() || level_filter.is_some() {
            self.pattern_matcher = match pattern {
                Some(re) => Some(CompiledPattern::Re(RegexMatcher { regex: regex_clone(re) })),
                None => None,
            };
            self.level_filter = match level_filter {
                Some(l) => Some(l.to_owned()),
                None => None,
            };
        }
    }

    /// Scans an in-memory line collection sequentially.
    pub fn analyze_lines(&mut self, lines: Vec<String>, pattern: Option<&regex::Regex>, level_filter: Option<&str>, collect_trends: bool, collect_stats: bool) -> (r: AnalysisResult)
        requires
            old(self).wf(),
        ensures
            final(self).wf(),
            r.wf(),
            r@ == final(self).scan_strs(
                lines.deep_view(),
                empty_model(),
                collect_trends,
                collect_stats,
            ),
            configured(
                *old(self),
                *final(self),
                match pattern {
                    Some(re) => Some(*re),
                    None => None,
                },
                match level_filter {
                    Some(l) => Some(l@),
                    None => None,
                },
            ),
    {
        self.apply_config(pattern, level_filter);
        scan_lines_seq(&*self, &lines, collect_trends, collect_stats)
    }

    /// Scans an in-memory line collection in parallel and merges the partial
    /// aggregates in chunk order; by the chunk-merge equivalence the result
    /// is the sequential scan's aggregate.
    pub fn analyze_lines_parallel(&mut self, lines: Vec<String>, pattern: Option<&regex::Regex>, level_filter: Option<&str>, collect_trends: bool, collect_stats: bool) -> (r: AnalysisResult)
        requires
            old(self).wf(),
        ensures
            final(self).wf(),
            r.wf(),
            r@ == final(self).scan_strs(
                lines.deep_view(),
                empty_model(),
                collect_trends,
                collect_stats,
            ),
            configured(
                *old(self),
                *final(self),
                match pattern {
                    Some(re) => Some(*re),
                    None => None,
                },
                match level_filter {
                    Some(l) => Some(l@),
                    None => None,
                },
            ),
    {
        self.apply_config(pattern, level_filter);
        let n = lines.len();
        // partition the collection into chunks of at most LINE_CHUNK lines
        let mut chunks: Vec<Vec<String>> = Vec::new();
        let mut cur: Vec<String> = Vec::new();
        let mut i: usize = 0;
        proof {
            assert(chunks.deep_view() =~= Seq::<Seq<Seq<char>>>::empty());
            assert(cat_chunks(chunks.deep_view()) + cur.deep_view() =~= lines.deep_view().take(0));
        }
        while i < n
            invariant
                0 <= i <= n,
                n == lines@.len(),
                lines.deep_view().len() == n,
                cur.deep_view().len() < LINE_CHUNK,
                cat_chunks(chunks.deep_view()) + cur.deep_view() == lines.deep_view().take(
                    i as int,
                ),
            decreases n - i,
        {
            proof {
                assert(lines.deep_view()[i as int] == lines@[i as int]@);
            }
            let ghost cur0 = cur.deep_view();
            cur.push(lines[i].clone());
            proof {
                assert(cur.deep_view() =~= cur0.push(lines.deep_view()[i as int]));
                assert(cat_chunks(chunks.deep_view()) + cur.deep_view() =~= (cat_chunks(
                    chunks.deep_view(),
                ) + cur0).push(lines.deep_view()[i as int]));
                assert(lines.deep_view().take(i as int).push(lines.deep_view()[i as int])
                    =~= lines.deep_view().take(i + 1));
                assert(cat_chunks(chunks.deep_view()) + cur.deep_view() =~= lines.deep_view().take(
                    i + 1,
                ));
            }
            if cur.len() == LINE_CHUNK {
                let ghost cs0 = chunks.deep_view();
                let ghost c0 = cur.deep_view();
                let full = cur;
                cur = Vec::new();
                chunks.push(full);
                proof {
                    lemma_cat_push(cs0, c0);
                    assert(chunks.deep_view() =~= cs0.push(c0));
                    assert(cur.deep_view() =~= Seq::<Seq<char>>::empty());
                    assert(cat_chunks(chunks.deep_view()) + cur.deep_view()
                        =~= lines.deep_view().take(i + 1));
                }
            }
            i += 1;
        }
        proof {
            assert(lines.deep_view().take(n as int) =~= lines.deep_view());
        }
        if cur.len() > 0 {
            let ghost cs0 = chunks.deep_view();
            let ghost c0 = cur.deep_view();
            chunks.push(cur);
            proof {
                lemma_cat_push(cs0, c0);
                assert(chunks.deep_view() =~= cs0.push(c0));
                assert(cat_chunks(chunks.deep_view()) =~= lines.deep_view());
            }
        } else {
            proof {
                assert(cat_chunks(chunks.deep_view()) =~= lines.deep_view());
            }
        }
        let ghost all = lines.deep_view();
        let ghost cs = chunks.deep_view();
        proof {
            assert(cat_chunks(cs) == all);
        }
        // map phase: each chunk scanned on its own worker
        let results = par_scan_line_chunks(&*self, &chunks, collect_trends, collect_stats);
        // merge phase: fold the partial aggregates in chunk order
        let mut acc = AnalysisResult::new();
        let m = results.len();
        let mut j: usize = 0;
        proof {
            assert(cat_chunks(cs.take(0)) =~= Seq::<Seq<char>>::empty());
            lemma_cat_rest_skip(cs, 0);
            assert(cs.subrange(0, cs.len() as int) =~= cs);
            assert(Seq::<Seq<char>>::empty() + cat_chunks_rest(cs, 0) =~= cat_chunks_rest(cs, 0));
        }
        while j < m
            invariant
                0 <= j <= m,
                m == results@.len(),
                m == cs.len(),
                all.len() == n,
                self.wf(),
                acc.wf(),
                cat_chunks(cs) == all,
                forall|x: int|
                    0 <= x < m ==> (#[trigger] results@[x]).wf() && results@[x]@ == self.scan_strs(
                        cs[x],
                        empty_model(),
                        collect_trends,
                        collect_stats,
                    ),
                acc@ == self.scan_strs(
                    cat_chunks(cs.take(j as int)),
                    empty_model(),
                    collect_trends,
                    collect_stats,
                ),
                acc@.count <= cat_chunks(cs.take(j as int)).len(),
                cat_chunks(cs.take(j as int)) + cat_chunks_rest(cs, j as int) == all,
            decreases m - j,
        {
            proof {
                assert(cs.take(j + 1) =~= cs.take(j as int).push(cs[j as int]));
                lemma_cat_push(cs.take(j as int), cs[j as int]);
                laws::lemma_chunk_merge_equivalence(
                    &*self,
                    cat_chunks(cs.take(j as int)),
                    cs[j as int],
                    collect_trends,
                    collect_stats,
                );
                lemma_scan_count(&*self, cs[j as int], empty_model(), collect_trends, collect_stats);
                lemma_cat_rest_step(cs, j as int);
                lemma_cat_len_le(cs, j as int, all);
            }
            acc.merge(&results[j]);
            j += 1;
        }
        proof {
            assert(cs.take(m as int) =~= cs);
        }
        acc
    }
}

// ---------------------------------------------------------------------------
// Byte-buffer scanning
// ---------------------------------------------------------------------------
/// Target chunk size in bytes for buffer scans.
pub const CHUNK_SIZE: usize = 4 * 1024 * 1024;

/// How far past the target boundary a partition may look for a newline.
pub const LOOKAHEAD: usize = 2000;

/// Where the partition starting at `start` ends: at the first newline within
/// the lookahead window past the target boundary, inclusive; at the target
/// boundary when the window has no newline; at the end of the buffer for the
/// last partition.
pub open spec fn part_end(d: Seq<u8>, start: int) -> int {
    let approx = if start + CHUNK_SIZE <= d.len() {
        start + CHUNK_SIZE as int
    } else {
        d.len() as int
    };
    if approx < d.len() {
        let w = if approx + LOOKAHEAD <= d.len() {
            approx + LOOKAHEAD as int
        } else {
            d.len() as int
        };
        match crate::analyzer::first_nl(d.subrange(approx, w), 0) {
            Some(i) => approx + i + 1,
            None => approx,
        }
    } else {
        d.len() as int
    }
}

/// The list of partitions of the buffer from offset `start` on.
pub open spec fn partitions(d: Seq<u8>, start: int) -> Seq<(int, int)>
    decreases d.len() - start,
{
    if start < 0 || start >= d.len() {
        Seq::empty()
    } else {
        let e = part_end(d, start);
        if start < e <= d.len() {
            seq![(start, e)] + partitions(d, e)
        } else {
            Seq::empty()
        }
    }
}

/// A partition always makes progress and stays in the buffer.
pub proof fn lemma_part_end(d: Seq<u8>, start: int)
    requires
        0 <= start < d.len(),
    ensures
        start < part_end(d, start) <= d.len(),
{
    let approx = if start + CHUNK_SIZE <= d.len() {
        start + CHUNK_SIZE as int
    } else {
        d.len() as int
    };
    if approx < d.len() {
        let w = if approx + LOOKAHEAD <= d.len() {
            approx + LOOKAHEAD as int
        } else {
            d.len() as int
        };
        crate::analyzer::lemma_first_nl(d.subrange(approx, w), 0);
    }
}

/// The partitions chain: they start at `start`, are consecutive, stay in
/// bounds, and the last one ends at the end of the buffer.
pub proof fn lemma_partitions_chain(d: Seq<u8>, start: int)
    requires
        0 <= start,
    ensures
        partitions(d, start).len() == 0 <==> start >= d.len(),
        partitions(d, start).len() > 0 ==> partitions(d, start)[0].0 == start,
        partitions(d, start).len() > 0 ==> partitions(d, start).last().1 == d.len(),
        forall|j: int|
            0 <= j < partitions(d, start).len() ==> start <= (#[trigger] partitions(d, start)[j]).0
                < partitions(d, start)[j].1 <= d.len(),
        forall|j: int|
            0 <= j < partitions(d, start).len() - 1 ==> (#[trigger] partitions(d, start)[j]).1
                == partitions(d, start)[j + 1].0,
    decreases d.len() - start,
{
    if start < d.len() {
        lemma_part_end(d, start);
        let e = part_end(d, start);
        lemma_partitions_chain(d, e);
        let rest = partitions(d, e);
        let whole = partitions(d, start);
        assert(whole =~= seq![(start, e)] + rest);
        if rest.len() == 0 {
            assert(e >= d.len());
            assert(whole.last() == (start, e));
        }
        assert forall|j: int|
            0 <= j < whole.len() implies start <= (#[trigger] whole[j]).0 < whole[j].1
            <= d.len() by {
            if j > 0 {
                assert(whole[j] == rest[j - 1]);
            }
        }
        assert forall|j: int|
            0 <= j < whole.len() - 1 implies (#[trigger] whole[j]).1 == whole[j + 1].0 by {
            if j > 0 {
                assert(whole[j] == rest[j - 1]);
                assert(whole[j + 1] == rest[j]);
            } else {
                assert(whole[1] == rest[0]);
            }
        }
    }
}

/// The integer view of a vector of index pairs.
pub open spec fn pairs_view(s: Seq<(usize, usize)>) -> Seq<(int, int)> {
    s.map_values(|p: (usize, usize)| (p.0 as int, p.1 as int))
}

/// The scan of one byte chunk of the buffer.
pub open spec fn chunk_scan(
    cfg: &LogAnalyzer,
    d: Seq<u8>,
    s: int,
    e: int,
    trends: bool,
    stats: bool,
) -> ResultModel {
    cfg.scan_bytes(
        crate::analyzer::split_lines(d.subrange(s, e)),
        empty_model(),
        trends,
        stats,
    )
}

/// Merging the chunk scans of the partitions, in partition order.
pub open spec fn fold_chunks(
    cfg: &LogAnalyzer,
    d: Seq<u8>,
    ps: Seq<(int, int)>,
    i: int,
    acc: ResultModel,
    trends: bool,
    stats: bool,
) -> ResultModel
    decreases ps.len() - i,
{
    if i < 0 || i >= ps.len() {
        acc
    } else {
        fold_chunks(
            cfg,
            d,
            ps,
            i + 1,
            merge_model(acc, chunk_scan(cfg, d, ps[i].0, ps[i].1, trends, stats)),
            trends,
            stats,
        )
    }
}

/// When every internal partition boundary sits just after a newline, the
/// merged partition scans equal the one-pass scan of the whole buffer.
pub proof fn lemma_aligned_fold(
    cfg: &LogAnalyzer,
    d: Seq<u8>,
    ps: Seq<(int, int)>,
    i: int,
    acc: ResultModel,
    trends: bool,
    stats: bool,
)
    requires
        0 <= i < ps.len(),
        forall|j: int| i <= j < ps.len() ==> 0 <= (#[trigger] ps[j]).0 < ps[j].1 <= d.len(),
        forall|j: int| i <= j < ps.len() - 1 ==> (#[trigger] ps[j]).1 == ps[j + 1].0,
        forall|j: int| i <= j < ps.len() - 1 ==> d[(#[trigger] ps[j]).1 - 1] == 10,
        ps.last().1 == d.len(),
    ensures
        fold_chunks(cfg, d, ps, i, acc, trends, stats) == cfg.scan_bytes(
            crate::analyzer::split_lines(d.subrange(ps[i].0, d.len() as int)),
            acc,
            trends,
            stats,
        ),
    decreases ps.len() - i,
{
    let s = ps[i].0;
    let e = ps[i].1;
    let chunk = d.subrange(s, e);
    let ls = crate::analyzer::split_lines(chunk);
    // merging a fresh chunk scan into the accumulator is scanning on top
    laws::lemma_merge_empty(acc);
    laws::lemma_scan_merge_bytes(cfg, ls, acc, empty_model(), trends, stats);
    assert(merge_model(acc, chunk_scan(cfg, d, s, e, trends, stats)) == cfg.scan_bytes(
        ls,
        acc,
        trends,
        stats,
    ));
    if i == ps.len() - 1 {
        assert(e == d.len());
        assert(fold_chunks(cfg, d, ps, i + 1, merge_model(acc, chunk_scan(cfg, d, s, e, trends, stats)), trends, stats) == merge_model(acc, chunk_scan(cfg, d, s, e, trends, stats)));
    } else {
        lemma_aligned_fold(cfg, d, ps, i + 1, cfg.scan_bytes(ls, acc, trends, stats), trends, stats);
        let tail = d.subrange(e, d.len() as int);
        assert(chunk.last() == d[e - 1]);
        crate::analyzer::lemma_split_concat(chunk, tail);
        assert(chunk + tail =~= d.subrange(s, d.len() as int));
        laws::lemma_scan_append_bytes(
            cfg,
            ls,
            crate::analyzer::split_lines(tail),
            acc,
            trends,
            stats,
        );
        assert(ps[i + 1].0 == e);
    }
}

/// When every internal partition boundary of the computed partitioning sits
/// just after a newline, the parallel result is the one-pass scan.
pub proof fn lemma_partition_scan_equivalence(
    cfg: &LogAnalyzer,
    d: Seq<u8>,
    trends: bool,
    stats: bool,
)
    requires
        forall|j: int|
            0 <= j < partitions(d, 0).len() - 1 ==> d[(#[trigger] partitions(d, 0)[j]).1 - 1]
                == 10,
    ensures
        fold_chunks(cfg, d, partitions(d, 0), 0, empty_model(), trends, stats) == cfg.scan_bytes(
            crate::analyzer::split_lines(d),
            empty_model(),
            trends,
            stats,
        ),
{
    lemma_partitions_chain(d, 0);
    let ps = partitions(d, 0);
    if ps.len() == 0 {
        assert(d.len() == 0);
        assert(crate::analyzer::split_lines(d) =~= Seq::<Seq<u8>>::empty());
    } else {
        lemma_aligned_fold(cfg, d, ps, 0, empty_model(), trends, stats);
        assert(d.subrange(0, d.len() as int) =~= d);
    }
}

/// Builds the partition list of a buffer.
fn build_partitions(data: &[u8]) -> (r: Vec<(usize, usize)>)
    ensures
        pairs_view(r@) == partitions(data@, 0),
        forall|i: int| 0 <= i < r@.len() ==> (#[trigger] r@[i]).0 < r@[i].1 <= data@.len(),
{
    let n = data.len();
    let mut r: Vec<(usize, usize)> = Vec::new();
    let mut start: usize = 0;
    proof {
        assert(pairs_view(r@) =~= Seq::<(int, int)>::empty());
        assert(Seq::<(int, int)>::empty() + partitions(data@, 0) =~= partitions(data@, 0));
    }
    while start < n
        invariant
            0 <= start <= n,
            n == data@.len(),
            partitions(data@, 0) == pairs_view(r@) + partitions(data@, start as int),
            forall|i: int| 0 <= i < r@.len() ==> (#[trigger] r@[i]).0 < r@[i].1 <= data@.len(),
        decreases n - start,
    {
        proof {
            lemma_part_end(data@, start as int);
        }
        let approx = if n - start > CHUNK_SIZE {
            start + CHUNK_SIZE
        } else {
            n
        };
        let end: usize = if approx < n {
            let w = if n - approx > LOOKAHEAD {
                approx + LOOKAHEAD
            } else {
                n
            };
            let window = vstd::slice::slice_subrange(data, approx, w);
            proof {
                crate::analyzer::lemma_first_nl(window@, 0);
            }
            match crate::text::find_byte(window, 10) {
                Some(i) => {
                    proof {
                        let fo = crate::analyzer::first_nl(window@, 0);
                        if fo is None {
                            assert(window@[i as int] != 10);
                        }
                        let j = fo->Some_0;
                        if j < i {
                            assert(window@[j] == 10);
                        }
                        if j > i as int {
                            assert(window@[i as int] != 10);
                        }
                        assert(j == i as int);
                    }
                    approx + i + 1
                },
                None => {
                    proof {
                        assert(crate::analyzer::first_nl(window@, 0) is None);
                    }
                    approx
                },
            }
        } else {
            n
        };
        assert(end as int == part_end(data@, start as int));
        let ghost r0 = pairs_view(r@);
        r.push((start, end));
        proof {
            assert(pairs_view(r@) =~= r0.push((start as int, end as int)));
            assert(partitions(data@, start as int) =~= seq![(start as int, end as int)]
                + partitions(data@, end as int));
            assert(pairs_view(r@) + partitions(data@, end as int) =~= r0 + partitions(
                data@,
                start as int,
            ));
        }
        start = end;
    }
    proof {
        assert(partitions(data@, start as int) =~= Seq::<(int, int)>::empty());
        assert(pairs_view(r@) + Seq::<(int, int)>::empty() =~= pairs_view(r@));
    }
    r
}

/// Scans one byte range of the buffer into a fresh aggregate.
fn scan_chunk_bytes(cfg: &LogAnalyzer, data: &[u8], s: usize, e: usize, trends: bool, stats: bool) -> (r: AnalysisResult)
    requires
        cfg.wf(),
        s <= e <= data@.len(),
    ensures
        r.wf(),
        r@ == chunk_scan(cfg, data@, s as int, e as int, trends, stats),
{
    let chunk = vstd::slice::slice_subrange(data, s, e);
    let mut result = AnalysisResult::new();
    proof {
        crate::analyzer::lemma_split_len(chunk@);
    }
    cfg.process_chunk_data(chunk, &mut result, trends, stats);
    result
}

/// Relies on rayon's parallel map over the partition list with an
/// order-preserving collect: each partition of the shared read-only buffer
/// is scanned by the verified chunk scan on its own worker.
#[verifier::external_body]
fn par_scan_byte_chunks(cfg: &LogAnalyzer, data: &[u8], ranges: &Vec<(usize, usize)>, trends: bool, stats: bool) -> (r: Vec<AnalysisResult>)
    requires
        cfg.wf(),
        forall|i: int| 0 <= i < ranges@.len() ==> (#[trigger] ranges@[i]).0 <= ranges@[i].1
            <= data@.len(),
    ensures
        r@.len() == ranges@.len(),
        forall|i: int|
            0 <= i < r@.len() ==> (#[trigger] r@[i]).wf() && r@[i]@ == chunk_scan(
                cfg,
                data@,
                ranges@[i].0 as int,
                ranges@[i].1 as int,
                trends,
                stats,
            ),
{
    ranges.par_iter().map(|p| scan_chunk_bytes(cfg, data, p.0, p.1, trends, stats)).collect()
}

impl LogAnalyzer {
    /// Scans a byte buffer sequentially, reading it in fixed-size chunks and
    /// carrying the bytes after the last newline of each chunk into the
    /// next.
    fn scan_buffer_seq(&self, data: &[u8], trends: bool, stats: bool) -> (r: AnalysisResult)
        requires
            self.wf(),
        ensures
            r.wf(),
            r@ == self.scan_bytes(
                crate::analyzer::split_lines(data@),
                empty_model(),
                trends,
                stats,
            ),
    {
        let mut result = AnalysisResult::new();
        let mut pending: Vec<u8> = Vec::new();
        let n = data.len();
        let mut pos: usize = 0;
        let ghost mut k: int = 0;
        proof {
            assert(data@.subrange(0, 0) =~= Seq::<u8>::empty());
            assert(crate::analyzer::split_lines(Seq::<u8>::empty()) =~= Seq::<Seq<u8>>::empty());
            assert(pending@ =~= data@.subrange(0, 0));
        }
        while pos < n
            invariant
                0 <= k <= pos <= n,
                n == data@.len(),
                self.wf(),
                result.wf(),
                pending@ == data@.subrange(k, pos as int),
                k == 0 || data@[k - 1] == 10,
                result@ == self.scan_bytes(
                    crate::analyzer::split_lines(data@.subrange(0, k)),
                    empty_model(),
                    trends,
                    stats,
                ),
                result@.count <= k,
            decreases n - pos,
        {
            let end = if n - pos > CHUNK_SIZE {
                pos + CHUNK_SIZE
            } else {
                n
            };
            let chunk = vstd::slice::slice_subrange(data, pos, end);
            let clen = chunk.len();
            if end < n {
                match crate::text::rfind_byte(chunk, 10) {
                    Some(i) => {
                        pending.extend_from_slice(vstd::slice::slice_subrange(chunk, 0, i + 1));
                        let ghost new_k = pos + i + 1;
                        proof {
                            assert(pending@ =~= data@.subrange(k, new_k));
                            assert(data@[new_k - 1] == chunk@[i as int]);
                            lemma_scan_prefix_step(
                                self,
                                data@,
                                k,
                                new_k,
                                result@,
                                trends,
                                stats,
                            );
                        }
                        self.process_chunk_data(
                            pending.as_slice(),
                            &mut result,
                            trends,
                            stats,
                        );
                        pending.clear();
                        pending.extend_from_slice(
                            vstd::slice::slice_subrange(chunk, i + 1, clen),
                        );
                        proof {
                            k = new_k;
                            assert(pending@ =~= data@.subrange(k, end as int));
                        }
                    },
                    None => {
                        pending.extend_from_slice(chunk);
                        proof {
                            assert(pending@ =~= data@.subrange(k, end as int));
                        }
                    },
                }
            } else {
                pending.extend_from_slice(chunk);
                proof {
                    assert(pending@ =~= data@.subrange(k, end as int));
                }
            }
            pos = end;
        }
        if pending.len() > 0 {
            proof {
                lemma_scan_prefix_step(self, data@, k, n as int, result@, trends, stats);
            }
            self.process_chunk_data(pending.as_slice(), &mut result, trends, stats);
            proof {
                assert(data@.subrange(0, n as int) =~= data@);
            }
        } else {
            proof {
                assert(k == n);
                assert(data@.subrange(0, n as int) =~= data@);
            }
        }
        result
    }

    /// Scans a byte buffer in parallel: partitions at newline boundaries
    /// within a bounded lookahead, scans each partition on its own worker,
    /// and merges the partial aggregates in partition order.
    pub fn analyze_mmap_parallel(&mut self, data: &[u8], collect_trends: bool, collect_stats: bool) -> (r: AnalysisResult)
        requires
            old(self).wf(),
        ensures
            final(self).wf(),
            *final(self) == *old(self),
            r.wf(),
            r@ == fold_chunks(
                &*old(self),
                data@,
                partitions(data@, 0),
                0,
                empty_model(),
                collect_trends,
                collect_stats,
            ),
    {
        let ranges = build_partitions(data);
        proof {
            lemma_partitions_chain(data@, 0);
        }
        let results = par_scan_byte_chunks(&*self, data, &ranges, collect_trends, collect_stats);
        let ghost ps = partitions(data@, 0);
        let mut acc = AnalysisResult::new();
        let m = results.len();
        let mut j: usize = 0;
        while j < m
            invariant
                0 <= j <= m,
                m == results@.len(),
                m == ps.len(),
                ps == partitions(data@, 0),
                pairs_view(ranges@) == ps,
                self.wf(),
                acc.wf(),
                forall|x: int|
                    0 <= x < m ==> (#[trigger] results@[x]).wf() && results@[x]@ == chunk_scan(
                        &*self,
                        data@,
                        ps[x].0,
                        ps[x].1,
                        collect_trends,
                        collect_stats,
                    ),
                forall|x: int| 0 <= x < ps.len() ==> 0 <= (#[trigger] ps[x]).0 < ps[x].1
                    <= data@.len(),
                forall|x: int| 0 <= x < ps.len() - 1 ==> (#[trigger] ps[x]).1 == ps[x + 1].0,
                fold_chunks(&*self, data@, ps, 0, empty_model(), collect_trends, collect_stats)
                    == fold_chunks(
                    &*self,
                    data@,
                    ps,
                    j as int,
                    acc@,
                    collect_trends,
                    collect_stats,
                ),
                acc@.count <= (if j < m {
                    ps[j as int].0
                } else {
                    data@.len() as int
                }),
            decreases m - j,
        {
            proof {
                lemma_scan_count_bytes(
                    &*self,
                    crate::analyzer::split_lines(
                        data@.subrange(ps[j as int].0, ps[j as int].1),
                    ),
                    empty_model(),
                    collect_trends,
                    collect_stats,
                );
                crate::analyzer::lemma_split_len(
                    data@.subrange(ps[j as int].0, ps[j as int].1),
                );
            }
            acc.merge(&results[j]);
            j += 1;
        }
        acc
    }

    /// Scans a byte buffer, in parallel when asked to, else sequentially,
    /// configuring the pattern and level filter first.
    pub fn analyze_mmap(&mut self, data: &[u8], pattern: Option<&regex::Regex>, level_filter: Option<&str>, collect_trends: bool, collect_stats: bool, force_parallel: bool) -> (r: AnalysisResult)
        requires
            old(self).wf(),
        ensures
            final(self).wf(),
            r.wf(),
            configured(
                *old(self),
                *final(self),
                match pattern {
                    Some(re) => Some(*re),
                    None => None,
                },
                match level_filter {
                    Some(l) => Some(l@),
                    None => None,
                },
            ),
            !force_parallel ==> r@ == final(self).scan_bytes(
                crate::analyzer::split_lines(data@),
                empty_model(),
                collect_trends,
                collect_stats,
            ),
            force_parallel ==> r@ == fold_chunks(
                &*final(self),
                data@,
                partitions(data@, 0),
                0,
                empty_model(),
                collect_trends,
                collect_stats,
            ),
    {
        self.apply_config(pattern, level_filter);
        if force_parallel {
            self.analyze_mmap_parallel(data, collect_trends, collect_stats)
        } else {
            self.scan_buffer_seq(data, collect_trends, collect_stats)
        }
    }
}

/// Extending the processed prefix to a further newline boundary keeps the
/// one-pass reading: the scanned prefix plus the carried bytes scan to the
/// scan of the longer prefix.
proof fn lemma_scan_prefix_step(
    cfg: &LogAnalyzer,
    d: Seq<u8>,
    k: int,
    new_k: int,
    m: ResultModel,
    trends: bool,
    stats: bool,
)
    requires
        0 <= k <= new_k <= d.len(),
        k == 0 || d[k - 1] == 10,
        m == cfg.scan_bytes(
            crate::analyzer::split_lines(d.subrange(0, k)),
            empty_model(),
            trends,
            stats,
        ),
        m.count <= k,
    ensures
        cfg.scan_bytes(
            crate::analyzer::split_lines(d.subrange(k, new_k)),
            m,
            trends,
            stats,
        ) == cfg.scan_bytes(
            crate::analyzer::split_lines(d.subrange(0, new_k)),
            empty_model(),
            trends,
            stats,
        ),
        m.count + crate::analyzer::split_lines(d.subrange(k, new_k)).len() <= new_k,
        cfg.scan_bytes(
            crate::analyzer::split_lines(d.subrange(k, new_k)),
            m,
            trends,
            stats,
        ).count <= new_k,
{
    let u = d.subrange(0, k);
    let v = d.subrange(k, new_k);
    if k > 0 {
        assert(u.last() == d[k - 1]);
    }
    crate::analyzer::lemma_split_concat(u, v);
    assert(u + v =~= d.subrange(0, new_k));
    laws::lemma_scan_append_bytes(
        cfg,
        crate::analyzer::split_lines(u),
        crate::analyzer::split_lines(v),
        empty_model(),
        trends,
        stats,
    );
    crate::analyzer::lemma_split_len(v);
    lemma_scan_count_bytes(cfg, crate::analyzer::split_lines(v), m, trends, stats);
}

/// The concatenation of the chunks from position `i` on.
pub open spec fn cat_chunks_rest(cs: Seq<Seq<Seq<char>>>, i: int) -> Seq<Seq<char>>
    decreases cs.len() - i,
{
    if i < 0 || i >= cs.len() {
        Seq::empty()
    } else {
        cs[i] + cat_chunks_rest(cs, i + 1)
    }
}

proof fn lemma_cat_rest_skip(cs: Seq<Seq<Seq<char>>>, i: int)
    requires
        0 <= i <= cs.len(),
    ensures
        cat_chunks_rest(cs, i) == cat_chunks(cs.subrange(i, cs.len() as int)),
    decreases cs.len() - i,
{
    let suf = cs.subrange(i, cs.len() as int);
    if i < cs.len() {
        lemma_cat_rest_skip(cs, i + 1);
        assert(suf[0] == cs[i]);
        assert(suf.drop_first() =~= cs.subrange(i + 1, cs.len() as int));
    } else {
        assert(suf =~= Seq::<Seq<Seq<char>>>::empty());
    }
}

proof fn lemma_cat_rest_step(cs: Seq<Seq<Seq<char>>>, i: int)
    requires
        0 <= i < cs.len(),
    ensures
        cat_chunks(cs.take(i)) + cat_chunks_rest(cs, i) == (cat_chunks(cs.take(i)) + cs[i])
            + cat_chunks_rest(cs, i + 1),
        cat_chunks(cs.take(i + 1)) == cat_chunks(cs.take(i)) + cs[i],
{
    assert(cs.take(i + 1) =~= cs.take(i).push(cs[i]));
    lemma_cat_push(cs.take(i), cs[i]);
    assert(cat_chunks(cs.take(i)) + (cs[i] + cat_chunks_rest(cs, i + 1)) =~= (cat_chunks(
        cs.take(i),
    ) + cs[i]) + cat_chunks_rest(cs, i + 1));
}

proof fn lemma_cat_len_le(cs: Seq<Seq<Seq<char>>>, i: int, all: Seq<Seq<char>>)
    requires
        0 <= i < cs.len(),
        cat_chunks(cs.take(i)) + cat_chunks_rest(cs, i) == all,
    ensures
        cat_chunks(cs.take(i)).len() + cs[i].len() <= all.len(),
{
    lemma_cat_rest_step(cs, i);
}

} // verus!