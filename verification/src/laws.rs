//! The general laws of the engine: chunk-merge equivalence, the sample cap
//! and deduplication invariants, case-insensitivity of the level filter,
//! the conjunction semantics of field filters, and the agreement of the
//! plain and the accelerated literal matchers.
use vstd::prelude::*;
use vstd::utf8::encode_utf8;
use crate::analyzer::AnalysisResult;
use crate::analyzer::LiteralMatcher;
use crate::analyzer::LogAnalyzer;
use crate::analyzer::PatternMatcher;
use crate::analyzer::ResultModel;
use crate::accelerated::SimdLiteralMatcher;
use crate::analyzer::empty_model;
use crate::analyzer::merge_model;
use crate::analyzer::level_ok;
use crate::analyzer::pair_ok;
use crate::text;
use crate::MAX_UNIQUE_LINES;

verus! {

/// Filtering a pushed element keeps it exactly when the predicate holds.
proof fn lemma_filter_push(s: Seq<Seq<char>>, x: Seq<char>, p: spec_fn(Seq<char>) -> bool)
    ensures
        s.push(x).filter(p) == if p(x) {
            s.filter(p).push(x)
        } else {
            s.filter(p)
        },
{
    reveal_with_fuel(Seq::filter, 2);
    assert(s.push(x).drop_last() =~= s);
    assert(s.push(x).last() == x);
}

/// One step commutes with merging from the left: stepping the merged
/// aggregate is merging the stepped right side.
#[verifier::rlimit(50)]
proof fn lemma_step_merge(
    cfg: &LogAnalyzer,
    a: ResultModel,
    b: ResultModel,
    x: Seq<char>,
    trends: bool,
    stats: bool,
)
    ensures
        cfg.step_line(merge_model(a, b), x, trends, stats) == merge_model(
            a,
            cfg.step_line(b, x, trends, stats),
        ),
{
    if cfg.spec_admits(x, None, cfg.stored_lf()) {
        let p = |k: Seq<char>| !a.lines.dom().contains(k);
        let sb = cfg.step_line(b, x, trends, stats);
        let lhs = cfg.step_line(merge_model(a, b), x, trends, stats);
        let rhs = merge_model(a, sb);
        assert(lhs.count == rhs.count);
        assert(lhs.lines =~= rhs.lines);
        assert(lhs.trends =~= rhs.trends);
        assert(lhs.levels =~= rhs.levels);
        assert(lhs.errors =~= rhs.errors);
        assert(lhs.uniques =~= rhs.uniques);
        // the sample order
        if b.lines.dom().contains(x) {
            assert(lhs.line_order =~= rhs.line_order);
        } else if a.lines.dom().contains(x) {
            lemma_filter_push(b.line_order, x, p);
            assert(lhs.line_order =~= rhs.line_order);
        } else {
            lemma_filter_push(b.line_order, x, p);
            assert(lhs.line_order =~= a.line_order + b.line_order.filter(p).push(x));
            assert(rhs.line_order =~= a.line_order + b.line_order.filter(p).push(x));
        }
        assert(lhs =~= rhs);
    } else {
        assert(cfg.step_line(merge_model(a, b), x, trends, stats) =~= merge_model(
            a,
            cfg.step_line(b, x, trends, stats),
        ));
    }
}

/// Merging with the zero aggregate changes nothing.
pub proof fn lemma_merge_empty(b: ResultModel)
    ensures
        merge_model(empty_model(), b) == b,
        merge_model(b, empty_model()) == b,
{
    reveal_with_fuel(Seq::filter, 2);
    let p = |k: Seq<char>| !empty_model().lines.dom().contains(k);
    assert(b.line_order.filter(p) =~= b.line_order) by {
        lemma_filter_true(b.line_order, p);
    }
    assert(merge_model(empty_model(), b).lines =~= b.lines);
    assert(merge_model(empty_model(), b).trends =~= b.trends);
    assert(merge_model(empty_model(), b).levels =~= b.levels);
    assert(merge_model(empty_model(), b).errors =~= b.errors);
    assert(merge_model(empty_model(), b).uniques =~= b.uniques);
    assert(merge_model(empty_model(), b).line_order =~= b.line_order);
    assert(merge_model(empty_model(), b) =~= b);
    let q = |k: Seq<char>| !b.lines.dom().contains(k);
    assert(Seq::<Seq<char>>::empty().filter(q) =~= Seq::<Seq<char>>::empty());
    assert(merge_model(b, empty_model()).lines =~= b.lines);
    assert(merge_model(b, empty_model()).trends =~= b.trends);
    assert(merge_model(b, empty_model()).levels =~= b.levels);
    assert(merge_model(b, empty_model()).errors =~= b.errors);
    assert(merge_model(b, empty_model()).uniques =~= b.uniques);
    assert(merge_model(b, empty_model()).line_order =~= b.line_order + Seq::<Seq<char>>::empty());
    assert(b.line_order + Seq::<Seq<char>>::empty() =~= b.line_order);
    assert(merge_model(b, empty_model()) =~= b);
}

/// A filter whose predicate holds of every element keeps the sequence.
proof fn lemma_filter_true(s: Seq<Seq<char>>, p: spec_fn(Seq<char>) -> bool)
    requires
        forall|i: int| 0 <= i < s.len() ==> p(#[trigger] s[i]),
    ensures
        s.filter(p) == s,
    decreases s.len(),
{
    reveal_with_fuel(Seq::filter, 2);
    if s.len() > 0 {
        lemma_filter_true(s.drop_last(), p);
        assert(p(s.last()));
        assert(s.drop_last().push(s.last()) =~= s);
    }
}

/// Scanning distributes over a left merge.
proof fn lemma_scan_merge(
    cfg: &LogAnalyzer,
    ls: Seq<Seq<char>>,
    a: ResultModel,
    b: ResultModel,
    trends: bool,
    stats: bool,
)
    ensures
        cfg.scan_strs(ls, merge_model(a, b), trends, stats) == merge_model(
            a,
            cfg.scan_strs(ls, b, trends, stats),
        ),
    decreases ls.len(),
{
    if ls.len() > 0 {
        lemma_step_merge(cfg, a, b, ls[0], trends, stats);
        lemma_scan_merge(
            cfg,
            ls.drop_first(),
            a,
            cfg.step_line(b, ls[0], trends, stats),
            trends,
            stats,
        );
    }
}

/// Scanning a concatenation is scanning the parts in order.
pub proof fn lemma_scan_append(
    cfg: &LogAnalyzer,
    l1: Seq<Seq<char>>,
    l2: Seq<Seq<char>>,
    m: ResultModel,
    trends: bool,
    stats: bool,
)
    ensures
        cfg.scan_strs(l1 + l2, m, trends, stats) == cfg.scan_strs(
            l2,
            cfg.scan_strs(l1, m, trends, stats),
            trends,
            stats,
        ),
    decreases l1.len(),
{
    if l1.len() == 0 {
        assert(l1 + l2 =~= l2);
    } else {
        assert((l1 + l2).drop_first() =~= l1.drop_first() + l2);
        assert((l1 + l2)[0] == l1[0]);
        lemma_scan_append(
            cfg,
            l1.drop_first(),
            l2,
            cfg.step_line(m, l1[0], trends, stats),
            trends,
            stats,
        );
    }
}

/// Chunk-merge equivalence: scanning any split of the input in two chunks
/// and merging the partial aggregates yields the aggregate of scanning the
/// whole input in one pass.
pub proof fn lemma_chunk_merge_equivalence(
    cfg: &LogAnalyzer,
    l1: Seq<Seq<char>>,
    l2: Seq<Seq<char>>,
    trends: bool,
    stats: bool,
)
    ensures
        merge_model(
            cfg.scan_strs(l1, empty_model(), trends, stats),
            cfg.scan_strs(l2, empty_model(), trends, stats),
        ) == cfg.scan_strs(l1 + l2, empty_model(), trends, stats),
{
    let a = cfg.scan_strs(l1, empty_model(), trends, stats);
    lemma_scan_append(cfg, l1, l2, empty_model(), trends, stats);
    lemma_merge_empty(a);
    lemma_scan_merge(cfg, l2, a, empty_model(), trends, stats);
    assert(cfg.scan_strs(l2, merge_model(a, empty_model()), trends, stats) == merge_model(
        a,
        cfg.scan_strs(l2, empty_model(), trends, stats),
    ));
}

/// The byte-level scans obey the same law: one step commutes with a left
/// merge.
proof fn lemma_step_merge_bytes(
    cfg: &LogAnalyzer,
    a: ResultModel,
    b: ResultModel,
    x: Seq<u8>,
    trends: bool,
    stats: bool,
)
    ensures
        cfg.step_bytes(merge_model(a, b), x, trends, stats) == merge_model(
            a,
            cfg.step_bytes(b, x, trends, stats),
        ),
{
    if vstd::utf8::valid_utf8(x) {
        lemma_step_merge(cfg, a, b, vstd::utf8::decode_utf8(x), trends, stats);
    }
}

pub proof fn lemma_scan_merge_bytes(
    cfg: &LogAnalyzer,
    ls: Seq<Seq<u8>>,
    a: ResultModel,
    b: ResultModel,
    trends: bool,
    stats: bool,
)
    ensures
        cfg.scan_bytes(ls, merge_model(a, b), trends, stats) == merge_model(
            a,
            cfg.scan_bytes(ls, b, trends, stats),
        ),
    decreases ls.len(),
{
    if ls.len() > 0 {
        lemma_step_merge_bytes(cfg, a, b, ls[0], trends, stats);
        lemma_scan_merge_bytes(
            cfg,
            ls.drop_first(),
            a,
            cfg.step_bytes(b, ls[0], trends, stats),
            trends,
            stats,
        );
    }
}

/// Scanning a concatenation of byte lines is scanning the parts in order.
pub proof fn lemma_scan_append_bytes(
    cfg: &LogAnalyzer,
    l1: Seq<Seq<u8>>,
    l2: Seq<Seq<u8>>,
    m: ResultModel,
    trends: bool,
    stats: bool,
)
    ensures
        cfg.scan_bytes(l1 + l2, m, trends, stats) == cfg.scan_bytes(
            l2,
            cfg.scan_bytes(l1, m, trends, stats),
            trends,
            stats,
        ),
    decreases l1.len(),
{
    if l1.len() == 0 {
        assert(l1 + l2 =~= l2);
    } else {
        assert((l1 + l2).drop_first() =~= l1.drop_first() + l2);
        assert((l1 + l2)[0] == l1[0]);
        lemma_scan_append_bytes(
            cfg,
            l1.drop_first(),
            l2,
            cfg.step_bytes(m, l1[0], trends, stats),
            trends,
            stats,
        );
    }
}

/// Chunk-merge equivalence for byte chunks split at line boundaries.
pub proof fn lemma_chunk_merge_equivalence_bytes(
    cfg: &LogAnalyzer,
    l1: Seq<Seq<u8>>,
    l2: Seq<Seq<u8>>,
    trends: bool,
    stats: bool,
)
    ensures
        merge_model(
            cfg.scan_bytes(l1, empty_model(), trends, stats),
            cfg.scan_bytes(l2, empty_model(), trends, stats),
        ) == cfg.scan_bytes(l1 + l2, empty_model(), trends, stats),
{
    let a = cfg.scan_bytes(l1, empty_model(), trends, stats);
    lemma_scan_append_bytes(cfg, l1, l2, empty_model(), trends, stats);
    lemma_merge_empty(a);
    lemma_scan_merge_bytes(cfg, l2, a, empty_model(), trends, stats);
}

/// The cap invariant and dedup correctness: a well-formed aggregate keeps at
/// most the cap of sample lines, every sample line is a counted line with a
/// positive count, and the occurrence counts sum to the total count.
pub proof fn lemma_cap_and_dedup(r: &AnalysisResult)
    requires
        r.wf(),
    ensures
        r.matched_lines@.len() <= MAX_UNIQUE_LINES,
        forall|i: int|
            0 <= i < r.matched_lines.deep_view().len() ==> r@.lines.dom().contains(
                #[trigger] r.matched_lines.deep_view()[i],
            ) && r@.lines[r.matched_lines.deep_view()[i]] >= 1,
        r.line_counts.total() == r@.count,
{
    crate::counts::lemma_map_of(r.line_counts.key_seq(), r.line_counts.val_seq());
    assert(r.matched_lines.deep_view().len() == r.matched_lines@.len());
    assert forall|i: int|
        0 <= i < r.matched_lines.deep_view().len() implies r@.lines.dom().contains(
        #[trigger] r.matched_lines.deep_view()[i],
    ) && r@.lines[r.matched_lines.deep_view()[i]] >= 1 by {
        let ks = r.line_counts.key_seq();
        assert(r.matched_lines.deep_view()[i] == crate::analyzer::cap_seq(ks)[i]);
        assert(crate::analyzer::cap_seq(ks)[i] == ks[i]);
        assert(r.line_counts.as_map().dom().contains(ks[i]));
    }
}

/// Level filters that differ only in ASCII case admit the same lines.
pub proof fn lemma_level_filter_case_insensitive(
    level: Seq<char>,
    f1: Seq<char>,
    f2: Seq<char>,
)
    requires
        text::eq_ci(encode_utf8(f1), encode_utf8(f2)),
    ensures
        level_ok(level, Some(f1)) == level_ok(level, Some(f2)),
{
    assert forall|i: int|
        0 <= i < encode_utf8(f1).len() implies text::lower8(
        text::lower8(encode_utf8(f1)[i]),
    ) == text::lower8(encode_utf8(f2)[i]) by {
        assert(text::lower8(encode_utf8(f1)[i]) == text::lower8(encode_utf8(f2)[i]));
    }
}

/// Levels that differ only in ASCII case are decided alike by any filter: a
/// line whose level is `error` in any casing is admitted by an `ERROR`
/// filter exactly as the uppercase line is, and rejected alike by others.
pub proof fn lemma_level_case_insensitive(l1: Seq<char>, l2: Seq<char>, f: Option<Seq<char>>)
    requires
        text::eq_ci(encode_utf8(l1), encode_utf8(l2)),
    ensures
        level_ok(l1, f) == level_ok(l2, f),
{
    text::lemma_encode_empty(l1);
    text::lemma_encode_empty(l2);
}

/// Field filters conjoin: one failing pair rejects the line whatever the
/// other filters, the pattern and the level say.
pub proof fn lemma_field_filter_and(a: &LogAnalyzer, line: Seq<char>, i: int)
    requires
        0 <= i < a.field_filters.key_seq().len(),
        !pair_ok(
            a.spec_parsed(line),
            line,
            encode_utf8(a.field_filters.key_seq()[i]),
            encode_utf8(a.field_filters.as_map()[a.field_filters.key_seq()[i]]@),
        ),
    ensures
        forall|over: Option<regex::Regex>, lf: Option<Seq<char>>|
            !a.spec_admits(line, over, lf),
{
    assert forall|over: Option<regex::Regex>, lf: Option<Seq<char>>|
        !a.spec_admits(line, over, lf) by {
        assert(!a.spec_fields_ok(a.spec_parsed(line), line));
    }
}

/// The plain and the accelerated literal matcher agree on every pattern and
/// every line.
pub proof fn lemma_literal_accelerated_agree(
    lm: &LiteralMatcher,
    am: &SimdLiteralMatcher,
    t: Seq<char>,
)
    requires
        lm.pattern@ == am.pattern@,
    ensures
        lm.spec_matches(t) == am.spec_matches(t),
{
}

} // verus!