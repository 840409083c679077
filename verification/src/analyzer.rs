//! The analysis engine: pattern matchers, the per-line filter pipeline, the
//! per-chunk accumulator, and the merge algebra that combines per-chunk
//! aggregates deterministically.
use vstd::prelude::*;
use vstd::string::StringSliceAdditionalSpecFns;
use vstd::string::StrSliceExecFns;
use vstd::utf8::encode_utf8;
use vstd::utf8::decode_utf8;
use vstd::utf8::valid_utf8;
use crate::counts::KvMap;
use crate::counts::StrSet;
use crate::extract;
use crate::parser::AnyParser;
use crate::parser::LogParser;
use crate::parser::ParsedModel;
use crate::parser::ParsedLogLine;
use crate::counts::FlatState;
use crate::counts::flat_insert;
use crate::parser::json::state_of;
use crate::text;
use crate::MAX_UNIQUE_LINES;
use crate::accelerated::SimdLiteralMatcher;

verus! {

// ---------------------------------------------------------------------------
// Regular expressions, behind trusted declarations
// ---------------------------------------------------------------------------
#[verifier::external_type_specification]
#[verifier::external_body]
pub struct ExRegex(regex::Regex);

#[verifier::external_type_specification]
#[verifier::external_body]
pub struct ExRegexError(regex::Error);

/// The source pattern a compiled regular expression was built from, as
/// `regex::Regex::as_str` returns it.
pub uninterp spec fn regex_source(re: regex::Regex) -> Seq<char>;

/// Whether a pattern compiles under `regex::Regex::new`'s default
/// configuration.
pub uninterp spec fn regex_valid(pattern: Seq<char>) -> bool;

/// Whether a compiled regular expression matches anywhere in a text: a
/// function of the compiled value and the text. It is keyed by the value,
/// not by its source pattern — two values of the same source, built under
/// different configurations, may decide differently.
pub uninterp spec fn regex_match(re: regex::Regex, text: Seq<char>) -> bool;

/// Whether a pattern, compiled under the default configuration, matches
/// anywhere in a text: a function of the pattern and the text alone, since
/// default compilation is deterministic in the pattern.
pub uninterp spec fn regex_default_match(pattern: Seq<char>, text: Seq<char>) -> bool;

/// Relies on `regex::Regex::new`: compiles exactly the patterns valid under
/// the default configuration, the compiled value keeps its source pattern,
/// and — compilation being deterministic in the pattern — the value decides
/// the pattern's default-compiled matching.
#[verifier::external_body]
fn regex_new(pattern: &str) -> (r: Result<regex::Regex, regex::Error>)
    ensures
        r is Ok <==> regex_valid(pattern@),
        r matches Ok(re) ==> regex_source(re) == pattern@,
        r matches Ok(re) ==> forall|t: Seq<char>|
            #[trigger] regex_match(re, t) == regex_default_match(pattern@, t),
{
    regex::Regex::new(pattern)
}

/// Relies on `regex::Regex::is_match`: true exactly when the compiled
/// value matches somewhere in the haystack.
#[verifier::external_body]
fn regex_is_match(re: &regex::Regex, text: &str) -> (r: bool)
    ensures
        r == regex_match(*re, text@),
{
    re.is_match(text)
}

/// Relies on `regex::Regex::clone`: the clone shares the original's source
/// pattern and compiled program, so it is the same value.
#[verifier::external_body]
pub(crate) fn regex_clone(re: &regex::Regex) -> (r: regex::Regex)
    ensures
        r == *re,
{
    re.clone()
}

/// Why a pattern could not be configured.
#[derive(Debug, Clone, Copy, PartialEq, Eq, Structural)]
pub enum PatternError {
    InvalidRegex,
}

// ---------------------------------------------------------------------------
// Pattern matchers
// ---------------------------------------------------------------------------
/// A substring or regular-expression predicate on lines.
pub trait PatternMatcher: Sized {
    /// What this matcher accepts.
    spec fn spec_matches(&self, text: Seq<char>) -> bool;

    /// Whether the line matches.
    fn is_match(&self, text: &str) -> (r: bool)
        ensures
            r == self.spec_matches(text@),
    ;
}

/// Plain substring matching.
pub struct LiteralMatcher {
    pub pattern: String,
}

impl LiteralMatcher {
    pub fn new(pattern: &str) -> (r: LiteralMatcher)
        ensures
            r.pattern@ == pattern@,
    {
        LiteralMatcher { pattern: pattern.to_owned() }
    }
}

impl PatternMatcher for LiteralMatcher {
    /// Containment of the pattern's bytes in the line's bytes.
    open spec fn spec_matches(&self, text: Seq<char>) -> bool {
        text::has_sub(encode_utf8(text), encode_utf8(self.pattern@))
    }

    fn is_match(&self, text: &str) -> (r: bool) {
        extract::contains_sub(text.as_bytes(), self.pattern.as_str().as_bytes())
    }
}

/// Full regular-expression matching for complex patterns.
pub struct RegexMatcher {
    pub regex: regex::Regex,
}

/// The matcher decides the pattern's default-compiled regex matching on
/// every text.
pub open spec fn re_matches_default(rm: RegexMatcher, pattern: Seq<char>) -> bool {
    forall|t: Seq<char>| #[trigger] rm.spec_matches(t) == regex_default_match(pattern, t)
}

impl RegexMatcher {
    /// Compiles the pattern; exactly the well-formed patterns are accepted,
    /// and the matcher decides the pattern's default-compiled matching.
    pub fn new(pattern: &str) -> (r: Result<RegexMatcher, PatternError>)
        ensures
            r is Ok <==> regex_valid(pattern@),
            r matches Ok(m) ==> regex_source(m.regex) == pattern@ && re_matches_default(
                m,
                pattern@,
            ),
    {
        match regex_new(pattern) {
            Ok(re) => Ok(RegexMatcher { regex: re }),
            Err(_) => Err(PatternError::InvalidRegex),
        }
    }
}

impl PatternMatcher for RegexMatcher {
    /// What the compiled value matches.
    open spec fn spec_matches(&self, text: Seq<char>) -> bool {
        regex_match(self.regex, text)
    }

    fn is_match(&self, text: &str) -> (r: bool) {
        regex_is_match(&self.regex, text)
    }
}

/// The closed set of matcher shapes the factory chooses among.
pub enum CompiledPattern {
    Literal(LiteralMatcher),
    Accelerated(SimdLiteralMatcher),
    Re(RegexMatcher),
}

impl PatternMatcher for CompiledPattern {
    open spec fn spec_matches(&self, text: Seq<char>) -> bool {
        match self {
            CompiledPattern::Literal(m) => m.spec_matches(text),
            CompiledPattern::Accelerated(m) => m.spec_matches(text),
            CompiledPattern::Re(m) => m.spec_matches(text),
        }
    }

    fn is_match(&self, text: &str) -> (r: bool) {
        match self {
            CompiledPattern::Literal(m) => m.is_match(text),
            CompiledPattern::Accelerated(m) => m.is_match(text),
            CompiledPattern::Re(m) => m.is_match(text),
        }
    }
}

/// A byte that makes a pattern a regular expression rather than a literal.
pub open spec fn is_meta(b: u8) -> bool {
    b == 42 || b == 63 || b == 91 || b == 40 || b == 124 || b == 43 || b == 46 || b == 94 || b
        == 36 || b == 92
}

/// A pattern is complex when it holds any regex metacharacter.
pub open spec fn spec_complex(pattern: Seq<char>) -> bool {
    exists|i: int|
        0 <= i < encode_utf8(pattern).len() && is_meta(#[trigger] encode_utf8(pattern)[i])
}

/// Decides whether a pattern needs regular-expression matching.
pub fn is_complex_pattern(pattern: &str) -> (r: bool)
    ensures
        r == spec_complex(pattern@),
{
    let b = pattern.as_bytes();
    let n = b.len();
    let mut i: usize = 0;
    while i < n
        invariant
            0 <= i <= n,
            n == b@.len(),
            b@ == encode_utf8(pattern@),
            forall|j: int| 0 <= j < i ==> !is_meta(#[trigger] b@[j]),
        decreases n - i,
    {
        let c = b[i];
        if c == 42 || c == 63 || c == 91 || c == 40 || c == 124 || c == 43 || c == 46 || c == 94
            || c == 36 || c == 92 {
            return true;
        }
        i += 1;
    }
    false
}

// ---------------------------------------------------------------------------
// The aggregate and its model
// ---------------------------------------------------------------------------
/// The mathematical content of an aggregate result.
#[verifier::ext_equal]
pub struct ResultModel {
    pub count: nat,
    pub lines: Map<Seq<char>, nat>,
    pub line_order: Seq<Seq<char>>,
    pub trends: Map<Seq<char>, nat>,
    pub levels: Map<Seq<char>, nat>,
    pub errors: Map<Seq<char>, nat>,
    pub uniques: Set<Seq<char>>,
    pub dedup: bool,
}

/// The counter under a key, zero when absent.
pub open spec fn get0(m: Map<Seq<char>, nat>, k: Seq<char>) -> nat {
    if m.dom().contains(k) {
        m[k]
    } else {
        0
    }
}

/// Adds `by` to the counter under a key.
pub open spec fn bump_map(m: Map<Seq<char>, nat>, k: Seq<char>, by: nat) -> Map<Seq<char>, nat> {
    m.insert(k, (get0(m, k) + by) as nat)
}

/// The zero-valued aggregate.
pub open spec fn empty_model() -> ResultModel {
    ResultModel {
        count: 0,
        lines: Map::empty(),
        line_order: Seq::empty(),
        trends: Map::empty(),
        levels: Map::empty(),
        errors: Map::empty(),
        uniques: Set::empty(),
        dedup: true,
    }
}

/// The counters of a container, as a map into naturals.
pub open spec fn nat_map(m: KvMap<usize>) -> Map<Seq<char>, nat> {
    Map::new(
        |k: Seq<char>| m.as_map().dom().contains(k),
        |k: Seq<char>| m.as_map()[k] as nat,
    )
}

/// A sequence cut off at the sample cap.
pub open spec fn cap_seq(s: Seq<Seq<char>>) -> Seq<Seq<char>> {
    if s.len() <= MAX_UNIQUE_LINES {
        s
    } else {
        s.take(MAX_UNIQUE_LINES as int)
    }
}

/// The aggregate result of one analysis run: the matched lines with their
/// occurrence counts, and the optional trend and statistics tallies.
pub struct AnalysisResult {
    pub matched_lines: Vec<String>,
    pub line_counts: KvMap<usize>,
    pub count: usize,
    pub time_trends: KvMap<usize>,
    pub levels_count: KvMap<usize>,
    pub error_types: KvMap<usize>,
    pub unique_messages: StrSet,
    pub deduplicated: bool,
}

impl View for AnalysisResult {
    type V = ResultModel;

    open spec fn view(&self) -> ResultModel {
        ResultModel {
            count: self.count as nat,
            lines: nat_map(self.line_counts),
            line_order: self.line_counts.key_seq(),
            trends: nat_map(self.time_trends),
            levels: nat_map(self.levels_count),
            errors: nat_map(self.error_types),
            uniques: self.unique_messages.as_set(),
            dedup: self.deduplicated,
        }
    }
}

/// Every counter in a container is at least one.
pub open spec fn all_positive(m: KvMap<usize>) -> bool {
    forall|k: Seq<char>| #[trigger] m.as_map().dom().contains(k) ==> m.as_map()[k] >= 1
}

impl AnalysisResult {
    /// Internal consistency of an aggregate: the sample lines are the first
    /// distinct matched lines up to the cap, the occurrence counts sum to the
    /// total, every tally is positive, and no tally outgrows the total.
    pub open spec fn wf(&self) -> bool {
        &&& self.line_counts.wf()
        &&& self.time_trends.wf()
        &&& self.levels_count.wf()
        &&& self.error_types.wf()
        &&& self.unique_messages.wf()
        &&& self.matched_lines.deep_view() == cap_seq(self.line_counts.key_seq())
        &&& self.line_counts.total() == self.count
        &&& self.time_trends.total() <= self.count
        &&& self.levels_count.total() <= self.count
        &&& self.error_types.total() <= self.count
        &&& all_positive(self.line_counts)
        &&& all_positive(self.time_trends)
        &&& all_positive(self.levels_count)
        &&& all_positive(self.error_types)
    }

    /// A fresh, zero-valued aggregate that deduplicates its sample lines.
    pub fn new() -> (r: AnalysisResult)
        ensures
            r.wf(),
            r@ == empty_model(),
    {
        let r = AnalysisResult {
            matched_lines: Vec::new(),
            line_counts: KvMap::new(),
            count: 0,
            time_trends: KvMap::new(),
            levels_count: KvMap::new(),
            error_types: KvMap::new(),
            unique_messages: StrSet::new(),
            deduplicated: true,
        };
        proof {
            assert(r.matched_lines.deep_view() =~= Seq::<Seq<char>>::empty());
            assert(nat_map(r.line_counts) =~= Map::<Seq<char>, nat>::empty());
            assert(nat_map(r.time_trends) =~= Map::<Seq<char>, nat>::empty());
            assert(nat_map(r.levels_count) =~= Map::<Seq<char>, nat>::empty());
            assert(nat_map(r.error_types) =~= Map::<Seq<char>, nat>::empty());
            assert(r@ =~= empty_model());
        }
        r
    }
}

/// Adds every tally of `src` into `dst`.
fn merge_counts(dst: &mut KvMap<usize>, src: &KvMap<usize>)
    requires
        old(dst).wf(),
        src.wf(),
        all_positive(*old(dst)),
        all_positive(*src),
        old(dst).total() + src.total() <= usize::MAX,
    ensures
        final(dst).wf(),
        all_positive(*final(dst)),
        nat_map(*final(dst)) == add_counts(nat_map(*old(dst)), src.key_seq(), src.val_seq(), 0),
        final(dst).total() == old(dst).total() + src.total(),
{
    let ghost bks = src.key_seq();
    let ghost bvs = src.val_seq();
    let ghost t0 = old(dst).total();
    let n = src.len();
    let mut i: usize = 0;
    while i < n
        invariant
            0 <= i <= n,
            n == bks.len(),
            bks == src.key_seq(),
            bvs == src.val_seq(),
            bks.len() == bvs.len(),
            src.wf(),
            all_positive(*src),
            dst.wf(),
            all_positive(*dst),
            dst.total() == t0 + crate::counts::sum_vals(bvs.take(i as int)),
            t0 + crate::counts::sum_vals(bvs) <= usize::MAX,
            add_counts(nat_map(*old(dst)), bks, bvs, 0) == add_counts(
                nat_map(*dst),
                bks,
                bvs,
                i as int,
            ),
        decreases n - i,
    {
        let k = src.key_at(i);
        let v = *src.val_at(i);
        proof {
            assert(v == bvs[i as int]);
            crate::counts::lemma_map_of(bks, bvs);
            assert(src.as_map().dom().contains(bks[i as int]));
            assert(v >= 1);
            crate::counts::lemma_get_le_total(dst);
            crate::counts::lemma_sum_take_step(bvs, i as int);
            crate::counts::lemma_sum_take_le(bvs, i + 1);
        }
        let ghost prev = nat_map(*dst);
        dst.bump(k.as_str(), v);
        proof {
            assert(nat_map(*dst) =~= bump_map(prev, bks[i as int], v as nat));
            assert(bvs.take(i + 1).drop_last() =~= bvs.take(i as int));
        }
        i += 1;
    }
    proof {
        assert(bvs.take(n as int) =~= bvs);
    }
}

impl AnalysisResult {
    /// Merges another aggregate into this one: counts and tallies add, the
    /// message sets unite, and the other aggregate's first-seen lines extend
    /// the sample up to the cap.
    pub fn merge(&mut self, other: &AnalysisResult)
        requires
            old(self).wf(),
            other.wf(),
            old(self)@.count + other@.count <= usize::MAX,
        ensures
            final(self).wf(),
            final(self)@ == merge_model(old(self)@, other@),
    {
        let ghost a = old(self)@;
        let ghost b = other@;
        self.count = self.count + other.count;
        self.deduplicated = self.deduplicated && other.deduplicated;
        let ghost a0 = ResultModel { count: a.count + b.count, dedup: a.dedup && b.dedup, ..a };
        // line counts and the capped sample
        let ghost bks = other.line_counts.key_seq();
        let ghost bvs = other.line_counts.val_seq();
        let n1 = other.line_counts.len();
        let mut i: usize = 0;
        while i < n1
            invariant
                0 <= i <= n1,
                n1 == bks.len(),
                bks == other.line_counts.key_seq(),
                bvs == other.line_counts.val_seq(),
                bks.len() == bvs.len(),
                other.wf(),
                self.line_counts.wf(),
                all_positive(self.line_counts),
                self.matched_lines.deep_view() == cap_seq(self.line_counts.key_seq()),
                self.line_counts.total() == a.count + crate::counts::sum_vals(bvs.take(i as int)),
                a.count + b.count <= usize::MAX,
                b.count == crate::counts::sum_vals(bvs),
                add_lines(a0, bks, bvs, 0) == add_lines(self@, bks, bvs, i as int),
                self.count == a.count + b.count,
                self.deduplicated == (a.dedup && b.dedup),
                self.time_trends == old(self).time_trends,
                self.levels_count == old(self).levels_count,
                self.error_types == old(self).error_types,
                self.unique_messages == old(self).unique_messages,
            decreases n1 - i,
        {
            let k = other.line_counts.key_at(i);
            let v = *other.line_counts.val_at(i);
            proof {
                assert(v == bvs[i as int]);
                crate::counts::lemma_map_of(bks, bvs);
                assert(other.line_counts.as_map().dom().contains(bks[i as int]));
                assert(v >= 1);
                crate::counts::lemma_get_le_total(&self.line_counts);
                crate::counts::lemma_sum_take_step(bvs, i as int);
                crate::counts::lemma_sum_take_le(bvs, i + 1);
                crate::counts::lemma_map_of(
                    self.line_counts.key_seq(),
                    self.line_counts.val_seq(),
                );
            }
            let ghost prev = self@;
            let is_new = !self.line_counts.contains_key(k.as_str());
            self.line_counts.bump(k.as_str(), v);
            let under_cap = self.matched_lines.len() < MAX_UNIQUE_LINES;
            let ghost keys0 = prev.line_order;
            let ghost keys1 = self.line_counts.key_seq();
            if is_new && under_cap {
                self.matched_lines.push(k.clone());
            }
            proof {
                assert(nat_map(self.line_counts) =~= bump_map(prev.lines, bks[i as int], v as nat));
                let deepm = cap_seq(keys0);
                if !is_new {
                    assert(keys1 == keys0);
                    assert(self.matched_lines.deep_view() =~= cap_seq(keys1));
                } else {
                    assert(keys1 == keys0.push(bks[i as int]));
                    if under_cap {
                        assert(deepm.len() < MAX_UNIQUE_LINES);
                        assert(keys0.len() <= MAX_UNIQUE_LINES ==> deepm == keys0);
                        assert(keys0.len() > MAX_UNIQUE_LINES ==> deepm.len() == MAX_UNIQUE_LINES);
                        assert(keys0.len() < MAX_UNIQUE_LINES);
                        assert(self.matched_lines.deep_view() =~= deepm.push(bks[i as int]));
                        assert(cap_seq(keys1) == keys1);
                        assert(self.matched_lines.deep_view() =~= cap_seq(keys1));
                    } else {
                        assert(deepm.len() >= MAX_UNIQUE_LINES);
                        assert(keys0.len() >= MAX_UNIQUE_LINES);
                        assert(cap_seq(keys1) =~= keys1.take(MAX_UNIQUE_LINES as int));
                        assert(keys1.take(MAX_UNIQUE_LINES as int) =~= keys0.take(
                            MAX_UNIQUE_LINES as int,
                        ));
                        assert(cap_seq(keys0) =~= keys0.take(MAX_UNIQUE_LINES as int));
                        assert(self.matched_lines.deep_view() =~= cap_seq(keys1));
                    }
                }
                assert(self@ =~= add_entry(prev, bks[i as int], v as nat));
                assert(bvs.take(i + 1).drop_last() =~= bvs.take(i as int));
            }
            i += 1;
        }
        proof {
            assert(bvs.take(n1 as int) =~= bvs);
            lemma_add_lines(a0, bks, bvs, 0);
            assert(bks.subrange(0, bks.len() as int) =~= bks);
            assert(bvs.subrange(0, bvs.len() as int) =~= bvs);
            assert(nat_map_of(bks, bvs) =~= b.lines);
            assert(self@.lines == add_maps(a.lines, b.lines));
            assert(self@.line_order == a.line_order + b.line_order.filter(
                |k: Seq<char>| !a.lines.dom().contains(k),
            ));
        }
        // tallies
        merge_counts(&mut self.time_trends, &other.time_trends);
        merge_counts(&mut self.levels_count, &other.levels_count);
        merge_counts(&mut self.error_types, &other.error_types);
        proof {
            lemma_add_counts(a.trends, other.time_trends.key_seq(), other.time_trends.val_seq(), 0);
            assert(other.time_trends.key_seq().subrange(0, other.time_trends.key_seq().len() as int)
                =~= other.time_trends.key_seq());
            assert(other.time_trends.val_seq().subrange(0, other.time_trends.val_seq().len() as int)
                =~= other.time_trends.val_seq());
            assert(nat_map_of(other.time_trends.key_seq(), other.time_trends.val_seq())
                =~= b.trends);
            lemma_add_counts(a.levels, other.levels_count.key_seq(), other.levels_count.val_seq(), 0);
            assert(other.levels_count.key_seq().subrange(
                0,
                other.levels_count.key_seq().len() as int,
            ) =~= other.levels_count.key_seq());
            assert(other.levels_count.val_seq().subrange(
                0,
                other.levels_count.val_seq().len() as int,
            ) =~= other.levels_count.val_seq());
            assert(nat_map_of(other.levels_count.key_seq(), other.levels_count.val_seq())
                =~= b.levels);
            lemma_add_counts(a.errors, other.error_types.key_seq(), other.error_types.val_seq(), 0);
            assert(other.error_types.key_seq().subrange(
                0,
                other.error_types.key_seq().len() as int,
            ) =~= other.error_types.key_seq());
            assert(other.error_types.val_seq().subrange(
                0,
                other.error_types.val_seq().len() as int,
            ) =~= other.error_types.val_seq());
            assert(nat_map_of(other.error_types.key_seq(), other.error_types.val_seq())
                =~= b.errors);
        }
        // unique messages
        let ghost bitems = other.unique_messages.item_seq();
        let ghost snap = *self;
        let n2 = other.unique_messages.len();
        let mut j: usize = 0;
        while j < n2
            invariant
                0 <= j <= n2,
                n2 == bitems.len(),
                bitems == other.unique_messages.item_seq(),
                self.unique_messages.wf(),
                self.count == snap.count,
                self.deduplicated == snap.deduplicated,
                self.matched_lines == snap.matched_lines,
                self.line_counts == snap.line_counts,
                self.time_trends == snap.time_trends,
                self.levels_count == snap.levels_count,
                self.error_types == snap.error_types,
                add_items(a.uniques, bitems, 0) == add_items(
                    self.unique_messages.as_set(),
                    bitems,
                    j as int,
                ),
            decreases n2 - j,
        {
            let item = other.unique_messages.item_at(j);
            self.unique_messages.insert(item.clone());
            j += 1;
        }
        proof {
            lemma_add_items(a.uniques, bitems, 0);
            assert(bitems.subrange(0, bitems.len() as int) =~= bitems);
            assert(self.unique_messages.as_set() == a.uniques.union(b.uniques));
            assert(final(self)@ =~= merge_model(a, b));
        }
    }
}

impl Default for AnalysisResult {
    fn default() -> (r: AnalysisResult)
        ensures
            r.wf(),
            r@ == empty_model(),
    {
        AnalysisResult::new()
    }
}

// ---------------------------------------------------------------------------
// The merge algebra
// ---------------------------------------------------------------------------
/// Pointwise sum of two counter maps.
pub open spec fn add_maps(m1: Map<Seq<char>, nat>, m2: Map<Seq<char>, nat>) -> Map<Seq<char>, nat> {
    Map::new(
        |k: Seq<char>| m1.dom().contains(k) || m2.dom().contains(k),
        |k: Seq<char>| (get0(m1, k) + get0(m2, k)) as nat,
    )
}

/// The merge of two aggregates: counts and tallies add, message sets unite,
/// and the sample order is the left order followed by the right order's
/// keys not already counted on the left.
pub open spec fn merge_model(a: ResultModel, b: ResultModel) -> ResultModel {
    ResultModel {
        count: (a.count + b.count) as nat,
        lines: add_maps(a.lines, b.lines),
        line_order: a.line_order + b.line_order.filter(
            |k: Seq<char>| !a.lines.dom().contains(k),
        ),
        trends: add_maps(a.trends, b.trends),
        levels: add_maps(a.levels, b.levels),
        errors: add_maps(a.errors, b.errors),
        uniques: a.uniques.union(b.uniques),
        dedup: a.dedup && b.dedup,
    }
}

/// The counter map denoted by key and value sequences.
pub open spec fn nat_map_of(ks: Seq<Seq<char>>, vs: Seq<usize>) -> Map<Seq<char>, nat> {
    Map::new(
        |k: Seq<char>| crate::counts::map_of(ks, vs).dom().contains(k),
        |k: Seq<char>| crate::counts::map_of(ks, vs)[k] as nat,
    )
}

/// Folding one line-count entry into an aggregate.
pub open spec fn add_entry(m: ResultModel, k: Seq<char>, v: nat) -> ResultModel {
    ResultModel {
        lines: bump_map(m.lines, k, v),
        line_order: if m.lines.dom().contains(k) {
            m.line_order
        } else {
            m.line_order.push(k)
        },
        ..m
    }
}

/// Folding a list of line-count entries into an aggregate, from position `i`.
pub open spec fn add_lines(m: ResultModel, ks: Seq<Seq<char>>, vs: Seq<usize>, i: int) -> ResultModel
    decreases ks.len() - i,
{
    if i < 0 || i >= ks.len() {
        m
    } else {
        add_lines(add_entry(m, ks[i], vs[i] as nat), ks, vs, i + 1)
    }
}

/// Folding a list of tally entries into a counter map, from position `i`.
pub open spec fn add_counts(m: Map<Seq<char>, nat>, ks: Seq<Seq<char>>, vs: Seq<usize>, i: int) -> Map<
    Seq<char>,
    nat,
>
    decreases ks.len() - i,
{
    if i < 0 || i >= ks.len() {
        m
    } else {
        add_counts(bump_map(m, ks[i], vs[i] as nat), ks, vs, i + 1)
    }
}

/// Folding a list of items into a set, from position `i`.
pub open spec fn add_items(s: Set<Seq<char>>, items: Seq<Seq<char>>, i: int) -> Set<Seq<char>>
    decreases items.len() - i,
{
    if i < 0 || i >= items.len() {
        s
    } else {
        add_items(s.insert(items[i]), items, i + 1)
    }
}

/// Filtering agrees under predicates that agree on the elements.
proof fn lemma_filter_agree(s: Seq<Seq<char>>, p1: spec_fn(Seq<char>) -> bool, p2: spec_fn(
    Seq<char>,
) -> bool)
    requires
        forall|i: int| 0 <= i < s.len() ==> p1(#[trigger] s[i]) == p2(s[i]),
    ensures
        s.filter(p1) == s.filter(p2),
    decreases s.len(),
{
    reveal(Seq::filter);
    if s.len() > 0 {
        lemma_filter_agree(s.drop_last(), p1, p2);
    }
}

/// The entry fold computes the pointwise sum and the merged sample order.
proof fn lemma_add_lines(m: ResultModel, ks: Seq<Seq<char>>, vs: Seq<usize>, i: int)
    requires
        0 <= i <= ks.len(),
        ks.len() == vs.len(),
        crate::counts::distinct_keys(ks),
    ensures
        add_lines(m, ks, vs, i).lines == add_maps(
            m.lines,
            nat_map_of(ks.subrange(i, ks.len() as int), vs.subrange(i, vs.len() as int)),
        ),
        add_lines(m, ks, vs, i).line_order == m.line_order + ks.subrange(
            i,
            ks.len() as int,
        ).filter(|k: Seq<char>| !m.lines.dom().contains(k)),
        add_lines(m, ks, vs, i).count == m.count,
        add_lines(m, ks, vs, i).trends == m.trends,
        add_lines(m, ks, vs, i).levels == m.levels,
        add_lines(m, ks, vs, i).errors == m.errors,
        add_lines(m, ks, vs, i).uniques == m.uniques,
        add_lines(m, ks, vs, i).dedup == m.dedup,
    decreases ks.len() - i,
{
    let n = ks.len() as int;
    let tail_ks = ks.subrange(i, n);
    let tail_vs = vs.subrange(i, n);
    crate::counts::lemma_map_of(tail_ks, tail_vs);
    reveal_with_fuel(Seq::filter, 3);
    if i == n {
        assert(tail_ks =~= Seq::<Seq<char>>::empty());
        assert(nat_map_of(tail_ks, tail_vs) =~= Map::<Seq<char>, nat>::empty());
        assert(add_maps(m.lines, nat_map_of(tail_ks, tail_vs)) =~= m.lines);
        assert(tail_ks.filter(|k: Seq<char>| !m.lines.dom().contains(k))
            =~= Seq::<Seq<char>>::empty());
        assert(m.line_order + Seq::<Seq<char>>::empty() =~= m.line_order);
    } else {
        let m2 = add_entry(m, ks[i], vs[i] as nat);
        lemma_add_lines(m2, ks, vs, i + 1);
        let tk2 = ks.subrange(i + 1, n);
        let tv2 = vs.subrange(i + 1, n);
        crate::counts::lemma_map_of(tk2, tv2);
        // the key at position i is fresh in the tail
        assert(forall|j: int| 0 <= j < tk2.len() ==> tk2[j] == ks[i + 1 + j]);
        assert(forall|j: int| 0 <= j < tk2.len() ==> tk2[j] != ks[i]);
        // maps: peeling the front entry inserts it
        assert(add_maps(m2.lines, nat_map_of(tk2, tv2)) =~= add_maps(
            m.lines,
            nat_map_of(tail_ks, tail_vs),
        )) by {
            assert forall|k: Seq<char>|
                nat_map_of(tail_ks, tail_vs).dom().contains(k) implies (k == ks[i]
                || nat_map_of(tk2, tv2).dom().contains(k)) by {
                let j = choose|j: int| 0 <= j < tail_ks.len() && tail_ks[j] == k;
                if j > 0 {
                    assert(tk2[j - 1] == tail_ks[j]);
                }
            }
            assert forall|k: Seq<char>| nat_map_of(tk2, tv2).dom().contains(k) implies nat_map_of(
                tail_ks,
                tail_vs,
            ).dom().contains(k) by {
                let j = choose|j: int| 0 <= j < tk2.len() && tk2[j] == k;
                assert(tail_ks[j + 1] == k);
            }
            assert(tail_ks[0] == ks[i] && tail_vs[0] == vs[i]);
            assert forall|k: Seq<char>|
                nat_map_of(tail_ks, tail_vs).dom().contains(k) && k != ks[i] implies nat_map_of(
                tail_ks,
                tail_vs,
            )[k] == nat_map_of(tk2, tv2)[k] by {
                let j = choose|j: int| 0 <= j < tail_ks.len() && tail_ks[j] == k;
                assert(j > 0);
                assert(tk2[j - 1] == k && tv2[j - 1] == tail_vs[j]);
            }
            assert(nat_map_of(tail_ks, tail_vs)[ks[i]] == vs[i] as nat);
        }
        // sample order: peeling the front entry appends it when fresh
        assert(tail_ks =~= seq![ks[i]] + tk2);
        assert(add_lines(m, ks, vs, i).line_order == m.line_order + tail_ks.filter(
            |k: Seq<char>| !m.lines.dom().contains(k),
        )) by {
            let p = |k: Seq<char>| !m.lines.dom().contains(k);
            let p2 = |k: Seq<char>| !m2.lines.dom().contains(k);
            assert forall|j: int| 0 <= j < tk2.len() implies p2(#[trigger] tk2[j]) == p(
                tk2[j],
            ) by {
                assert(tk2[j] != ks[i]);
            }
            lemma_filter_agree(tk2, p2, p);
            Seq::filter_distributes_over_add(seq![ks[i]], tk2, p);
            assert(seq![ks[i]].filter(p) =~= if p(ks[i]) {
                seq![ks[i]]
            } else {
                Seq::<Seq<char>>::empty()
            });
            if p(ks[i]) {
                assert(m2.line_order =~= m.line_order.push(ks[i]));
                assert(m.line_order + tail_ks.filter(p) =~= m2.line_order + tk2.filter(p2));
            } else {
                assert(m2.line_order == m.line_order);
                assert(m.line_order + tail_ks.filter(p) =~= m2.line_order + tk2.filter(p2));
            }
        }
    }
}

/// The tally fold computes the pointwise sum.
proof fn lemma_add_counts(m: Map<Seq<char>, nat>, ks: Seq<Seq<char>>, vs: Seq<usize>, i: int)
    requires
        0 <= i <= ks.len(),
        ks.len() == vs.len(),
        crate::counts::distinct_keys(ks),
    ensures
        add_counts(m, ks, vs, i) == add_maps(
            m,
            nat_map_of(ks.subrange(i, ks.len() as int), vs.subrange(i, vs.len() as int)),
        ),
    decreases ks.len() - i,
{
    let n = ks.len() as int;
    let tail_ks = ks.subrange(i, n);
    let tail_vs = vs.subrange(i, n);
    crate::counts::lemma_map_of(tail_ks, tail_vs);
    if i == n {
        assert(tail_ks =~= Seq::<Seq<char>>::empty());
        assert(nat_map_of(tail_ks, tail_vs) =~= Map::<Seq<char>, nat>::empty());
        assert(add_maps(m, nat_map_of(tail_ks, tail_vs)) =~= m);
    } else {
        let m2 = bump_map(m, ks[i], vs[i] as nat);
        lemma_add_counts(m2, ks, vs, i + 1);
        let tk2 = ks.subrange(i + 1, n);
        let tv2 = vs.subrange(i + 1, n);
        crate::counts::lemma_map_of(tk2, tv2);
        assert(forall|j: int| 0 <= j < tk2.len() ==> tk2[j] == ks[i + 1 + j]);
        assert(forall|j: int| 0 <= j < tk2.len() ==> tk2[j] != ks[i]);
        assert(add_maps(m2, nat_map_of(tk2, tv2)) =~= add_maps(
            m,
            nat_map_of(tail_ks, tail_vs),
        )) by {
            assert forall|k: Seq<char>|
                nat_map_of(tail_ks, tail_vs).dom().contains(k) implies (k == ks[i]
                || nat_map_of(tk2, tv2).dom().contains(k)) by {
                let j = choose|j: int| 0 <= j < tail_ks.len() && tail_ks[j] == k;
                if j > 0 {
                    assert(tk2[j - 1] == tail_ks[j]);
                }
            }
            assert forall|k: Seq<char>| nat_map_of(tk2, tv2).dom().contains(k) implies nat_map_of(
                tail_ks,
                tail_vs,
            ).dom().contains(k) by {
                let j = choose|j: int| 0 <= j < tk2.len() && tk2[j] == k;
                assert(tail_ks[j + 1] == k);
            }
            assert(tail_ks[0] == ks[i] && tail_vs[0] == vs[i]);
            assert forall|k: Seq<char>|
                nat_map_of(tail_ks, tail_vs).dom().contains(k) && k != ks[i] implies nat_map_of(
                tail_ks,
                tail_vs,
            )[k] == nat_map_of(tk2, tv2)[k] by {
                let j = choose|j: int| 0 <= j < tail_ks.len() && tail_ks[j] == k;
                assert(j > 0);
                assert(tk2[j - 1] == k && tv2[j - 1] == tail_vs[j]);
            }
            assert(nat_map_of(tail_ks, tail_vs)[ks[i]] == vs[i] as nat);
        }
    }
}

/// The item fold computes the union.
proof fn lemma_add_items(s: Set<Seq<char>>, items: Seq<Seq<char>>, i: int)
    requires
        0 <= i <= items.len(),
    ensures
        add_items(s, items, i) == s.union(
            crate::counts::set_of(items.subrange(i, items.len() as int)),
        ),
    decreases items.len() - i,
{
    let n = items.len() as int;
    let tail = items.subrange(i, n);
    crate::counts::lemma_set_of(tail);
    if i == n {
        assert(tail =~= Seq::<Seq<char>>::empty());
        assert(s.union(crate::counts::set_of(tail)) =~= s);
    } else {
        lemma_add_items(s.insert(items[i]), items, i + 1);
        let tail2 = items.subrange(i + 1, n);
        crate::counts::lemma_set_of(tail2);
        assert(s.insert(items[i]).union(crate::counts::set_of(tail2)) =~= s.union(
            crate::counts::set_of(tail),
        )) by {
            assert(tail[0] == items[i]);
            assert forall|k: Seq<char>|
                crate::counts::set_of(tail).contains(k) implies (k == items[i]
                || crate::counts::set_of(tail2).contains(k)) by {
                let j = choose|j: int| 0 <= j < tail.len() && tail[j] == k;
                if j > 0 {
                    assert(tail2[j - 1] == tail[j]);
                }
            }
            assert forall|k: Seq<char>|
                crate::counts::set_of(tail2).contains(k) implies crate::counts::set_of(
                tail,
            ).contains(k) by {
                let j = choose|j: int| 0 <= j < tail2.len() && tail2[j] == k;
                assert(tail[j + 1] == k);
            }
        }
    }
}

// ---------------------------------------------------------------------------
// The analyzer: configuration and the per-line filter pipeline
// ---------------------------------------------------------------------------
/// The filter and extraction configuration one analysis run works under.
pub struct LogAnalyzer {
    pub pattern_matcher: Option<CompiledPattern>,
    pub level_filter: Option<String>,
    pub parser: Option<AnyParser>,
    pub field_filters: KvMap<String>,
}

/// One field filter passes: the parsed field under the trimmed key equals
/// the trimmed value case-insensitively, or — when the parsed fields lack
/// the key — the raw line contains both key and value case-insensitively.
pub open spec fn pair_ok(parsed: ParsedModel, line: Seq<char>, kb0: Seq<u8>, vb0: Seq<u8>) -> bool {
    let kb = text::trim_of(kb0);
    let vb = text::trim_of(vb0);
    if parsed.fields.dom().contains(decode_utf8(kb)) {
        text::eq_ci(text::trim_of(encode_utf8(parsed.fields[decode_utf8(kb)])), vb)
    } else {
        text::has_sub_ci(encode_utf8(line), kb) && text::has_sub_ci(encode_utf8(line), vb)
    }
}

/// The extracted level passes the level filter.
pub open spec fn level_ok(level: Seq<char>, lf: Option<Seq<char>>) -> bool {
    match lf {
        None => true,
        Some(f) => level.len() > 0 && text::eq_ci(encode_utf8(level), encode_utf8(f)),
    }
}

impl LogAnalyzer {
    pub open spec fn wf(&self) -> bool {
        self.field_filters.wf()
    }

    /// What the configured parser extracts from the line.
    pub open spec fn spec_parsed(&self, line: Seq<char>) -> ParsedModel {
        match self.parser {
            Some(p) => p.spec_parse(line),
            None => ParsedLogLine::spec_default(),
        }
    }

    /// The level of a line: the parser's level uppercased when supplied,
    /// else the leftmost level token, else empty.
    pub open spec fn spec_level(&self, line: Seq<char>) -> Seq<char> {
        match self.spec_parsed(line).level {
            Some(l) => text::upper_ascii_of(l),
            None => match extract::level_of(encode_utf8(line)) {
                Some(w) => w,
                None => Seq::empty(),
            },
        }
    }

    /// The timestamp of a line: the parser's, else the leftmost
    /// timestamp-shaped substring.
    pub open spec fn spec_ts(&self, line: Seq<char>) -> Option<Seq<char>> {
        match self.spec_parsed(line).timestamp {
            Some(t) => Some(t),
            None => extract::ts_of(encode_utf8(line)),
        }
    }

    /// Every configured field filter passes.
    pub open spec fn spec_fields_ok(&self, parsed: ParsedModel, line: Seq<char>) -> bool {
        forall|i: int|
            0 <= i < self.field_filters.key_seq().len() ==> pair_ok(
                parsed,
                line,
                encode_utf8(#[trigger] self.field_filters.key_seq()[i]),
                encode_utf8(self.field_filters.as_map()[self.field_filters.key_seq()[i]]@),
            )
    }

    /// The pattern filter passes: an explicitly supplied compiled regex
    /// overrides the configured matcher; no pattern at all admits the line.
    pub open spec fn spec_pattern_ok(&self, line: Seq<char>, over: Option<regex::Regex>) -> bool {
        match over {
            Some(re) => regex_match(re, line),
            None => match self.pattern_matcher {
                Some(m) => m.spec_matches(line),
                None => true,
            },
        }
    }

    /// The whole filter pipeline admits the line: field filters, level
    /// filter and pattern filter all pass.
    pub open spec fn spec_admits(&self, line: Seq<char>, over: Option<regex::Regex>, lf: Option<
        Seq<char>,
    >) -> bool {
        &&& self.spec_fields_ok(self.spec_parsed(line), line)
        &&& level_ok(self.spec_level(line), lf)
        &&& self.spec_pattern_ok(line, over)
    }

    /// The stored level filter.
    pub open spec fn stored_lf(&self) -> Option<Seq<char>> {
        match self.level_filter {
            Some(s) => Some(s@),
            None => None,
        }
    }

    /// How one admitted or rejected line changes the aggregate.
    pub open spec fn step_line(&self, m: ResultModel, line: Seq<char>, trends: bool, stats: bool) -> ResultModel {
        if !self.spec_admits(line, None, self.stored_lf()) {
            m
        } else {
            let level = self.spec_level(line);
            let m1 = ResultModel {
                count: (m.count + 1) as nat,
                lines: bump_map(m.lines, line, 1),
                line_order: if m.lines.dom().contains(line) {
                    m.line_order
                } else {
                    m.line_order.push(line)
                },
                ..m
            };
            let m2 = if trends {
                match self.spec_ts(line) {
                    Some(ts) => ResultModel { trends: bump_map(m1.trends, hour_of(ts), 1), ..m1 },
                    None => m1,
                }
            } else {
                m1
            };
            if stats {
                let m3 = if level.len() > 0 {
                    ResultModel { levels: bump_map(m2.levels, level, 1), ..m2 }
                } else {
                    m2
                };
                let m4 = match extract::error_type_of(encode_utf8(line)) {
                    Some(e) => ResultModel { errors: bump_map(m3.errors, e, 1), ..m3 },
                    None => m3,
                };
                ResultModel {
                    uniques: m4.uniques.insert(extract::message_of(encode_utf8(line))),
                    ..m4
                }
            } else {
                m2
            }
        }
    }

    /// Folds the per-line step over a sequence of lines, left to right.
    pub open spec fn scan_strs(&self, ls: Seq<Seq<char>>, m: ResultModel, trends: bool, stats: bool) -> ResultModel
        decreases ls.len(),
    {
        if ls.len() == 0 {
            m
        } else {
            self.scan_strs(ls.drop_first(), self.step_line(m, ls[0], trends, stats), trends, stats)
        }
    }

    /// How one byte line changes the aggregate: a line that is not valid
    /// UTF-8 is skipped.
    pub open spec fn step_bytes(&self, m: ResultModel, bytes: Seq<u8>, trends: bool, stats: bool) -> ResultModel {
        if valid_utf8(bytes) {
            self.step_line(m, decode_utf8(bytes), trends, stats)
        } else {
            m
        }
    }

    /// Folds the per-line step over a sequence of byte lines.
    pub open spec fn scan_bytes(&self, ls: Seq<Seq<u8>>, m: ResultModel, trends: bool, stats: bool) -> ResultModel
        decreases ls.len(),
    {
        if ls.len() == 0 {
            m
        } else {
            self.scan_bytes(
                ls.drop_first(),
                self.step_bytes(m, ls[0], trends, stats),
                trends,
                stats,
            )
        }
    }
}

/// A timestamp truncated to date-and-hour granularity: its first thirteen
/// characters, when it is that long.
pub open spec fn hour_of(ts: Seq<char>) -> Seq<char> {
    if ts.len() >= 13 {
        ts.take(13)
    } else {
        ts
    }
}

// ---------------------------------------------------------------------------
// Line splitting
// ---------------------------------------------------------------------------
/// The field filters after reading a list of `key=value` arguments: each
/// argument with an equals sign contributes its trimmed key and value; the
/// rest are ignored.
pub open spec fn add_filters(filters: Seq<Seq<char>>, st: FlatState, i: int) -> FlatState
    decreases filters.len() - i,
{
    if i < 0 || i >= filters.len() {
        st
    } else {
        let fb = encode_utf8(filters[i]);
        let st2 = match extract::first_occ(fb, seq![61u8], 0) {
            Some(p) => {
                if 0 <= p < fb.len() {
                    flat_insert(
                        st,
                        decode_utf8(text::trim_of(fb.subrange(0, p))),
                        decode_utf8(text::trim_of(fb.subrange(p + 1, fb.len() as int))),
                    )
                } else {
                    st
                }
            },
            None => st,
        };
        add_filters(filters, st2, i + 1)
    }
}

/// Position of the first equals sign.
fn find_eq(t: &[u8]) -> (r: Option<usize>)
    ensures
        match r {
            Some(p) => Some(p as int) == extract::first_occ(t@, seq![61u8], 0) && p < t@.len()
                && t@[p as int] == 61,
            None => extract::first_occ(t@, seq![61u8], 0) is None,
        },
{
    match text::find_byte(t, 61) {
        Some(i) => {
            proof {
                assert(t@.subrange(i as int, i + 1 as int) =~= seq![61u8]);
                assert(text::match_at(t@, seq![61u8], i as int));
                assert forall|j: int| 0 <= j < i implies !text::match_at(t@, seq![61u8], j) by {
                    assert(t@.subrange(j, j + 1)[0] == t@[j]);
                }
                extract::lemma_first_occ_is(t@, seq![61u8], 0, i as int);
            }
            Some(i)
        },
        None => {
            proof {
                if extract::first_occ(t@, seq![61u8], 0) is Some {
                    extract::lemma_first_occ(t@, seq![61u8], 0);
                    let j = extract::first_occ(t@, seq![61u8], 0)->Some_0;
                    assert(t@.subrange(j, j + 1)[0] == t@[j]);
                }
            }
            None
        },
    }
}

impl LogAnalyzer {
    /// A fresh analyzer with no filters, no pattern and no parser.
    pub fn new() -> (r: LogAnalyzer)
        ensures
            r.wf(),
            r.pattern_matcher is None,
            r.level_filter is None,
            r.parser is None,
            r.field_filters.key_seq() =~= Seq::<Seq<char>>::empty(),
    {
        LogAnalyzer {
            pattern_matcher: None,
            level_filter: None,
            parser: None,
            field_filters: KvMap::new(),
        }
    }

    /// Sets the line-format parser the pipeline consults first.
    pub fn set_parser(&mut self, parser: AnyParser)
        ensures
            final(self).parser == Some(parser),
            final(self).pattern_matcher == old(self).pattern_matcher,
            final(self).level_filter == old(self).level_filter,
            final(self).field_filters == old(self).field_filters,
    {
        self.parser = Some(parser);
    }

    /// Reads field filters given as `key=value` arguments.
    pub fn set_field_filters(&mut self, field_filters: Vec<String>)
        requires
            old(self).wf(),
        ensures
            final(self).wf(),
            state_of(final(self).field_filters) == add_filters(
                field_filters.deep_view(),
                state_of(old(self).field_filters),
                0,
            ),
            final(self).pattern_matcher == old(self).pattern_matcher,
            final(self).level_filter == old(self).level_filter,
            final(self).parser == old(self).parser,
    {
        let n = field_filters.len();
        let mut i: usize = 0;
        while i < n
            invariant
                0 <= i <= n,
                n == field_filters@.len(),
                field_filters.deep_view().len() == n,
                self.wf(),
                add_filters(field_filters.deep_view(), state_of(old(self).field_filters), 0)
                    == add_filters(field_filters.deep_view(), state_of(self.field_filters), i as int),
                self.pattern_matcher == old(self).pattern_matcher,
                self.level_filter == old(self).level_filter,
                self.parser == old(self).parser,
            decreases n - i,
        {
            proof {
                assert(field_filters.deep_view()[i as int] == field_filters@[i as int]@);
            }
            let f = &field_filters[i];
            let fb = f.as_str().as_bytes();
            let fblen = fb.len();
            if let Some(p) = find_eq(fb) {
                assert(p < fblen);
                proof {
                    vstd::utf8::encode_utf8_valid_utf8(f@);
                    text::lemma_mid_valid(fb@, 0, p as int);
                    text::lemma_mid_valid(fb@, p + 1, fb@.len() as int);
                    text::lemma_trim_valid(fb@.subrange(0, p as int));
                    text::lemma_trim_valid(fb@.subrange(p + 1, fb@.len() as int));
                }
                let kb = text::trim_slice(vstd::slice::slice_subrange(fb, 0, p));
                let vb = text::trim_slice(vstd::slice::slice_subrange(fb, p + 1, fblen));
                let ghost st_before = state_of(self.field_filters);
                match (text::utf8_str(kb), text::utf8_str(vb)) {
                    (Some(k), Some(v)) => {
                        self.field_filters.insert(k, v.to_owned());
                        proof {
                            assert(state_of(self.field_filters).m =~= flat_insert(
                                st_before,
                                k@,
                                v@,
                            ).m);
                            assert(state_of(self.field_filters).ks =~= flat_insert(
                                st_before,
                                k@,
                                v@,
                            ).ks);
                        }
                    },
                    _ => {
                        proof {
                            assert(false);
                        }
                    },
                }
            }
            i += 1;
        }
    }

    /// Configures the pattern matcher and the level filter. A simple pattern
    /// gets accelerated substring matching; a pattern with any regex
    /// metacharacter is compiled, and exactly the malformed ones are
    /// rejected.
    pub fn configure(&mut self, pattern: Option<&str>, level_filter: Option<&str>) -> (r: Result<
        (),
        PatternError,
    >)
        ensures
            (match pattern {
                Some(p) => spec_complex(p@) && !regex_valid(p@),
                None => false,
            }) <==> r is Err,
            r is Err ==> *final(self) == *old(self),
            final(self).field_filters == old(self).field_filters,
            final(self).parser == old(self).parser,
            r is Ok ==> final(self).stored_lf() == (match level_filter {
                Some(l) => Some(l@),
                None => None::<Seq<char>>,
            }),
            r is Ok ==> (match pattern {
                None => final(self).pattern_matcher is None,
                Some(p) => match final(self).pattern_matcher {
                    Some(m) => (m matches CompiledPattern::Accelerated(am) && !spec_complex(p@)
                        && am.pattern@ == p@) || (m matches CompiledPattern::Re(rm)
                        && spec_complex(p@) && regex_source(rm.regex) == p@
                        && re_matches_default(rm, p@)),
                    None => false,
                },
            }),
    {
        let matcher: Option<CompiledPattern> = match pattern {
            Some(p) => {
                if is_complex_pattern(p) {
                    match RegexMatcher::new(p) {
                        Ok(m) => Some(CompiledPattern::Re(m)),
                        Err(e) => {
                            return Err(e);
                        },
                    }
                } else {
                    Some(CompiledPattern::Accelerated(SimdLiteralMatcher::new(p)))
                }
            },
            None => None,
        };
        self.pattern_matcher = matcher;
        self.level_filter = match level_filter {
            Some(l) => Some(l.to_owned()),
            None => None,
        };
        Ok(())
    }

    /// Extracts the classified error signature of a line.
    pub fn extract_error_type(&self, line: &str) -> (r: Option<String>)
        ensures
            match r {
                Some(s) => extract::error_type_of(encode_utf8(line@)) == Some(s@),
                None => extract::error_type_of(encode_utf8(line@)) is None,
            },
    {
        proof {
            vstd::utf8::encode_utf8_valid_utf8(line@);
        }
        extract::extract_error_type(line.as_bytes())
    }

    /// Decides the field filters against one line.
    fn fields_ok_exec(&self, parsed: &ParsedLogLine, line: &str) -> (r: bool)
        requires
            self.wf(),
            parsed.wf(),
        ensures
            r == self.spec_fields_ok(parsed@, line@),
    {
        let n = self.field_filters.len();
        let mut i: usize = 0;
        while i < n
            invariant
                0 <= i <= n,
                self.wf(),
                parsed.wf(),
                n == self.field_filters.key_seq().len(),
                forall|j: int|
                    0 <= j < i ==> pair_ok(
                        parsed@,
                        line@,
                        encode_utf8(#[trigger] self.field_filters.key_seq()[j]),
                        encode_utf8(
                            self.field_filters.as_map()[self.field_filters.key_seq()[j]]@,
                        ),
                    ),
            decreases n - i,
        {
            let k = self.field_filters.key_at(i);
            let v = self.field_filters.val_at(i);
            proof {
                vstd::utf8::encode_utf8_valid_utf8(k@);
                text::lemma_trim_valid(encode_utf8(k@));
            }
            let kb = text::trim_slice(k.as_str().as_bytes());
            let vb = text::trim_slice(v.as_str().as_bytes());
            let kt = match text::utf8_str(kb) {
                Some(s) => s,
                None => {
                    proof {
                        assert(false);
                    }
                    k.as_str()
                },
            };
            let pair_passes = match parsed.fields.get(kt) {
                Some(fv) => {
                    let ft = text::trim_slice(fv.as_str().as_bytes());
                    text::eq_ignore_case(ft, vb)
                },
                None => {
                    text::contains_ci(line.as_bytes(), kb) && text::contains_ci(
                        line.as_bytes(),
                        vb,
                    )
                },
            };
            if !pair_passes {
                assert(!pair_ok(
                    parsed@,
                    line@,
                    encode_utf8(self.field_filters.key_seq()[i as int]),
                    encode_utf8(self.field_filters.as_map()[self.field_filters.key_seq()[i as int]]@),
                ));
                return false;
            }
            i += 1;
        }
        true
    }

    /// Runs one line through the filter pipeline. An admitted line comes
    /// back with its extracted level and — when trends are collected — its
    /// timestamp.
    pub fn analyze_line(&self, line: &str, pattern: Option<&regex::Regex>, level_filter: Option<
        &str,
    >, collect_trends: bool, _collect_stats: bool) -> (r: Option<(String, String, Option<String>)>)
        requires
            self.wf(),
        ensures
            ({
                let over = match pattern {
                    Some(re) => Some(*re),
                    None => None::<regex::Regex>,
                };
                let lf = match level_filter {
                    Some(f) => Some(f@),
                    None => None::<Seq<char>>,
                };
                match r {
                    Some(t) => self.spec_admits(line@, over, lf) && t.0@ == line@ && t.1@
                        == self.spec_level(line@) && (if collect_trends {
                        match t.2 {
                            Some(s) => self.spec_ts(line@) == Some(s@),
                            None => self.spec_ts(line@) is None,
                        }
                    } else {
                        t.2 is None
                    }),
                    None => !self.spec_admits(line@, over, lf),
                }
            }),
    {
        let parsed = match &self.parser {
            Some(p) => p.parse_line(line),
            None => ParsedLogLine::default(),
        };
        if !self.fields_ok_exec(&parsed, line) {
            return None;
        }
        let level: String = match &parsed.level {
            Some(l) => text::upper_ascii(l.as_str()),
            None => match extract::extract_level(line.as_bytes()) {
                Some(s) => s,
                None => String::new(),
            },
        };
        let level_matches = match level_filter {
            None => true,
            Some(f) => !level.as_str().is_empty() && text::eq_ignore_case(
                level.as_str().as_bytes(),
                f.as_bytes(),
            ),
        };
        let pattern_matches = match pattern {
            Some(re) => regex_is_match(re, line),
            None => match &self.pattern_matcher {
                Some(m) => m.is_match(line),
                None => true,
            },
        };
        if level_matches && pattern_matches {
            let timestamp: Option<String> = if collect_trends {
                match parsed.timestamp {
                    Some(t) => Some(t),
                    None => extract::extract_timestamp(line.as_bytes()),
                }
            } else {
                None
            };
            Some((line.to_owned(), level, timestamp))
        } else {
            None
        }
    }
}

impl LogAnalyzer {
    /// Runs one line through the pipeline and records it into the aggregate
    /// when admitted.
    #[verifier::rlimit(50)]
    pub fn process_line(&self, line: &str, result: &mut AnalysisResult, collect_trends: bool, collect_stats: bool)
        requires
            self.wf(),
            old(result).wf(),
            old(result)@.count + 1 <= usize::MAX,
        ensures
            final(result).wf(),
            final(result)@ == self.step_line(old(result)@, line@, collect_trends, collect_stats),
    {
        let ghost m0 = old(result)@;
        let lf: Option<&str> = match &self.level_filter {
            Some(s) => Some(s.as_str()),
            None => None,
        };
        match self.analyze_line(line, None, lf, collect_trends, collect_stats) {
            None => {
                proof {
                    assert(final(result)@ =~= self.step_line(m0, line@, collect_trends, collect_stats));
                }
            },
            Some(t) => {
                let (matched, level, ts_opt) = t;
                result.count = result.count + 1;
                let is_new = !result.line_counts.contains_key(matched.as_str());
                proof {
                    crate::counts::lemma_get_le_total(&result.line_counts);
                }
                proof {
                    crate::counts::lemma_map_of(
                        result.line_counts.key_seq(),
                        result.line_counts.val_seq(),
                    );
                }
                result.line_counts.bump(matched.as_str(), 1);
                let under_cap = result.matched_lines.len() < MAX_UNIQUE_LINES;
                let ghost deep0 = old(result).matched_lines.deep_view();
                let ghost keys0 = m0.line_order;
                let ghost keys1 = result.line_counts.key_seq();
                if is_new && under_cap {
                    result.matched_lines.push(matched);
                }
                proof {
                    assert(nat_map(result.line_counts) =~= bump_map(m0.lines, line@, 1));
                    if !is_new {
                        assert(keys1 == keys0);
                        assert(result.matched_lines.deep_view() =~= cap_seq(keys1));
                    } else {
                        assert(keys1 == keys0.push(line@));
                        if under_cap {
                            assert(deep0.len() < MAX_UNIQUE_LINES);
                            assert(keys0.len() <= MAX_UNIQUE_LINES ==> deep0 == keys0);
                            assert(keys0.len() > MAX_UNIQUE_LINES ==> deep0.len()
                                == MAX_UNIQUE_LINES);
                            assert(keys0.len() < MAX_UNIQUE_LINES);
                            assert(result.matched_lines.deep_view() =~= deep0.push(line@));
                            assert(cap_seq(keys1) == keys1);
                            assert(result.matched_lines.deep_view() =~= cap_seq(keys1));
                        } else {
                            assert(deep0.len() >= MAX_UNIQUE_LINES);
                            assert(keys0.len() >= MAX_UNIQUE_LINES);
                            assert(cap_seq(keys1) =~= keys1.take(MAX_UNIQUE_LINES as int));
                            assert(keys1.take(MAX_UNIQUE_LINES as int) =~= keys0.take(
                                MAX_UNIQUE_LINES as int,
                            ));
                            assert(cap_seq(keys0) =~= keys0.take(MAX_UNIQUE_LINES as int));
                            assert(result.matched_lines.deep_view() =~= cap_seq(keys1));
                        }
                    }
                }
                if collect_trends {
                    if let Some(ts) = ts_opt {
                        let hour = hour_exec(ts);
                        proof {
                            crate::counts::lemma_get_le_total(&result.time_trends);
                        }
                        result.time_trends.bump(hour.as_str(), 1);
                        proof {
                            assert(nat_map(result.time_trends) =~= bump_map(
                                m0.trends,
                                hour@,
                                1,
                            ));
                        }
                    }
                }
                if collect_stats {
                    if !level.as_str().is_empty() {
                        proof {
                            crate::counts::lemma_get_le_total(&result.levels_count);
                        }
                        result.levels_count.bump(level.as_str(), 1);
                        proof {
                            assert(nat_map(result.levels_count) =~= bump_map(
                                m0.levels,
                                level@,
                                1,
                            ));
                        }
                    }
                    proof {
                        vstd::utf8::encode_utf8_valid_utf8(line@);
                    }
                    match extract::extract_error_type(line.as_bytes()) {
                        Some(e) => {
                            proof {
                                crate::counts::lemma_get_le_total(&result.error_types);
                            }
                            result.error_types.bump(e.as_str(), 1);
                            proof {
                                assert(nat_map(result.error_types) =~= bump_map(
                                    m0.errors,
                                    e@,
                                    1,
                                ));
                            }
                        },
                        None => {},
                    }
                    match extract::extract_message(line.as_bytes()) {
                        Some(msg) => {
                            result.unique_messages.insert(msg);
                        },
                        None => {
                            proof {
                                assert(false);
                            }
                        },
                    }
                }
                proof {
                    assert(final(result)@ =~= self.step_line(m0, line@, collect_trends, collect_stats));
                }
            },
        }
    }

    /// Scans the non-empty lines of a byte buffer into the aggregate,
    /// skipping lines that are not valid UTF-8. However many lines the
    /// buffer holds, the sample stays capped, and the occurrence counts
    /// still sum to the total count.
    pub fn process_chunk_data(&self, data: &[u8], result: &mut AnalysisResult, collect_trends: bool, collect_stats: bool)
        requires
            self.wf(),
            old(result).wf(),
            old(result)@.count + split_lines(data@).len() <= usize::MAX,
        ensures
            final(result).wf(),
            final(result)@ == self.scan_bytes(
                split_lines(data@),
                old(result)@,
                collect_trends,
                collect_stats,
            ),
            final(result).matched_lines@.len() <= MAX_UNIQUE_LINES,
            final(result).line_counts.total() == final(result)@.count,
    {
        let n = data.len();
        proof {
            assert(data@.subrange(0, n as int) =~= data@);
        }
        let mut pos: usize = 0;
        while pos < n
            invariant
                0 <= pos <= n,
                n == data@.len(),
                self.wf(),
                result.wf(),
                result@.count + split_lines(data@.subrange(pos as int, n as int)).len()
                    <= usize::MAX,
                self.scan_bytes(
                    split_lines(data@),
                    old(result)@,
                    collect_trends,
                    collect_stats,
                ) == self.scan_bytes(
                    split_lines(data@.subrange(pos as int, n as int)),
                    result@,
                    collect_trends,
                    collect_stats,
                ),
            decreases n - pos,
        {
            let rest = vstd::slice::slice_subrange(data, pos, n);
            let ghost d = rest@;
            proof {
                lemma_first_nl(d, 0);
            }
            match text::find_byte(rest, 10) {
                Some(i) => {
                    proof {
                        assert(first_nl(d, 0) == Some(i as int));
                        lemma_split_len(d.subrange(i + 1, d.len() as int));
                        assert(d.subrange(i + 1, d.len() as int) =~= data@.subrange(
                            pos + i + 1,
                            n as int,
                        ));
                    }
                    if i > 0 {
                        let seg = vstd::slice::slice_subrange(rest, 0, i);
                        proof {
                            lemma_split_len(d);
                        }
                        match text::utf8_str(seg) {
                            Some(s) => {
                                self.process_line(s, result, collect_trends, collect_stats);
                            },
                            None => {},
                        }
                        proof {
                            assert(split_lines(d) =~= seq![d.subrange(0, i as int)]
                                + split_lines(d.subrange(i + 1, d.len() as int)));
                            assert(split_lines(d).drop_first() =~= split_lines(
                                d.subrange(i + 1, d.len() as int),
                            ));
                        }
                    } else {
                        proof {
                            assert(split_lines(d) =~= split_lines(
                                d.subrange(i + 1, d.len() as int),
                            ));
                        }
                    }
                    pos = pos + i + 1;
                },
                None => {
                    proof {
                        assert(first_nl(d, 0) is None);
                        assert(split_lines(d) =~= seq![d]);
                        assert(split_lines(d).drop_first() =~= Seq::<Seq<u8>>::empty());
                    }
                    match text::utf8_str(rest) {
                        Some(s) => {
                            self.process_line(s, result, collect_trends, collect_stats);
                        },
                        None => {},
                    }
                    pos = n;
                    proof {
                        assert(data@.subrange(pos as int, n as int).len() == 0);
                    }
                },
            }
        }
        proof {
            assert(data@.subrange(pos as int, n as int).len() == 0);
            assert(split_lines(data@.subrange(pos as int, n as int)) =~= Seq::<Seq<u8>>::empty());
            assert(result.matched_lines.deep_view().len() == result.matched_lines@.len());
        }
    }
}

/// A timestamp truncated to its first thirteen characters.
fn hour_exec(ts: String) -> (r: String)
    ensures
        r@ == hour_of(ts@),
{
    if ts.as_str().unicode_len() >= 13 {
        ts.as_str().substring_char(0, 13).to_owned()
    } else {
        ts
    }
}

/// Position of the first newline at or after offset `i`.
pub open spec fn first_nl(d: Seq<u8>, i: int) -> Option<int>
    decreases d.len() - i,
{
    if i < 0 || i >= d.len() {
        None
    } else if d[i] == 10 {
        Some(i)
    } else {
        first_nl(d, i + 1)
    }
}

/// The non-empty lines of a byte buffer, split at newlines.
pub open spec fn split_lines(d: Seq<u8>) -> Seq<Seq<u8>>
    decreases d.len(),
{
    if d.len() == 0 {
        Seq::empty()
    } else {
        match first_nl(d, 0) {
            None => seq![d],
            Some(i) => {
                if 0 <= i < d.len() {
                    let rest = split_lines(d.subrange(i + 1, d.len() as int));
                    if i > 0 {
                        seq![d.subrange(0, i)] + rest
                    } else {
                        rest
                    }
                } else {
                    Seq::empty()
                }
            },
        }
    }
}

/// There are no more lines than bytes.
pub proof fn lemma_split_len(d: Seq<u8>)
    ensures
        split_lines(d).len() <= d.len(),
    decreases d.len(),
{
    if d.len() > 0 {
        lemma_first_nl(d, 0);
        match first_nl(d, 0) {
            None => {},
            Some(i) => {
                lemma_split_len(d.subrange(i + 1, d.len() as int));
            },
        }
    }
}

/// Splitting distributes over concatenation at a newline boundary.
pub proof fn lemma_split_concat(u: Seq<u8>, v: Seq<u8>)
    requires
        u.len() == 0 || u.last() == 10,
    ensures
        split_lines(u + v) == split_lines(u) + split_lines(v),
    decreases u.len(),
{
    if u.len() == 0 {
        assert(u + v =~= v);
        assert(split_lines(u) =~= Seq::<Seq<u8>>::empty());
        assert(Seq::<Seq<u8>>::empty() + split_lines(v) =~= split_lines(v));
    } else {
        lemma_first_nl(u, 0);
        lemma_first_nl(u + v, 0);
        assert(u[u.len() - 1] == 10);
        let fi = first_nl(u, 0);
        if fi is None {
            assert(u[u.len() - 1] != 10);
        }
        let i = fi->Some_0;
        assert(0 <= i < u.len() && u[i] == 10);
        assert((u + v)[i] == 10);
        let fj = first_nl(u + v, 0);
        if fj is None {
            assert((u + v)[i] != 10);
        }
        let j = fj->Some_0;
        assert(j == i) by {
            if j < i {
                assert((u + v)[j] == 10);
                assert(u[j] == 10);
            }
            if j > i {
                assert((u + v)[i] != 10);
            }
        }
        let u2 = u.subrange(i + 1, u.len() as int);
        assert((u + v).subrange(0, i) =~= u.subrange(0, i));
        assert((u + v).subrange(i + 1, (u + v).len() as int) =~= u2 + v);
        if u2.len() > 0 {
            assert(u2.last() == u.last());
        }
        lemma_split_concat(u2, v);
        if i > 0 {
            assert(split_lines(u + v) =~= seq![u.subrange(0, i)] + (split_lines(u2) + split_lines(
                v,
            )));
            assert(split_lines(u) =~= seq![u.subrange(0, i)] + split_lines(u2));
            assert(seq![u.subrange(0, i)] + (split_lines(u2) + split_lines(v)) =~= (seq![
                u.subrange(0, i),
            ] + split_lines(u2)) + split_lines(v));
        } else {
            assert(split_lines(u + v) =~= split_lines(u2) + split_lines(v));
            assert(split_lines(u) =~= split_lines(u2));
        }
    }
}

/// The first-newline scan finds the leftmost newline.
pub proof fn lemma_first_nl(d: Seq<u8>, i: int)
    requires
        0 <= i <= d.len(),
    ensures
        match first_nl(d, i) {
            Some(j) => i <= j < d.len() && d[j] == 10 && forall|x: int| i <= x < j ==> d[x] != 10,
            None => forall|x: int| i <= x < d.len() ==> d[x] != 10,
        },
    decreases d.len() - i,
{
    if i < d.len() && d[i] != 10 {
        lemma_first_nl(d, i + 1);
    }
}

} // verus!
