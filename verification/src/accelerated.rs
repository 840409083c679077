//! Accelerated substring matching and the matcher factory: simple patterns
//! get the vector-accelerated search primitive, complex ones a compiled
//! regular expression.
use vstd::prelude::*;
use vstd::utf8::encode_utf8;
use crate::analyzer::CompiledPattern;
use crate::analyzer::PatternError;
use crate::analyzer::PatternMatcher;
use crate::analyzer::RegexMatcher;
use crate::analyzer::is_complex_pattern;
use crate::analyzer::regex_source;
use crate::analyzer::regex_valid;
use crate::analyzer::spec_complex;
use crate::extract;
use crate::text;

pub mod line_processing;

verus! {

/// Substring matching through the vector-accelerated search primitive, with
/// a plain fallback for patterns too short to benefit.
pub struct SimdLiteralMatcher {
    pub pattern: String,
}

/// Patterns shorter than this take the plain path.
pub const MIN_ACCEL_PATTERN: usize = 3;

impl SimdLiteralMatcher {
    pub fn new(pattern: &str) -> (r: SimdLiteralMatcher)
        ensures
            r.pattern@ == pattern@,
    {
        SimdLiteralMatcher { pattern: pattern.to_owned() }
    }
}

impl PatternMatcher for SimdLiteralMatcher {
    /// Containment of the pattern's bytes in the line's bytes: the
    /// accelerated and the plain path decide the same predicate.
    open spec fn spec_matches(&self, text: Seq<char>) -> bool {
        text::has_sub(encode_utf8(text), encode_utf8(self.pattern@))
    }

    fn is_match(&self, text: &str) -> (r: bool) {
        let pb = self.pattern.as_str().as_bytes();
        if pb.len() >= MIN_ACCEL_PATTERN {
            text::find_sub(text.as_bytes(), pb).is_some()
        } else {
            extract::contains_sub(text.as_bytes(), pb)
        }
    }
}

/// Chooses the cheapest adequate matcher for a pattern.
pub struct PatternMatcherFactory;

impl PatternMatcherFactory {
    /// A pattern with any regex metacharacter is compiled — exactly the
    /// malformed ones are rejected — and any other pattern gets accelerated
    /// substring matching.
    pub fn create(pattern: &str) -> (r: Result<CompiledPattern, PatternError>)
        ensures
            r is Err <==> spec_complex(pattern@) && !regex_valid(pattern@),
            match r {
                Ok(m) => (m matches CompiledPattern::Accelerated(am) && !spec_complex(pattern@)
                    && am.pattern@ == pattern@) || (m matches CompiledPattern::Re(rm)
                    && spec_complex(pattern@) && regex_source(rm.regex) == pattern@
                    && crate::analyzer::re_matches_default(rm, pattern@)),
                Err(e) => e == PatternError::InvalidRegex,
            },
    {
        if is_complex_pattern(pattern) {
            match RegexMatcher::new(pattern) {
                Ok(m) => Ok(CompiledPattern::Re(m)),
                Err(e) => Err(e),
            }
        } else {
            Ok(CompiledPattern::Accelerated(SimdLiteralMatcher::new(pattern)))
        }
    }
}

} // verus!
