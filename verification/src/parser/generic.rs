//! Generic log parser: level and timestamp heuristics over plain text lines.
use vstd::prelude::*;
use vstd::string::StringSliceAdditionalSpecFns;
use crate::counts::KvMap;
use crate::extract;
use crate::parser::LogParser;
use crate::parser::ParsedLogLine;
use crate::parser::ParsedModel;

verus! {

/// Parser for standard plain-text log formats; the fallback for any input.
#[derive(Clone, Copy)]
pub struct GenericLogParser;

impl LogParser for GenericLogParser {
    /// The generic parser accepts any sample.
    open spec fn spec_can_parse(&self, lines: Seq<Seq<char>>) -> bool {
        true
    }

    /// The level token and the hour-truncated timestamp found in the line,
    /// with the whole line as the message.
    open spec fn spec_parse(&self, line: Seq<char>) -> ParsedModel {
        let bytes = vstd::utf8::encode_utf8(line);
        ParsedModel {
            timestamp: extract::ts_trunc_of(bytes),
            level: extract::level_of(bytes),
            message: Some(line),
            fields: Map::empty(),
        }
    }

    fn name(&self) -> &'static str {
        "Generic"
    }

    fn can_parse(&self, sample_lines: &[&str]) -> (r: bool) {
        true
    }

    fn parse_line(&self, line: &str) -> (r: ParsedLogLine) {
        let bytes = line.as_bytes();
        let level = extract::extract_level(bytes);
        let timestamp = extract::extract_timestamp_trunc(bytes);
        let r = ParsedLogLine {
            timestamp,
            level,
            message: Some(line.to_owned()),
            fields: KvMap::new(),
        };
        proof {
            assert(crate::parser::deep_fields(r.fields) =~= Map::<Seq<char>, Seq<char>>::empty());
        }
        r
    }
}

} // verus!
