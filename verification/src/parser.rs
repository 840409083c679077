//! The pluggable line-format parsers: a structured representation of one
//! parsed line, the parser interface, and a registry that detects the format
//! of a sample of lines.
use vstd::prelude::*;
use crate::counts::KvMap;

pub mod generic;
pub mod json;

verus! {

/// What a parser extracted from one line.
pub struct ParsedModel {
    pub timestamp: Option<Seq<char>>,
    pub level: Option<Seq<char>>,
    pub message: Option<Seq<char>>,
    pub fields: Map<Seq<char>, Seq<char>>,
}

/// Structured representation of a parsed log line.
pub struct ParsedLogLine {
    pub timestamp: Option<String>,
    pub level: Option<String>,
    pub message: Option<String>,
    pub fields: KvMap<String>,
}

/// The field map with values read as character sequences.
pub open spec fn deep_fields(m: KvMap<String>) -> Map<Seq<char>, Seq<char>> {
    Map::new(
        |k: Seq<char>| m.as_map().dom().contains(k),
        |k: Seq<char>| m.as_map()[k]@,
    )
}

impl View for ParsedLogLine {
    type V = ParsedModel;

    open spec fn view(&self) -> ParsedModel {
        ParsedModel {
            timestamp: match self.timestamp {
                Some(s) => Some(s@),
                None => None,
            },
            level: match self.level {
                Some(s) => Some(s@),
                None => None,
            },
            message: match self.message {
                Some(s) => Some(s@),
                None => None,
            },
            fields: deep_fields(self.fields),
        }
    }
}

impl ParsedLogLine {
    /// The field container is well formed.
    pub open spec fn wf(&self) -> bool {
        self.fields.wf()
    }

    /// An empty parse: no structured data extracted.
    pub open spec fn spec_default() -> ParsedModel {
        ParsedModel {
            timestamp: None,
            level: None,
            message: None,
            fields: Map::empty(),
        }
    }
}

impl Default for ParsedLogLine {
    fn default() -> (r: ParsedLogLine)
        ensures
            r.wf(),
            r@ == ParsedLogLine::spec_default(),
    {
        let r = ParsedLogLine {
            timestamp: None,
            level: None,
            message: None,
            fields: KvMap::new(),
        };
        proof {
            assert(deep_fields(r.fields) =~= Map::<Seq<char>, Seq<char>>::empty());
        }
        r
    }
}

/// Log format types this library recognises.
#[derive(Debug, Clone, Copy, PartialEq, Eq, Structural)]
pub enum LogFormat {
    Generic,
    Json,
    Apache,
    Syslog,
}

/// The interface every line-format parser implements.
pub trait LogParser: Sized {
    /// What this parser accepts as its format, of a sample of lines.
    spec fn spec_can_parse(&self, lines: Seq<Seq<char>>) -> bool;

    /// What this parser extracts from one line.
    spec fn spec_parse(&self, line: Seq<char>) -> ParsedModel;

    /// The name of the parser.
    fn name(&self) -> &'static str;

    /// Whether this parser can handle the given log format, judged on
    /// sample lines.
    fn can_parse(&self, sample_lines: &[&str]) -> (r: bool)
        ensures
            r == self.spec_can_parse(sample_lines.deep_view()),
    ;

    /// Parses a single line into structured data.
    fn parse_line(&self, line: &str) -> (r: ParsedLogLine)
        ensures
            r.wf(),
            r@ == self.spec_parse(line@),
    ;
}

/// A closed choice among the registered parser implementations.
#[derive(Clone, Copy)]
pub enum AnyParser {
    Generic(generic::GenericLogParser),
    Json(json::JsonLogParser),
}

impl LogParser for AnyParser {
    open spec fn spec_can_parse(&self, lines: Seq<Seq<char>>) -> bool {
        match self {
            AnyParser::Generic(p) => p.spec_can_parse(lines),
            AnyParser::Json(p) => p.spec_can_parse(lines),
        }
    }

    open spec fn spec_parse(&self, line: Seq<char>) -> ParsedModel {
        match self {
            AnyParser::Generic(p) => p.spec_parse(line),
            AnyParser::Json(p) => p.spec_parse(line),
        }
    }

    fn name(&self) -> &'static str {
        match self {
            AnyParser::Generic(p) => p.name(),
            AnyParser::Json(p) => p.name(),
        }
    }

    fn can_parse(&self, sample_lines: &[&str]) -> (r: bool) {
        match self {
            AnyParser::Generic(p) => p.can_parse(sample_lines),
            AnyParser::Json(p) => p.can_parse(sample_lines),
        }
    }

    fn parse_line(&self, line: &str) -> (r: ParsedLogLine) {
        match self {
            AnyParser::Generic(p) => p.parse_line(line),
            AnyParser::Json(p) => p.parse_line(line),
        }
    }
}

/// The first registered parser for a format, scanning from position `k`.
pub open spec fn find_parser(s: Seq<(LogFormat, AnyParser)>, f: LogFormat, k: int) -> Option<
    AnyParser,
>
    decreases s.len() - k,
{
    if k < 0 || k >= s.len() {
        None
    } else if s[k].0 == f {
        Some(s[k].1)
    } else {
        find_parser(s, f, k + 1)
    }
}

/// The first non-JSON parser that accepts the sample, scanning from `k`.
pub open spec fn detect_loop(s: Seq<(LogFormat, AnyParser)>, lines: Seq<Seq<char>>, k: int) -> Option<
    (LogFormat, AnyParser),
>
    decreases s.len() - k,
{
    if k < 0 || k >= s.len() {
        None
    } else if s[k].0 != LogFormat::Json && s[k].1.spec_can_parse(lines) {
        Some((s[k].0, s[k].1))
    } else {
        detect_loop(s, lines, k + 1)
    }
}

/// Registry of parsers with format detection.
pub struct ParserRegistry {
    pub parsers: Vec<(LogFormat, AnyParser)>,
}

impl ParserRegistry {
    /// The sample that format detection judges: at most the first five lines.
    pub open spec fn spec_sample(lines: Seq<Seq<char>>) -> Seq<Seq<char>> {
        if lines.len() < 5 {
            lines
        } else {
            lines.take(5)
        }
    }

    /// What `detect_format` returns for a sample of lines.
    pub open spec fn spec_detect(&self, lines: Seq<Seq<char>>) -> (LogFormat, AnyParser) {
        let sample = Self::spec_sample(lines);
        let jp = find_parser(self.parsers@, LogFormat::Json, 0)->Some_0;
        if jp.spec_can_parse(sample) {
            (LogFormat::Json, jp)
        } else {
            match detect_loop(self.parsers@, sample, 0) {
                Some(p) => p,
                None => (
                    LogFormat::Generic,
                    find_parser(self.parsers@, LogFormat::Generic, 0)->Some_0,
                ),
            }
        }
    }

    /// Create a new parser registry with the default parsers registered.
    pub fn new() -> (r: ParserRegistry)
        ensures
            r.parsers@.len() == 2,
            r.parsers@[0] == (LogFormat::Generic, AnyParser::Generic(generic::GenericLogParser)),
            r.parsers@[1] == (LogFormat::Json, AnyParser::Json(json::JsonLogParser)),
    {
        let mut registry = ParserRegistry { parsers: Vec::new() };
        registry.register_parser(
            LogFormat::Generic,
            AnyParser::Generic(generic::GenericLogParser),
        );
        registry.register_parser(LogFormat::Json, AnyParser::Json(json::JsonLogParser));
        registry
    }

    /// Register a parser for a format.
    pub fn register_parser(&mut self, format: LogFormat, parser: AnyParser)
        ensures
            final(self).parsers@ == old(self).parsers@.push((format, parser)),
    {
        self.parsers.push((format, parser));
    }

    /// Get the first registered parser for a format.
    pub fn get_parser(&self, format: LogFormat) -> (r: Option<AnyParser>)
        ensures
            r == find_parser(self.parsers@, format, 0),
    {
        let n = self.parsers.len();
        let mut i: usize = 0;
        while i < n
            invariant
                0 <= i <= n,
                n == self.parsers@.len(),
                find_parser(self.parsers@, format, 0) == find_parser(self.parsers@, format, i as int),
            decreases n - i,
        {
            let entry = &self.parsers[i];
            if entry.0 == format {
                return Some(entry.1);
            }
            i += 1;
        }
        None
    }

    /// Detect the format of the sample lines, with the generic parser as the
    /// fallback.
    pub fn detect_format(&self, sample_lines: &[&str]) -> (r: (LogFormat, AnyParser))
        requires
            find_parser(self.parsers@, LogFormat::Json, 0) is Some,
            find_parser(self.parsers@, LogFormat::Generic, 0) is Some,
        ensures
            r == self.spec_detect(sample_lines.deep_view()),
    {
        let sample: &[&str] = if sample_lines.len() < 5 {
            sample_lines
        } else {
            vstd::slice::slice_subrange(sample_lines, 0, 5)
        };
        proof {
            assert(sample.deep_view() =~= Self::spec_sample(sample_lines.deep_view()));
        }
        let json_parser = match self.get_parser(LogFormat::Json) {
            Some(p) => p,
            None => AnyParser::Generic(generic::GenericLogParser),
        };
        if json_parser.can_parse(sample) {
            return (LogFormat::Json, json_parser);
        }
        let n = self.parsers.len();
        let mut i: usize = 0;
        while i < n
            invariant
                0 <= i <= n,
                n == self.parsers@.len(),
                find_parser(self.parsers@, LogFormat::Json, 0) is Some,
                find_parser(self.parsers@, LogFormat::Generic, 0) is Some,
                sample.deep_view() == Self::spec_sample(sample_lines.deep_view()),
                !(find_parser(self.parsers@, LogFormat::Json, 0)->Some_0).spec_can_parse(
                    sample.deep_view(),
                ),
                detect_loop(self.parsers@, sample.deep_view(), 0) == detect_loop(
                    self.parsers@,
                    sample.deep_view(),
                    i as int,
                ),
            decreases n - i,
        {
            let entry = self.parsers[i];
            if !matches!(entry.0, LogFormat::Json) {
                if entry.1.can_parse(sample) {
                    return (entry.0, entry.1);
                }
            }
            i += 1;
        }
        let generic_parser = match self.get_parser(LogFormat::Generic) {
            Some(p) => p,
            None => AnyParser::Generic(generic::GenericLogParser),
        };
        (LogFormat::Generic, generic_parser)
    }
}

impl Default for ParserRegistry {
    fn default() -> (r: ParserRegistry)
        ensures
            r.parsers@.len() == 2,
    {
        ParserRegistry::new()
    }
}

} // verus!
