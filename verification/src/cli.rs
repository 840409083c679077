//! The command-line options the tool runs under, as plain data.
use vstd::prelude::*;

verus! {

/// The command-line options: the input file, the filters, and the output
/// switches.
pub struct Args {
    /// Log file to analyze; absent when reading from standard input.
    pub file: Option<String>,
    /// Pattern to search for.
    pub chop: Option<String>,
    /// Filter by log level.
    pub level: Option<String>,
    /// Show time-based trends.
    pub trend: bool,
    /// Show summary statistics.
    pub stats: bool,
    /// Output results in JSON format.
    pub json: bool,
    /// Number of top error types to show.
    pub top_errors: usize,
    /// Show unique messages in the output.
    pub show_unique: bool,
    /// Force parallel processing.
    pub parallel: bool,
    /// Force sequential processing.
    pub sequential: bool,
    /// Only output the total log count.
    pub count: bool,
    /// Log format name.
    pub format: String,
    /// Filter by field values, each given as `field=value`.
    pub field: Vec<String>,
}

impl Default for Args {
    /// The defaults: no filters, plain output, five top error types, and
    /// automatic format detection.
    fn default() -> (r: Args)
        ensures
            r.file is None,
            r.chop is None,
            r.level is None,
            !r.trend && !r.stats && !r.json && !r.show_unique && !r.parallel && !r.sequential
                && !r.count,
            r.top_errors == 5,
            r.format@ == "auto"@,
            r.field@.len() == 0,
    {
        Args {
            file: None,
            chop: None,
            level: None,
            trend: false,
            stats: false,
            json: false,
            top_errors: 5,
            show_unique: false,
            parallel: false,
            sequential: false,
            count: false,
            format: "auto".to_owned(),
            field: Vec::new(),
        }
    }
}

} // verus!
