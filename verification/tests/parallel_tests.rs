use regex::Regex;
use timber_rs::analyzer::LogAnalyzer;

// Build the test log lines in memory
fn create_test_log_lines(lines: usize) -> Vec<String> {
    let mut out: Vec<String> = Vec::new();
    for i in 0..lines {
        let level = match i % 5 {
            0 => "ERROR",
            1 => "WARN",
            2 => "INFO",
            3 => "DEBUG",
            _ => "TRACE",
        };

        out.push(format!(
            "2025-03-21 {:02}:{:02}:00,{:03} [{}] Test message {}",
            (i / 60) % 24,
            i % 60,
            i % 1000,
            level,
            i
        ));
    }
    out
}

#[test]
fn test_parallel_processing_basic() {
    let lines = create_test_log_lines(1000);

    let mut sequential_analyzer = LogAnalyzer::new();
    let mut parallel_analyzer = LogAnalyzer::new();

    let sequential_result =
        sequential_analyzer.analyze_lines(lines.clone(), None, None, false, false);

    let parallel_result =
        parallel_analyzer.analyze_lines_parallel(lines, None, None, false, false);

    assert_eq!(sequential_result.count, parallel_result.count);
    assert_eq!(
        sequential_result.matched_lines.len(),
        parallel_result.matched_lines.len()
    );
}

#[test]
fn test_parallel_processing_with_filters() {
    let lines = create_test_log_lines(1000);

    let mut sequential_analyzer = LogAnalyzer::new();
    let mut parallel_analyzer = LogAnalyzer::new();
    let pattern = Regex::new("ERROR").unwrap();

    let sequential_result = sequential_analyzer.analyze_lines(
        lines.clone(),
        Some(&pattern),
        Some("ERROR"),
        false,
        false,
    );

    let parallel_result = parallel_analyzer.analyze_lines_parallel(
        lines,
        Some(&pattern),
        Some("ERROR"),
        false,
        false,
    );

    assert_eq!(sequential_result.count, parallel_result.count);
    assert_eq!(
        sequential_result.matched_lines.len(),
        parallel_result.matched_lines.len()
    );
}

#[test]
fn test_parallel_processing_with_stats() {
    let lines = create_test_log_lines(1000);

    let mut sequential_analyzer = LogAnalyzer::new();
    let mut parallel_analyzer = LogAnalyzer::new();

    let sequential_result =
        sequential_analyzer.analyze_lines(lines.clone(), None, None, true, true);

    let parallel_result = parallel_analyzer.analyze_lines_parallel(lines, None, None, true, true);

    assert_eq!(sequential_result.count, parallel_result.count);

    // Time trends must agree entry by entry
    assert_eq!(
        sequential_result.time_trends.len(),
        parallel_result.time_trends.len()
    );
    let n = sequential_result.time_trends.len();
    for i in 0..n {
        let timestamp = sequential_result.time_trends.key_at(i).clone();
        let count = *sequential_result.time_trends.val_at(i);
        assert_eq!(parallel_result.time_trends.get(&timestamp), Some(&count));
    }

    // Level counts must agree entry by entry
    assert_eq!(
        sequential_result.levels_count.len(),
        parallel_result.levels_count.len()
    );
    let m = sequential_result.levels_count.len();
    for i in 0..m {
        let level = sequential_result.levels_count.key_at(i).clone();
        let count = *sequential_result.levels_count.val_at(i);
        assert_eq!(parallel_result.levels_count.get(&level), Some(&count));
    }

    // Unique message counts must agree
    assert_eq!(
        sequential_result.unique_messages.len(),
        parallel_result.unique_messages.len()
    );
}

#[test]
fn test_merge_results_manually() {
    let lines1 = create_test_log_lines(100);
    let lines2 = create_test_log_lines(200);

    let mut analyzer1 = LogAnalyzer::new();
    let mut analyzer2 = LogAnalyzer::new();
    let result1 = analyzer1.analyze_lines(lines1, None, None, true, true);
    let result2 = analyzer2.analyze_lines(lines2, None, None, true, true);

    assert_eq!(result1.count + result2.count, 300);

    let mut merged = result1;
    let before = merged.count;
    merged.merge(&result2);
    assert_eq!(merged.count, before + result2.count);
}
