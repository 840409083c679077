use timber_rs::analyzer::AnalysisResult;
use timber_rs::analyzer::LogAnalyzer;
use timber_rs::parser::AnyParser;
use timber_rs::parser::json::JsonLogParser;

#[test]
fn test_level_filter_scenario() {
    // three lines, level filter WARN: exactly the WARN line is counted
    let mut analyzer = LogAnalyzer::new();
    let lines = vec![
        "2025-03-21 14:00:00,123 [ERROR] NullPointerException".to_string(),
        "2025-03-21 14:01:00,456 [WARN] Some warning".to_string(),
        "2025-03-21 14:02:00,789 [INFO] Application started".to_string(),
    ];
    let result = analyzer.analyze_lines(lines, None, Some("WARN"), false, false);

    assert_eq!(result.count, 1);
    assert_eq!(result.matched_lines.len(), 1);
    assert!(result.matched_lines[0].contains("Some warning"));
}

#[test]
fn test_pattern_filter_scenario() {
    // the same three lines, pattern ERROR, no level filter
    let mut analyzer = LogAnalyzer::new();
    analyzer.configure(Some("ERROR"), None).unwrap();
    let lines = vec![
        "2025-03-21 14:00:00,123 [ERROR] NullPointerException".to_string(),
        "2025-03-21 14:01:00,456 [WARN] Some warning".to_string(),
        "2025-03-21 14:02:00,789 [INFO] Application started".to_string(),
    ];
    let data = lines.join("\n").into_bytes();
    let mut result = AnalysisResult::default();
    analyzer.process_chunk_data(&data, &mut result, false, false);

    assert_eq!(result.count, 1);
    assert!(result.matched_lines[0].contains("NullPointerException"));
}

#[test]
fn test_hourly_trend_scenario() {
    // two lines at hour 14 and one at hour 15
    let mut analyzer = LogAnalyzer::new();
    let lines = vec![
        "2025-03-21 14:00:00,123 [ERROR] NullPointerException".to_string(),
        "2025-03-21 14:05:00,456 [WARN] Some warning".to_string(),
        "2025-03-21 15:02:00,789 [INFO] Application started".to_string(),
    ];
    let result = analyzer.analyze_lines(lines, None, None, true, false);

    assert_eq!(result.count, 3);
    assert_eq!(result.time_trends.len(), 2);
    assert_eq!(*result.time_trends.get("2025-03-21 14").unwrap_or(&0), 2);
    assert_eq!(*result.time_trends.get("2025-03-21 15").unwrap_or(&0), 1);
}

#[test]
fn test_empty_input_scenario() {
    // empty input yields a zero-valued aggregate, not an error
    let mut analyzer = LogAnalyzer::new();
    let data: Vec<u8> = Vec::new();
    let result = analyzer.analyze_mmap(&data, None, None, true, true, false);

    assert_eq!(result.count, 0);
    assert!(result.matched_lines.is_empty());
    assert_eq!(result.line_counts.len(), 0);
    assert_eq!(result.time_trends.len(), 0);
    assert_eq!(result.levels_count.len(), 0);
    assert_eq!(result.error_types.len(), 0);
    assert_eq!(result.unique_messages.len(), 0);
}

#[test]
fn test_field_filter_and_semantics() {
    // filters service=api and level=ERROR: a line matching only one is
    // rejected, a line matching both is admitted
    let mut analyzer = LogAnalyzer::new();
    analyzer.set_parser(AnyParser::Json(JsonLogParser::new()));
    analyzer.set_field_filters(vec![
        "service=api".to_string(),
        "level=ERROR".to_string(),
    ]);

    let both = r#"{"timestamp":"2025-03-21T14:00:00Z","level":"ERROR","service":"api","message":"boom"}"#;
    let only_service = r#"{"timestamp":"2025-03-21T14:01:00Z","level":"INFO","service":"api","message":"fine"}"#;
    let only_level = r#"{"timestamp":"2025-03-21T14:02:00Z","level":"ERROR","service":"auth","message":"denied"}"#;

    assert!(analyzer.analyze_line(both, None, None, false, false).is_some());
    assert!(analyzer.analyze_line(only_service, None, None, false, false).is_none());
    assert!(analyzer.analyze_line(only_level, None, None, false, false).is_none());
}

#[test]
fn test_dedup_counts() {
    // a repeated line is sampled once but counted every time
    let mut analyzer = LogAnalyzer::new();
    let line = "2025-03-21 14:00:00,123 [ERROR] NullPointerException".to_string();
    let lines = vec![line.clone(), line.clone(), line.clone()];
    let result = analyzer.analyze_lines(lines, None, None, false, false);

    assert_eq!(result.count, 3);
    assert_eq!(result.matched_lines.len(), 1);
    assert_eq!(*result.line_counts.get(&line).unwrap_or(&0), 3);
    assert!(result.deduplicated);
}

#[test]
fn test_failed_to_label() {
    let analyzer = LogAnalyzer::new();
    let line = "2025-03-21 14:00:00,123 [WARN] Failed to connect: retrying";
    let label = analyzer.extract_error_type(line);
    assert_eq!(label, Some("Failed to connect".to_string()));
}

#[test]
fn test_sequential_parallel_buffer_agree() {
    let mut seq_analyzer = LogAnalyzer::new();
    let mut par_analyzer = LogAnalyzer::new();
    let mut lines: Vec<String> = Vec::new();
    for i in 0..500 {
        let level = match i % 3 {
            0 => "ERROR",
            1 => "WARN",
            _ => "INFO",
        };
        lines.push(format!(
            "2025-03-21 {:02}:{:02}:00,123 [{}] message number {}",
            (i / 60) % 24,
            i % 60,
            level,
            i
        ));
    }
    let data = lines.join("\n").into_bytes();

    let seq_result = seq_analyzer.analyze_mmap(&data, None, None, true, true, false);
    let par_result = par_analyzer.analyze_mmap(&data, None, None, true, true, true);

    assert_eq!(seq_result.count, par_result.count);
    assert_eq!(seq_result.matched_lines.len(), par_result.matched_lines.len());
    assert_eq!(seq_result.levels_count.len(), par_result.levels_count.len());
    assert_eq!(
        seq_result.unique_messages.len(),
        par_result.unique_messages.len()
    );
}
