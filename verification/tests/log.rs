use delta_forge::{Log, LogEntry};

fn entry(node: &str, recomputed: bool, duration_us: u64) -> LogEntry {
    LogEntry {
        node: node.to_string(),
        recomputed,
        duration_us,
    }
}

#[test]
fn log_push_entries_clear() {
    let mut log = Log::default();
    assert!(log.entries().is_empty());
    log.push(entry("a", true, 1));
    log.push(entry("b", false, 2));
    assert_eq!(log.entries().len(), 2);
    assert_eq!(log.entries()[0].node, "a");
    assert_eq!(log.entries()[1].duration_us, 2);
    log.clear();
    assert!(log.entries().is_empty());
}

#[test]
fn empty_log_lines() {
    let log = Log::default();
    assert_eq!(log.lines(), vec!["(no recomputations logged)".to_string()]);
}

#[test]
fn log_lines_form_a_table() {
    let mut log = Log::default();
    log.push(entry("sum", true, 12));
    log.push(entry("a_very_long_node_name_here", false, 1234567));
    let lines = log.lines();
    assert_eq!(lines.len(), 4);
    assert_eq!(lines[0], format!("{:<20} {:>12} {:>12}", "node", "recomputed", "μs"));
    assert_eq!(lines[1], "-".repeat(46));
    assert_eq!(lines[2], "sum                          true           12");
    assert_eq!(lines[2], format!("{:<20} {:>12} {:>12}", "sum", true, 12));
    assert_eq!(
        lines[3],
        format!("{:<20} {:>12} {:>12}", "a_very_long_node_name_here", false, 1234567)
    );
}

#[test]
fn log_lines_show_zero_and_large_durations() {
    let mut log = Log::default();
    log.push(entry("z", true, 0));
    log.push(entry("m", true, u64::MAX));
    let lines = log.lines();
    assert_eq!(lines[2], format!("{:<20} {:>12} {:>12}", "z", true, 0));
    assert_eq!(lines[3], format!("{:<20} {:>12} {:>12}", "m", true, u64::MAX));
}

#[test]
fn log_holds_the_entries_pushed_since_the_last_clear() {
    let mut log = Log::default();
    log.push(entry("a", true, 1));
    log.push(entry("b", true, 2));
    log.clear();
    log.push(entry("c", true, 3));
    log.push(entry("d", false, 4));
    let names: Vec<&str> = log.entries().iter().map(|e| e.node.as_str()).collect();
    assert_eq!(names, vec!["c", "d"]);
}
