use mlock_monitor::database::Database;

fn peaks_table(db: &Database) -> String {
    db.table()
}

#[test]
fn peak_is_max_of_samples() {
    let mut db = Database::new();
    db.new_child_process(7, String::from("worker"));
    db.update(7, 30);
    db.update(7, 600);
    db.update(7, 100);
    let t1 = peaks_table(&db);

    let mut db2 = Database::new();
    db2.new_child_process(7, String::from("worker"));
    db2.update(7, 600);
    db2.update(7, 100);
    db2.update(7, 30);
    let t2 = peaks_table(&db2);

    assert_eq!(t1, t2);
    assert!(t1.contains("600"));
    assert!(!t1.contains("100"));
}

#[test]
fn peak_never_decreases() {
    let mut db = Database::new();
    db.new_child_process(1, String::from("p"));
    db.update(1, 555);
    db.update(1, 5);
    let t = db.table();
    assert!(t.contains("555"));
    assert!(!t.lines().any(|l| l.starts_with("p") && l.trim_end().ends_with(" 5")));
}

#[test]
fn register_is_idempotent() {
    let mut db = Database::new();
    db.new_child_process(42, String::from("child"));
    db.update(42, 123);
    let before = db.table();
    db.new_child_process(42, String::from("other"));
    let after = db.table();
    assert_eq!(before, after);
}

#[test]
fn sample_for_unknown_id_is_noop() {
    let mut db = Database::new();
    db.new_child_process(1, String::from("known"));
    let before = db.table();
    db.update(99, 1000);
    let after = db.table();
    assert_eq!(before, after);
}

#[test]
fn contains_reports_registration() {
    let mut db = Database::new();
    assert!(!db.contains(&5));
    db.new_child_process(5, String::from("a"));
    assert!(db.contains(&5));
    assert!(!db.contains(&6));
}

#[test]
fn table_columns_align_to_longest_name() {
    let mut db = Database::new();
    db.new_child_process(1, String::from("a"));
    db.update(1, 10);
    db.new_child_process(2, String::from("bb"));
    db.update(2, 2000);
    let rendered = db.table();

    // The first heading is 12 characters; the longest name ("bb") plus
    // the 8-space buffer is shorter than 12 + 8, so the second column
    // starts at offset 20 and the table is 20 + 22 characters wide.
    let expected = format!(
        "\n{}{}{}\n{}{}{}\n{}{}{}\n{}{}{}\n{}",
        "Process Name",
        " ".repeat(8),
        "Max Locked Memory (kb)",
        "=".repeat(12),
        " ".repeat(8),
        "=".repeat(22),
        "a",
        " ".repeat(19),
        "10",
        "bb",
        " ".repeat(18),
        "2000",
        "=".repeat(42),
    );
    assert_eq!(rendered, expected);

    let lines: Vec<&str> = rendered.lines().skip(1).collect();
    assert_eq!(lines[0].find("Max Locked Memory (kb)"), Some(20));
    assert_eq!(lines[2].find("10"), Some(20));
    assert_eq!(lines[3].find("2000"), Some(20));
    assert_eq!(lines[0].chars().count(), 42);
    assert_eq!(lines[1].chars().count(), 42);
    assert_eq!(lines[4].chars().count(), 42);
}

#[test]
fn table_widens_for_long_names() {
    let mut db = Database::new();
    db.new_child_process(3, String::from("a-rather-long-name"));
    db.update(3, 1);
    let rendered = db.table();
    // 18-character name + 8-space buffer pushes the column to 26.
    let lines: Vec<&str> = rendered.lines().skip(1).collect();
    assert_eq!(lines[0].find("Max Locked Memory (kb)"), Some(26));
    assert_eq!(lines[2].find('1'), Some(26));
}

#[test]
fn table_rows_sorted_by_pid() {
    let mut db = Database::new();
    db.new_child_process(30, String::from("late"));
    db.new_child_process(10, String::from("early"));
    db.new_child_process(20, String::from("middle"));
    let rendered = db.table();
    let early = rendered.find("early").unwrap();
    let middle = rendered.find("middle").unwrap();
    let late = rendered.find("late").unwrap();
    assert!(early < middle && middle < late);
}

#[test]
fn empty_table_has_headings_and_borders() {
    let db = Database::new();
    let rendered = db.table();
    let expected = format!(
        "\n{}{}{}\n{}{}{}\n{}",
        "Process Name",
        " ".repeat(8),
        "Max Locked Memory (kb)",
        "=".repeat(12),
        " ".repeat(8),
        "=".repeat(22),
        "=".repeat(42),
    );
    assert_eq!(rendered, expected);
}

#[test]
fn new_registration_starts_at_zero_peak() {
    let mut db = Database::new();
    db.new_child_process(4, String::from("fresh"));
    let rendered = db.table();
    assert!(rendered.lines().any(|l| l.starts_with("fresh") && l.trim_end().ends_with('0')));
}
