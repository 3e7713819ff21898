use mlock_monitor::limit::{parse_mlock_limit, Limit};
use mlock_monitor::ps::parse_ps_output;
use mlock_monitor::status::parse_status_text;
use mlock_monitor::text::{basename, parse_u64, split_whitespace_tokens, u64_to_string};

#[test]
fn limit_unlimited_token() {
    assert_eq!(Limit::from_str("unlimited"), Ok(Limit::Unlimited));
}

#[test]
fn limit_bytes_to_kilobytes() {
    assert_eq!(Limit::from_str("2097152"), Ok(Limit::Kb(2048)));
}

#[test]
fn limit_division_truncates() {
    assert_eq!(Limit::from_str("1025"), Ok(Limit::Kb(1)));
    assert_eq!(Limit::from_str("1023"), Ok(Limit::Kb(0)));
}

#[test]
fn limit_rejects_non_numbers() {
    assert_eq!(Limit::from_str(""), Err(()));
    assert_eq!(Limit::from_str("12x"), Err(()));
    assert_eq!(Limit::from_str("unbounded"), Err(()));
    assert_eq!(Limit::from_str("18446744073709551616"), Err(()));
}

#[test]
fn limit_text_forms() {
    assert_eq!(Limit::Kb(2048).to_text(), "2048");
    assert_eq!(Limit::Unlimited.to_text(), "unlimited");
}

#[test]
fn mlock_limit_output_parses() {
    let m = parse_mlock_limit("   8388608 unlimited\n").unwrap();
    assert_eq!(m.soft, Limit::Kb(8192));
    assert_eq!(m.hard, Limit::Unlimited);
}

#[test]
fn mlock_limit_bad_output_rejected() {
    assert!(parse_mlock_limit("").is_none());
    assert!(parse_mlock_limit("8388608").is_none());
    assert!(parse_mlock_limit("lots lots").is_none());
}

#[test]
fn ps_output_rows_parse() {
    let out = "UID        PID  PPID  C STIME TTY          TIME CMD\n\
               root       100    99  0 10:00 pts/0    00:00:00 /usr/bin/my-test arg1\n\
               root       101    99  0 10:00 pts/0    00:00:00 helper\n";
    let rows = parse_ps_output(out);
    assert_eq!(rows.len(), 2);
    assert_eq!(rows[0], (100, String::from("my-test")));
    assert_eq!(rows[1], (101, String::from("helper")));
}

#[test]
fn ps_output_filters_ignored_names() {
    let out = "UID        PID  PPID  C STIME TTY          TIME CMD\n\
               root       100    99  0 10:00 pts/0    00:00:00 /usr/bin/rustc --crate-name x\n\
               root       101    99  0 10:00 pts/0    00:00:00 [rustc]\n\
               root       102    99  0 10:00 pts/0    00:00:00 rustdoc\n\
               root       103    99  0 10:00 pts/0    00:00:00 keeper\n";
    let rows = parse_ps_output(out);
    assert_eq!(rows, vec![(103, String::from("keeper"))]);
}

#[test]
fn ps_output_skips_malformed_rows() {
    let out = "UID        PID  PPID  C STIME TTY          TIME CMD\n\
               short row\n\
               root       abc    99  0 10:00 pts/0    00:00:00 bad-pid\n\
               root       104    99  0 10:00 pts/0    00:00:00 good\n";
    let rows = parse_ps_output(out);
    assert_eq!(rows, vec![(104, String::from("good"))]);
}

#[test]
fn ps_output_empty_means_no_children() {
    assert!(parse_ps_output("").is_empty());
    assert!(parse_ps_output("UID PID PPID C STIME TTY TIME CMD\n").is_empty());
}

#[test]
fn status_file_locked_memory_found() {
    let content = "Name:\tmy-test\nVmPeak:\t   10000 kB\nVmLck:\t     600 kB\nVmPin:\t 0 kB\n";
    assert_eq!(parse_status_text(content), Some(600));
}

#[test]
fn status_file_without_field_is_no_data() {
    let content = "Name:\tmy-test\nVmPeak:\t   10000 kB\n";
    assert_eq!(parse_status_text(content), None);
    assert_eq!(parse_status_text(""), None);
}

#[test]
fn status_file_unreadable_value_is_no_data() {
    assert_eq!(parse_status_text("VmLck:\tnonsense kB\n"), None);
    assert_eq!(parse_status_text("VmLck:\n"), None);
}

#[test]
fn status_file_first_matching_line_wins() {
    let content = "VmLck:\t 5 kB\nVmLck:\t 9 kB\n";
    assert_eq!(parse_status_text(content), Some(5));
}

#[test]
fn decimal_parsing_edges() {
    assert_eq!(parse_u64("0"), Some(0));
    assert_eq!(parse_u64("18446744073709551615"), Some(u64::MAX));
    assert_eq!(parse_u64("18446744073709551616"), None);
    assert_eq!(parse_u64(""), None);
    assert_eq!(parse_u64("-3"), None);
    assert_eq!(parse_u64("1 2"), None);
}

#[test]
fn decimal_rendering() {
    assert_eq!(u64_to_string(0), "0");
    assert_eq!(u64_to_string(2048), "2048");
    assert_eq!(u64_to_string(u64::MAX), "18446744073709551615");
}

#[test]
fn tokenizer_splits_on_any_whitespace() {
    let toks = split_whitespace_tokens("  a\tbb \n ccc ");
    assert_eq!(toks, vec!["a", "bb", "ccc"]);
    assert!(split_whitespace_tokens("   \t\n").is_empty());
}

#[test]
fn basename_strips_path_prefix() {
    assert_eq!(basename("/usr/bin/my-test"), "my-test");
    assert_eq!(basename("plain"), "plain");
    assert_eq!(basename("dir/"), "");
}
