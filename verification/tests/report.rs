use sarena::report::{format_log, log_block, status_line};
use sarena::tlv::{LogEntry, TestResult, TestStatus};

fn entry(fmt: &str, args: Vec<u64>) -> LogEntry {
    LogEntry { fmt: fmt.to_string(), line: 42, args }
}

#[test]
fn format_log_fills_specifiers_left_to_right() {
    assert_eq!(format_log(&entry("a=%d b=%u", vec![5, 7])), "a=5 b=7");
    assert_eq!(format_log(&entry("%llu and %lld", vec![1, u64::MAX])), "1 and -1");
    assert_eq!(format_log(&entry("x=%x p=%p", vec![255, 0x1234])), "x=0xff p=0x0000000000001234");
    assert_eq!(format_log(&entry("%lx|%llx", vec![0, 16])), "0x0|0x10");
}

#[test]
fn format_log_leaves_extra_specifiers_and_plain_text() {
    assert_eq!(format_log(&entry("%d %d", vec![3])), "3 %d");
    assert_eq!(format_log(&entry("no args", vec![1, 2])), "no args");
    assert_eq!(format_log(&entry("100%", vec![1])), "100%");
    assert_eq!(format_log(&entry("%ld", vec![0x8000_0000_0000_0000])), "-9223372036854775808");
}

#[test]
fn report_lines() {
    let t = TestResult {
        name: "forward".to_string(),
        file: "tests/fwd.rs".to_string(),
        status: TestStatus::Pass,
        logs: vec![],
    };
    assert_eq!(status_line(&t), "\x1b[32m[PASS]\x1b[0m forward");
    let f = TestResult { status: TestStatus::FrameworkError, ..t };
    assert_eq!(status_line(&f), "\x1b[35m[FRAMEWORK ERROR]\x1b[0m forward");
    assert_eq!(
        log_block("tests/fwd.rs", &entry("v=%u", vec![9])),
        "tests/fwd.rs:42:\nv=9\n"
    );
}
