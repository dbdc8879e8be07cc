use fah_balancer::error::Error;
use fah_balancer::fah::parse_pid;
use fah_balancer::text::{find, same_text, split, split_once, trim};

#[test]
fn parse_pid_reads_decimal_numbers() {
    assert_eq!(parse_pid("42"), Some(42));
    assert_eq!(parse_pid("+42"), Some(42));
    assert_eq!(parse_pid("007"), Some(7));
    assert_eq!(parse_pid("18446744073709551615"), Some(usize::MAX));
    assert_eq!(parse_pid(""), None);
    assert_eq!(parse_pid("+"), None);
    assert_eq!(parse_pid("-1"), None);
    assert_eq!(parse_pid("4 2"), None);
    assert_eq!(parse_pid("self"), None);
    assert_eq!(parse_pid("18446744073709551616"), None);
}

#[test]
fn splitting_text() {
    assert_eq!(split("a,b,,c", ','), vec!["a", "b", "", "c"]);
    assert_eq!(split("", ','), vec![""]);
    assert_eq!(split(",", ','), vec!["", ""]);
    assert_eq!(split_once("1-2-3", '-'), Some(("1", "2-3")));
    assert_eq!(split_once("123", '-'), None);
    assert_eq!(find("ab-c", '-'), Some(2));
    assert_eq!(find("éa-", '-'), Some(2));
}

#[test]
fn trimming_and_comparing() {
    assert_eq!(trim("  a b \n"), "a b");
    assert_eq!(trim("\u{85}x\u{a0}"), "x");
    assert_eq!(trim("   "), "");
    assert!(same_text("abc", "abc"));
    assert!(!same_text("abc", "abd"));
    assert!(!same_text("abc", "ab"));
}

#[test]
fn error_messages() {
    assert_eq!(Error::InvalidCpuRange.to_string(), "Invalid CPU range");
    assert_eq!(Error::NoCpuGroups.to_string(), "No CPU groups");
    assert_eq!(Error::CpuIndexTooHigh.to_string(), "CPU index too high");
    assert_eq!(Error::CpuIndexOverlaps.to_string(), "CPU index overlaps");
    assert_eq!(
        Error::KernelIgnoredSchedSetAffinity.to_string(),
        "Kernel ignored sched_setaffinity()"
    );
    assert_eq!(
        Error::OutOfCpuGroups.to_string(),
        "Not enough CPU groups to fit FAH cores in"
    );
    let parse_error = "x".parse::<usize>().unwrap_err();
    assert_eq!(Error::from(parse_error).to_string(), "invalid digit found in string");
    let io_error = std::io::Error::new(std::io::ErrorKind::Other, "boom");
    assert!(matches!(Error::from(io_error), Error::Io(..)));
}
