use fah_balancer::arg::{Arg, Cpu, CpuGroup};
use fah_balancer::error::Error;
use std::ops::RangeInclusive;

fn s(id: usize) -> Cpu {
    Cpu::Single(id)
}

fn r(range: RangeInclusive<usize>) -> Cpu {
    Cpu::Range(range)
}

fn strings(args: &[&str]) -> Vec<String> {
    args.iter().map(|a| a.to_string()).collect()
}

#[test]
fn parse_cpu_success() {
    for (input, cpu) in [
        ("0", s(0)),
        ("1", s(1)),
        ("0-1", r(0..=1)),
        ("0-5", r(0..=5)),
        ("6-20", r(6..=20)),
    ] {
        assert_eq!(
            Cpu::try_from(input).unwrap(),
            cpu,
            "attempt to construct CPU from '{input}'"
        );
    }
}

#[test]
fn parse_cpu_failure() {
    let f = |s: &str| Cpu::try_from(s).unwrap_err();

    assert!(matches!(f("-5"), Error::ParseInt(..)));
    assert!(matches!(f("0.1"), Error::ParseInt(..)));
    assert!(matches!(f("1-1"), Error::InvalidCpuRange));
    assert!(matches!(f("1-2-3"), Error::ParseInt(..)));
}

#[test]
fn parse_cpu_group() {
    let tests = [
        ("0", &[s(0)][..], 1),
        ("0,1", &[s(0), s(1)][..], 2),
        ("0-1", &[r(0..=1)][..], 2),
        ("0-1,5,7,10-11", &[r(0..=1), s(5), s(7), r(10..=11)][..], 6),
    ];
    for (input, cpus, total_cpus) in tests {
        assert_eq!(
            CpuGroup::try_from(input).unwrap(),
            CpuGroup {
                cpus: cpus.to_vec(),
                total_cpus,
            },
            "attempt to construct CPU group from '{input}'"
        );
    }
}

#[test]
fn parse_cpu_edge_cases() {
    assert_eq!(Cpu::try_from("+7").unwrap(), s(7));
    assert_eq!(Cpu::try_from("+2-+4").unwrap(), r(2..=4));
    assert!(matches!(Cpu::try_from("").unwrap_err(), Error::ParseInt(..)));
    assert!(matches!(Cpu::try_from("3-").unwrap_err(), Error::ParseInt(..)));
    assert!(matches!(Cpu::try_from(" 3").unwrap_err(), Error::ParseInt(..)));
    assert!(matches!(Cpu::try_from("5-2").unwrap_err(), Error::InvalidCpuRange));
    assert!(matches!(
        Cpu::try_from("18446744073709551616").unwrap_err(),
        Error::ParseInt(..)
    ));
}

#[test]
fn parse_cpu_group_errors() {
    assert!(matches!(CpuGroup::try_from("").unwrap_err(), Error::ParseInt(..)));
    assert!(matches!(CpuGroup::try_from("0,").unwrap_err(), Error::ParseInt(..)));
    assert!(matches!(CpuGroup::try_from("0,3-3,x").unwrap_err(), Error::InvalidCpuRange));
    assert!(matches!(CpuGroup::try_from("0,x,3-3").unwrap_err(), Error::ParseInt(..)));
}

#[test]
fn cpu_group_total_wraps() {
    let group = CpuGroup::try_from("0-18446744073709551615").unwrap();
    assert_eq!(group.total_cpus, 0);
    let group = CpuGroup::try_from("1-18446744073709551615,0").unwrap();
    assert_eq!(group.total_cpus, 0);
    assert_eq!(group.cpus(), &[r(1..=usize::MAX), s(0)][..]);
}

#[test]
fn arg_parse_sorts_groups_stably() {
    let arg = Arg::parse(&strings(&["0-3", "4,5", "6-7", "8"]), 20).unwrap();
    let totals: Vec<usize> = arg.cpu_groups.iter().map(|g| g.total_cpus).collect();
    assert_eq!(totals, vec![1, 2, 2, 4]);
    assert_eq!(arg.cpu_groups[0].cpus(), &[s(8)][..]);
    assert_eq!(arg.cpu_groups[1].cpus(), &[s(4), s(5)][..]);
    assert_eq!(arg.cpu_groups[2].cpus(), &[r(6..=7)][..]);
    assert_eq!(arg.cpu_groups[3].cpus(), &[r(0..=3)][..]);
}

#[test]
fn arg_parse_errors() {
    assert!(matches!(Arg::parse(&[], 20), Err(Error::NoCpuGroups)));
    assert!(matches!(Arg::parse(&strings(&["0-3", "2-5"]), 20), Err(Error::CpuIndexOverlaps)));
    assert!(matches!(Arg::parse(&strings(&["0,0"]), 20), Err(Error::CpuIndexOverlaps)));
    assert!(matches!(Arg::parse(&strings(&["0-3", "20"]), 20), Err(Error::CpuIndexTooHigh)));
    assert!(matches!(Arg::parse(&strings(&["0-3", "x"]), 20), Err(Error::ParseInt(..))));
    assert!(matches!(Arg::parse(&strings(&["4-4", "x"]), 20), Err(Error::InvalidCpuRange)));
    assert!(Arg::parse(&strings(&["0-3", "19"]), 20).is_ok());
}

#[test]
fn arg_parse_checks_in_sorted_order() {
    // The one-CPU group is checked first, so the overlap is reported before the bad index.
    assert!(matches!(Arg::parse(&strings(&["0-30", "0"]), 20), Err(Error::CpuIndexOverlaps)));
    assert!(matches!(Arg::parse(&strings(&["0-30", "40"]), 20), Err(Error::CpuIndexTooHigh)));
}

#[test]
fn arg_parse_readme_example() {
    let arg = Arg::parse(&strings(&["0-11", "12-19"]), 20).unwrap();
    assert_eq!(
        arg.cpu_groups,
        vec![
            CpuGroup::try_from("12-19").unwrap(),
            CpuGroup::try_from("0-11").unwrap()
        ]
    );
    assert!(matches!(Arg::parse(&strings(&["0-11", "12-20"]), 20), Err(Error::CpuIndexTooHigh)));
}

#[test]
fn printed_cpus_read_back() {
    for a in [0usize, 7, 10, 63, 1_000_000, usize::MAX] {
        assert_eq!(Cpu::try_from(a.to_string().as_str()).unwrap(), s(a));
    }
    for (a, b) in [(0usize, 1usize), (9, 10), (99, 100_000), (0, usize::MAX)] {
        assert_eq!(Cpu::try_from(format!("{a}-{b}").as_str()).unwrap(), r(a..=b));
    }
}

#[test]
fn marking_twice_overlaps_across_groups() {
    assert!(matches!(Arg::parse(&strings(&["0-3", "5,1"]), 20), Err(Error::CpuIndexOverlaps)));
    assert!(matches!(Arg::parse(&strings(&["7", "3,5,7,9"]), 20), Err(Error::CpuIndexOverlaps)));
}
