use fah_balancer::arg::CpuGroup;
use fah_balancer::error::Error;
use fah_balancer::fah::FahCore;
use fah_balancer::sched_affinity::{AffinityManager, CpuSet};
use fah_balancer::schedule::schedule;

fn cores(cores: &[usize]) -> Vec<FahCore> {
    cores
        .iter()
        .cloned()
        .enumerate()
        .map(|(pid, threads)| FahCore {
            pid: pid + 1,
            threads,
        })
        .collect()
}

fn groups(groups: &[&str]) -> Vec<CpuGroup> {
    groups
        .iter()
        .map(|group| CpuGroup::try_from(*group).unwrap())
        .collect()
}

fn cpus(ids: &[usize]) -> CpuSet {
    let mut cpuset = CpuSet::mock_new(256);
    for id in ids {
        cpuset.mock_set(*id);
    }
    cpuset
}

fn assert_sequential_pids(entries: &[(usize, CpuSet)]) {
    for (i, (pid, _)) in entries.iter().enumerate() {
        assert_eq!(*pid, i + 1);
    }
}

fn am() -> AffinityManager {
    AffinityManager::mock_new(256)
}

fn cmp(mut actual: Vec<(usize, CpuSet)>, mut expected: Vec<(usize, CpuSet)>) {
    actual.sort_by_key(|(pid, _)| *pid);
    assert_sequential_pids(&actual);
    expected.sort_by_key(|(pid, _)| *pid);
    assert_sequential_pids(&expected);
    assert_eq!(actual, expected);
}

#[test]
fn one_group_one_core() {
    cmp(
        schedule(am(), cores(&[2]), groups(&["0,1"])).unwrap(),
        vec![(1, cpus(&[0, 1]))],
    );
}

#[test]
fn group_bigger_than_core() {
    cmp(
        schedule(am(), cores(&[2]), groups(&["0-3"])).unwrap(),
        vec![(1, cpus(&[0, 1, 2, 3]))],
    );
}

#[test]
fn core_bigger_than_group() {
    let err = schedule(am(), cores(&[10]), groups(&["0-7"])).unwrap_err();
    assert!(matches!(err, Error::OutOfCpuGroups));
}

#[test]
fn two_groups_two_cores() {
    cmp(
        schedule(am(), cores(&[2, 4]), groups(&["0,1", "8-11"])).unwrap(),
        vec![(1, cpus(&[0, 1])), (2, cpus(&[8, 9, 10, 11]))],
    );
}

#[test]
fn two_cores_larger_than_group() {
    let err = schedule(am(), cores(&[4, 6]), groups(&["0-7"])).unwrap_err();
    assert!(matches!(err, Error::OutOfCpuGroups));
}

#[test]
fn large_group_with_two_cores() {
    cmp(
        schedule(am(), cores(&[2, 4]), groups(&["0-5"])).unwrap(),
        vec![
            (1, cpus(&[0, 1, 2, 3, 4, 5])),
            (2, cpus(&[0, 1, 2, 3, 4, 5])),
        ],
    );
}

#[test]
fn schedule_assigns_last_core_first() {
    let commands = schedule(am(), cores(&[1, 2, 3]), groups(&["0", "1-2", "3-5"])).unwrap();
    let pids: Vec<usize> = commands.iter().map(|(pid, _)| *pid).collect();
    assert_eq!(pids, vec![3, 2, 1]);
    assert_eq!(commands[0].1, cpus(&[3, 4, 5]));
    assert_eq!(commands[1].1, cpus(&[1, 2]));
    assert_eq!(commands[2].1, cpus(&[0]));
}

#[test]
fn schedule_with_no_cores_or_no_groups() {
    assert!(schedule(am(), cores(&[]), groups(&[])).unwrap().is_empty());
    assert!(matches!(schedule(am(), cores(&[1]), groups(&[])), Err(Error::OutOfCpuGroups)));
}

#[test]
fn schedule_reports_high_index() {
    let err = schedule(AffinityManager::mock_new(3), cores(&[1]), groups(&["2-5"])).unwrap_err();
    assert!(matches!(err, Error::CpuIndexTooHigh));
}

#[test]
fn schedule_fails_when_threads_exceed_all_groups() {
    // Four threads in all against three CPUs in all.
    let err = schedule(am(), cores(&[1, 1, 1, 1]), groups(&["0", "1-2"])).unwrap_err();
    assert!(matches!(err, Error::OutOfCpuGroups));
    assert_eq!(schedule(am(), cores(&[1, 1, 1]), groups(&["0", "1-2"])).unwrap().len(), 3);
}

#[test]
fn schedule_succeeds_when_cores_fit_pairwise() {
    let commands = schedule(am(), cores(&[1, 3, 5]), groups(&["0", "1-3", "4-8"])).unwrap();
    assert_eq!(commands.len(), 3);
    assert_eq!(commands[0], (3, cpus(&[4, 5, 6, 7, 8])));
}

#[test]
fn schedule_never_oversubscribes_a_group() {
    let commands = schedule(am(), cores(&[2, 2, 2]), groups(&["4-5", "0-3"])).unwrap();
    assert_eq!(commands[0], (3, cpus(&[0, 1, 2, 3])));
    assert_eq!(commands[1], (2, cpus(&[0, 1, 2, 3])));
    assert_eq!(commands[2], (1, cpus(&[4, 5])));
    let err = schedule(am(), cores(&[2, 2, 3]), groups(&["4-5", "0-3"])).unwrap_err();
    assert!(matches!(err, Error::OutOfCpuGroups));
}
