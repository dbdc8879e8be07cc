use fah_balancer::arg::CpuGroup;
use fah_balancer::error::Error;
use fah_balancer::sched_affinity::{AffinityManager, CpuSet};

#[test]
fn cpuset_set_lowest() {
    let mut cpuset = CpuSet::mock_new(256);
    let mut expected = [0u64; 4];

    cpuset.mock_set(0);
    expected[0] = 0b1;

    assert_eq!(cpuset.0, expected);
}

#[test]
fn cpuset_set_highest() {
    let mut cpuset = CpuSet::mock_new(256);
    let mut expected = [0u64; 4];

    cpuset.mock_set(127);
    expected[1] = 0b1 << 63;

    assert_eq!(cpuset.0, expected);
}

#[test]
fn cpuset_set_boundary_highest() {
    let mut cpuset = CpuSet::mock_new(256);
    let mut expected = [0u64; 4];

    cpuset.mock_set(63);
    expected[0] = 0b1 << 63;

    assert_eq!(cpuset.0, expected);
}

#[test]
fn cpuset_set_boundary_lowest() {
    let mut cpuset = CpuSet::mock_new(256);
    let mut expected = [0u64; 4];

    cpuset.mock_set(64);
    expected[1] = 0b1;

    assert_eq!(cpuset.0, expected);
}

#[test]
fn cpuset_double_set() {
    let mut cpuset = CpuSet::mock_new(256);
    let mut expected = [0u64; 4];

    cpuset.mock_set(0);
    cpuset.mock_set(0);
    expected[0] = 0b1;

    assert_eq!(cpuset.0, expected);
}

#[test]
fn cpuset_sizes() {
    assert_eq!(CpuSet::mock_new(0).0.len(), 0);
    assert_eq!(CpuSet::mock_new(1).0.len(), 1);
    assert_eq!(CpuSet::mock_new(64).0.len(), 1);
    assert_eq!(CpuSet::mock_new(65).0.len(), 2);
    assert_eq!(CpuSet::mock_new(256).bytes(), 32);
    assert_eq!(CpuSet::new(AffinityManager::mock_new(20)).0, vec![0u64]);
    assert_eq!(CpuSet::new(AffinityManager::mock_new(1)).0, vec![0u64]);
    assert_eq!(CpuSet::new(AffinityManager::mock_new(65)).0, vec![0u64, 0u64]);
}

#[test]
fn from_cpu_group_sets_every_cpu() {
    let am = AffinityManager::mock_new(20);
    let group = CpuGroup::try_from("0-1,5,7,10-11").unwrap();
    let mask = CpuSet::from_cpu_group(am, &group).unwrap();
    assert_eq!(mask.0, vec![0b1100_1010_0011u64]);
    let group = CpuGroup::try_from("19").unwrap();
    assert_eq!(CpuSet::from_cpu_group(am, &group).unwrap().0, vec![1u64 << 19]);
}

#[test]
fn from_cpu_group_refuses_high_index() {
    let am = AffinityManager::mock_new(20);
    let group = CpuGroup::try_from("3,20").unwrap();
    assert!(matches!(CpuSet::from_cpu_group(am, &group), Err(Error::CpuIndexTooHigh)));
    let group = CpuGroup::try_from("18-25").unwrap();
    assert!(matches!(CpuSet::from_cpu_group(am, &group), Err(Error::CpuIndexTooHigh)));
}

#[test]
fn masks_hold_every_cpu_of_the_machine() {
    let am = AffinityManager::mock_new(65);
    let mask = CpuSet::from_cpu_group(am, &CpuGroup::try_from("64").unwrap()).unwrap();
    assert_eq!(mask.0, vec![0, 1]);
    let mask = CpuSet::from_cpu_group(am, &CpuGroup::try_from("0,63-64").unwrap()).unwrap();
    assert_eq!(mask.0, vec![1 | (1 << 63), 1]);
    assert!(matches!(
        CpuSet::from_cpu_group(am, &CpuGroup::try_from("65").unwrap()),
        Err(Error::CpuIndexTooHigh)
    ));
    let am = AffinityManager::mock_new(1);
    let mask = CpuSet::from_cpu_group(am, &CpuGroup::try_from("0").unwrap()).unwrap();
    assert_eq!(mask.0, vec![1]);
    let am = AffinityManager::mock_new(0);
    assert!(matches!(
        CpuSet::from_cpu_group(am, &CpuGroup::try_from("0").unwrap()),
        Err(Error::CpuIndexTooHigh)
    ));
}

#[test]
fn check_applied_compares_masks() {
    let mut a = CpuSet::mock_new(128);
    let mut b = CpuSet::mock_new(128);
    a.mock_set(70);
    assert!(matches!(a.check_applied(&b), Err(Error::KernelIgnoredSchedSetAffinity)));
    b.mock_set(70);
    assert!(a.check_applied(&b).is_ok());
    assert!(a.same_words(&b));
    assert!(!a.same_words(&CpuSet::mock_new(64)));
}

#[test]
fn affinity_manager_from_entries() {
    let names: Vec<String> = ["cpu0", "cpu3", "cpufreq", "cpuidle", "cpu12", "modalias", "xcpu40", "cpu+7"]
        .iter()
        .map(|s| s.to_string())
        .collect();
    assert_eq!(AffinityManager::new(&names).cpu_count(), 13);
    assert_eq!(fah_balancer::ncpu::ncpu(&names), 13);
    assert_eq!(fah_balancer::ncpu::ncpu(&[]), 0);
    assert_eq!(fah_balancer::ncpu::ncpu(&["cpu0".to_string()]), 1);
    assert_eq!(fah_balancer::ncpu::ncpu(&["cpufreq".to_string()]), 0);
    let twenty: Vec<String> = (0..20).map(|i| format!("cpu{i}")).collect();
    assert_eq!(fah_balancer::ncpu::ncpu(&twenty), 20);
    assert_eq!(fah_balancer::ncpu::ncpu(&["cpu18446744073709551615".to_string()]), usize::MAX);
}
