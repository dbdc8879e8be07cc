use fah_balancer::fah::{
    child_pids, core_threads, extract_basename, fah_cores, find_client, is_fah_client, FahClient,
};

#[test]
fn basename_and_args() {
    let (basename, args) = extract_basename("/usr/bin/FahCore_a8\0-np\04\0").unwrap();
    assert_eq!(basename, "FahCore_a8");
    assert_eq!(args, vec!["-np", "4", ""]);
    let (basename, args) = extract_basename("fah-client").unwrap();
    assert_eq!(basename, "fah-client");
    assert!(args.is_empty());
    let (basename, _) = extract_basename("/opt/").unwrap();
    assert_eq!(basename, "");
}

#[test]
fn recognises_client() {
    assert!(is_fah_client("/usr/bin/fah-client\0--config\0x\0"));
    assert!(!is_fah_client("/usr/bin/fah-client2\0"));
    assert!(!is_fah_client("bash\0fah-client\0"));
}

#[test]
fn reads_core_threads() {
    assert_eq!(core_threads("/var/lib/fah/cores/FahCore_a8\0-dir\00\0-np\012\0"), Some(12));
    assert_eq!(core_threads("FahCore_a9\0-np\08\0-np\03\0"), Some(8));
    assert_eq!(core_threads("FahCore_a7\0-np\08\0"), None);
    assert_eq!(core_threads("FahCore_a9\0-np"), None);
    assert_eq!(core_threads("FahCore_a9\0-np\0many\0"), None);
    assert_eq!(core_threads("FahCore_a9\0-n\08\0"), None);
}

#[test]
fn reads_child_pids() {
    assert_eq!(child_pids("12 34 x 56 \n"), vec![12, 34, 56]);
    assert_eq!(child_pids("\t 7\u{3000}"), vec![7]);
    assert_eq!(child_pids(""), Vec::<usize>::new());
    assert_eq!(child_pids("1  2"), vec![1, 2]);
}

#[test]
fn collects_and_sorts_cores() {
    let procs = vec![
        (10, "FahCore_a8\0-np\06\0".to_string()),
        (11, "bash\0".to_string()),
        (12, "FahCore_a9\0-np\02\0".to_string()),
        (13, "FahCore_a9\0-np\06\0".to_string()),
    ];
    let cores = fah_cores(&procs);
    let found: Vec<(usize, usize)> = cores.iter().map(|c| (c.pid, c.threads)).collect();
    assert_eq!(found, vec![(12, 2), (10, 6), (13, 6)]);
}

#[test]
fn client_pid() {
    assert_eq!(FahClient::from_pid(42).pid(), 42);
}

#[test]
fn finds_first_client() {
    let procs = vec![
        (1, "/sbin/init\0".to_string()),
        (7, "/usr/bin/fah-client\0--config\0".to_string()),
        (9, "fah-client\0".to_string()),
    ];
    assert_eq!(find_client(&procs).unwrap().pid(), 7);
    assert!(find_client(&procs[..1]).is_none());
    assert!(find_client(&[]).is_none());
}
