use port_ops::linux::{
    find_pid_by_port, find_pid_by_port_all, find_pids_by_name, inode_to_pid, is_port_available, pids_with_names,
    kill_tree, parent_links, scan_proc_net, NetTables, ProcFds, ProcFile, TreeOutcome,
};

fn lc(s: &str) -> Vec<char> {
    s.chars().collect()
}

const TCP: &str = "  sl  local_address rem_address   st tx_queue rx_queue tr tm->when retrnsmt   uid  timeout inode\n   0: 00000000:1F90 00000000:0000 0A 00000000:00000000 00:00000000 00000000  1000        0 12345 1 0000000000000000 100 0 0 10 0\n   1: 0100007F:1F90 0100007F:D2C4 01 00000000:00000000 00:00000000 00000000  1000        0 22222 1 0000000000000000 20 4 30 10 -1\n   2: 00000000:0050 00000000:0000 0A 00000000:00000000 00:00000000 00000000     0        0 33333 1 0000000000000000 100 0 0 10 0\n";

const UDP: &str = "   sl  local_address rem_address   st tx_queue rx_queue tr tm->when retrnsmt   uid  timeout inode ref pointer drops\n  100: 00000000:1F90 00000000:0000 07 00000000:00000000 00:00000000 00000000  1000        0 44444 2 0000000000000000 0\n";

fn fds(name: &str, links: &[&str]) -> ProcFds {
    ProcFds { name: Some(lc(name)), links: links.iter().map(|l| lc(l)).collect() }
}

fn procs() -> Vec<ProcFds> {
    vec![
        fds("self", &["socket:[12345]"]),
        fds("100", &["/dev/null", "pipe:[9]"]),
        fds("4242", &["/dev/pts/0", "socket:[12345]"]),
        fds("777", &["socket:[44444]"]),
        fds("80", &["socket:[33333]"]),
    ]
}

#[test]
fn inode_owner_is_first_numeric_holder() {
    assert_eq!(inode_to_pid(&procs(), &lc("12345")), Some(4242));
    assert_eq!(inode_to_pid(&procs(), &lc("99999")), None);
    // the link must name the inode exactly
    assert_eq!(inode_to_pid(&procs(), &lc("4444")), None);
    assert_eq!(inode_to_pid(&procs(), &lc("44444")), Some(777));
}

#[test]
fn inode_text_inside_another_inode_is_no_match() {
    let p = vec![fds("5", &["socket:[41234]"]), fds("9", &["socket:[123]"])];
    assert_eq!(inode_to_pid(&p, &lc("123")), Some(9));
    assert_eq!(inode_to_pid(&p, &lc("1234")), None);
}

#[test]
fn inode_search_passes_over_name_that_is_not_text() {
    let mut p = vec![ProcFds { name: None, links: vec![lc("socket:[12345]")] }];
    p.extend(procs());
    assert_eq!(inode_to_pid(&p, &lc("12345")), Some(4242));
}

#[test]
fn scan_finds_listening_tcp_rows_only() {
    assert_eq!(scan_proc_net(&lc("tcp"), &lc(TCP), 8080, false, &procs()), vec![4242]);
    assert_eq!(scan_proc_net(&lc("tcp"), &lc(TCP), 80, true, &procs()), vec![80]);
    assert_eq!(scan_proc_net(&lc("tcp"), &lc(TCP), 443, false, &procs()), Vec::<u32>::new());
    // UDP rows have no listening state to check
    assert_eq!(scan_proc_net(&lc("udp"), &lc(UDP), 8080, false, &procs()), vec![777]);
    // a table with only its header has no rows
    assert_eq!(scan_proc_net(&lc("tcp"), &lc("header\n"), 8080, false, &procs()), Vec::<u32>::new());
}

#[test]
fn scan_first_only_takes_one() {
    let two = format!("{}   3: 00000000:1F90 00000000:0000 0A 0 0 0 0 0 12345 1\n", TCP);
    assert_eq!(scan_proc_net(&lc("tcp6"), &lc(&two), 8080, false, &procs()), vec![4242, 4242]);
    assert_eq!(scan_proc_net(&lc("tcp6"), &lc(&two), 8080, true, &procs()), vec![4242]);
}

fn tables() -> NetTables {
    NetTables { tcp: None, tcp6: Some(lc(TCP)), udp: Some(lc(UDP)), udp6: None }
}

#[test]
fn port_lookups_agree() {
    assert_eq!(find_pid_by_port(8080, &tables(), &procs()), Some(4242));
    assert_eq!(find_pid_by_port_all(8080, &tables(), &procs()), vec![777, 4242]);
    assert_eq!(find_pid_by_port(9, &tables(), &procs()), None);
    assert_eq!(find_pid_by_port_all(9, &tables(), &procs()), Vec::<u32>::new());
    assert!(is_port_available(9, &tables()));
    assert!(!is_port_available(80, &tables()));
}

#[test]
fn port_with_unknown_owner_is_not_available() {
    // the listening socket's owner cannot be found (its descriptors are not readable)
    let t = NetTables { tcp: Some(lc(TCP)), tcp6: None, udp: None, udp6: None };
    assert_eq!(find_pid_by_port(8080, &t, &vec![]), None);
    assert!(!is_port_available(8080, &t));
    // a TCP socket that is not listening does not hold the port
    let only_connected = "header\n   1: 0100007F:1F90 0100007F:D2C4 01 0 0 0 0 0 22222 1\n";
    let t2 = NetTables { tcp: Some(lc(only_connected)), tcp6: None, udp: None, udp6: None };
    assert!(is_port_available(8080, &t2));
}

fn file(name: &str, text: Option<&str>) -> ProcFile {
    ProcFile { name: Some(lc(name)), text: text.map(lc) }
}

#[test]
fn names_match_ignoring_case() {
    let entries = vec![
        file("10", Some("Node\n")),
        file("11", Some("bash\n")),
        file("abc", Some("node\n")),
        file("12", None),
        file("13", Some("  my-NODE-app \n")),
    ];
    assert_eq!(find_pids_by_name(&lc("NODE"), &entries), vec![10, 13]);
    assert_eq!(find_pids_by_name(&lc("zsh"), &entries), Vec::<u32>::new());
    // every process with a readable name matches the empty name
    assert_eq!(find_pids_by_name(&lc(""), &entries), vec![10, 11, 13]);
    assert_eq!(find_pids_by_name(&lc("node"), &entries), find_pids_by_name(&lc("NoDe"), &entries));
}

#[test]
fn picking_from_lowered_names() {
    let entries = vec![file("1", Some("x")), file("2", Some("y")), file("z", Some("x")), file("3", None)];
    let lowered = vec![Some(lc("bash")), Some(lc("node")), Some(lc("node")), Some(lc("node"))];
    assert_eq!(pids_with_names(&entries, &lowered, &lc("od")), vec![2, 3]);
    assert_eq!(pids_with_names(&entries, &lowered[..1].to_vec(), &lc("")), vec![1]);
}

fn stat(pid: u32, comm: &str, ppid: u32) -> ProcFile {
    file(&pid.to_string(), Some(&format!("{} ({}) S {} 1 1 0 -1", pid, comm, ppid)))
}

#[test]
fn parent_links_read_stat() {
    let entries = vec![stat(1, "init", 0), stat(2, "a) (b", 1), file("x", Some("junk"))];
    let t = parent_links(&entries).unwrap();
    assert_eq!(t, vec![(1, 0), (2, 1)]);
    let bad = vec![file("3", Some("3 (x)"))];
    assert!(parent_links(&bad).is_none());
}

#[test]
fn kill_tree_kills_leaves_first_root_last() {
    let entries = vec![stat(1, "init", 0), stat(10, "sh", 1), stat(11, "a", 10), stat(12, "b", 10), stat(13, "c", 11)];
    match kill_tree(10, &entries) {
        TreeOutcome::Plan(p) => {
            assert_eq!(p.root, 10);
            assert_eq!(p.children, vec![13, 12, 11]);
        }
        _ => panic!("expected a plan"),
    }
}

#[test]
fn kill_tree_reports_cycles_and_bad_stat() {
    let cyc = vec![stat(5, "a", 6), stat(6, "b", 5)];
    assert!(matches!(kill_tree(5, &cyc), TreeOutcome::Endless));
    let bad = vec![file("7", Some("7 (x)"))];
    assert!(matches!(kill_tree(7, &bad), TreeOutcome::BadStat));
    let alone = vec![stat(1, "init", 0)];
    match kill_tree(99, &alone) {
        TreeOutcome::Plan(p) => {
            assert_eq!(p.root, 99);
            assert!(p.children.is_empty());
        }
        _ => panic!("expected a plan"),
    }
}
