use port_ops::windows::{
    find_pid_by_port, find_pid_by_port_all, find_pids_by_name, is_port_available, kill_tree,
    tables_hold_rows, tcp6_pids_from_buf, tcp_pids_from_buf, udp6_pids_from_buf, udp_pids_from_buf,
    pids_with_names, ProcessEntry, SocketTables,
};

fn be(port: u16) -> u32 {
    port.to_be() as u32
}

fn table(rows: &[Vec<u32>], size: usize) -> Vec<u8> {
    let mut b = (rows.len() as u32).to_le_bytes().to_vec();
    for r in rows {
        let mut row = vec![0u8; size];
        for (k, w) in r.iter().enumerate() {
            if *w != 0 {
                row[k * 4..k * 4 + 4].copy_from_slice(&w.to_le_bytes());
            }
        }
        b.extend(row);
    }
    b
}

// word positions: tcp (state, laddr, lport, raddr, rport, pid)
fn tcp_row(state: u32, port: u16, pid: u32) -> Vec<u32> {
    vec![state, 0x0100007f, be(port), 0, 0, pid]
}

fn udp_row(port: u16, pid: u32) -> Vec<u32> {
    vec![0, be(port), pid]
}

// tcp6: addr(4 words) scope lport addr(4) scope rport state pid
fn tcp6_row(state: u32, port: u16, pid: u32) -> Vec<u32> {
    vec![1, 0, 0, 0, 0, be(port), 0, 0, 0, 0, 0, 0, state, pid]
}

fn udp6_row(port: u16, pid: u32) -> Vec<u32> {
    vec![1, 0, 0, 0, 0, be(port), pid]
}

#[test]
fn tcp_rows_need_listening_state() {
    let b = table(&[tcp_row(5, 3000, 1), tcp_row(2, 3000, 2), tcp_row(2, 3001, 3), tcp_row(2, 3000, 4)], 24);
    assert_eq!(tcp_pids_from_buf(&b, be(3000), false), vec![2, 4]);
    assert_eq!(tcp_pids_from_buf(&b, be(3000), true), vec![2]);
    assert_eq!(tcp_pids_from_buf(&b, be(9), false), Vec::<u32>::new());
}

#[test]
fn upper_bits_of_the_port_word_are_ignored() {
    let b = table(&[tcp_row(2, 3000, 1)], 24);
    let mut b2 = b.clone();
    // the port word of the first row starts at 4 + 8; set its upper two bytes
    b2[4 + 8 + 2] = 0xab;
    b2[4 + 8 + 3] = 0xcd;
    assert_eq!(tcp_pids_from_buf(&b2, be(3000), false), vec![1]);
    let u = table(&[vec![0, be(53) | 0xffff_0000, 8]], 12);
    assert_eq!(udp_pids_from_buf(&u, be(53), false), vec![8]);
}

#[test]
fn udp_and_ipv6_rows() {
    let u = table(&[udp_row(53, 8), udp_row(54, 9)], 12);
    assert_eq!(udp_pids_from_buf(&u, be(53), false), vec![8]);
    let t6 = table(&[tcp6_row(2, 443, 20), tcp6_row(1, 443, 21)], 56);
    assert_eq!(tcp6_pids_from_buf(&t6, be(443), false), vec![20]);
    let u6 = table(&[udp6_row(443, 30)], 28);
    assert_eq!(udp6_pids_from_buf(&u6, be(443), false), vec![30]);
}

fn sockets() -> SocketTables {
    SocketTables {
        tcp: Some(table(&[tcp_row(2, 3000, 40)], 24)),
        tcp6: None,
        udp: Some(table(&[udp_row(3000, 12), udp_row(3000, 40)], 12)),
        udp6: Some(table(&[], 28)),
    }
}

#[test]
fn port_lookups_in_table_order() {
    let t = sockets();
    assert!(tables_hold_rows(&t));
    assert_eq!(find_pid_by_port(3000, &t), Some(40));
    assert_eq!(find_pid_by_port_all(3000, &t), vec![12, 40]);
    assert_eq!(find_pid_by_port(1, &t), None);
    assert!(is_port_available(1, &t));
}

#[test]
fn short_table_is_refused() {
    let mut t = sockets();
    t.tcp = Some(vec![3, 0, 0, 0]);
    assert!(!tables_hold_rows(&t));
}

fn entry(pid: u32, parent: u32, exe: &str) -> ProcessEntry {
    let mut b = exe.as_bytes().to_vec();
    b.resize(260, 0);
    ProcessEntry { pid, parent, exe_file: b }
}

#[test]
fn names_match_ignoring_case_windows() {
    let procs = vec![entry(4, 0, "System"), entry(100, 4, "NODE.EXE"), entry(101, 4, "notepad.exe")];
    assert_eq!(find_pids_by_name(&"node".chars().collect(), &procs), vec![100]);
    assert_eq!(find_pids_by_name(&"No".chars().collect(), &procs), vec![100, 101]);
    assert_eq!(find_pids_by_name(&"".chars().collect(), &procs), vec![4, 100, 101]);
    let lowered: Vec<Vec<char>> = vec!["system".chars().collect(), "node.exe".chars().collect()];
    assert_eq!(pids_with_names(&procs, &lowered, &"e".chars().collect()), vec![4, 100]);
}

#[test]
fn kill_tree_breadth_first_reversed() {
    let procs = vec![entry(0, 0, "Idle"), entry(4, 0, "System"), entry(10, 4, "a"), entry(11, 10, "b"), entry(12, 4, "c"), entry(13, 11, "d")];
    let plan = kill_tree(4, &procs).unwrap();
    assert_eq!(plan.root, 4);
    assert_eq!(plan.children, vec![13, 11, 12, 10]);
    // the idle process is its own parent: the walk below it never ends
    assert!(kill_tree(0, &procs).is_none());
}
