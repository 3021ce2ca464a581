use port_ops::macos::{
    find_children, find_pid_by_port, find_pid_by_port_all, find_pids_by_name, is_port_available,
    pids_from_lsof, pids_from_pgrep, TreeWalk,
};

#[test]
fn lsof_pid_lines() {
    let text: Vec<char> = "p123\nf4\np 456 \npx\n\n".chars().collect();
    assert_eq!(pids_from_lsof(&text), vec![123, 456]);
    let out = b"p900\r\nf12\np901\n".to_vec();
    assert_eq!(find_pid_by_port_all(&out), vec![900, 901]);
    assert_eq!(find_pid_by_port(&out), Some(900));
    assert!(!is_port_available(&out));
    assert!(is_port_available(&b"".to_vec()));
}

#[test]
fn pgrep_lines() {
    let text: Vec<char> = " 12\n13 \nabc\n".chars().collect();
    assert_eq!(pids_from_pgrep(&text), vec![12, 13]);
    assert_eq!(find_pids_by_name(&b"77\n78\n".to_vec()), vec![77, 78]);
    assert_eq!(find_children(&b"".to_vec()), Vec::<u32>::new());
}

#[test]
fn tree_walk_is_depth_first() {
    // 1 -> [2, 3], 2 -> [4], 3 -> [], 4 -> []
    let kids = |p: u32| -> Vec<u32> {
        match p {
            1 => vec![2, 3],
            2 => vec![4],
            _ => vec![],
        }
    };
    let mut w = TreeWalk::new(1);
    while let Some(p) = w.next() {
        w.add_children(&kids(p));
    }
    assert_eq!(w.tree, vec![1, 2, 4, 3]);
    let plan = w.kill_tree(1);
    assert_eq!(plan.root, 1);
    assert_eq!(plan.children, vec![3, 4, 2]);
}

#[test]
fn output_bytes_are_decoded() {
    // an invalid byte becomes a replacement character, so the line no longer
    // reads as a number
    assert_eq!(find_pids_by_name(&b"12\xff\n13\n".to_vec()), vec![13]);
    assert_eq!(find_pid_by_port_all(&b"p7\xfe\np8\n".to_vec()), vec![8]);
}
