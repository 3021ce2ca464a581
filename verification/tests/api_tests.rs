use port_ops::api::{kill_by_port, wait_for_port_free, WaitStep};
use port_ops::tree::kill_plan;

#[test]
fn wait_steps() {
    assert!(matches!(wait_for_port_free(true, 10_000, 5), WaitStep::Free));
    assert!(matches!(wait_for_port_free(false, 5, 5), WaitStep::TimedOut));
    assert!(matches!(wait_for_port_free(false, 4, 5), WaitStep::Sleep(50)));
    assert!(matches!(wait_for_port_free(false, 0, 0), WaitStep::TimedOut));
}

#[test]
fn kill_by_port_answers() {
    assert_eq!(kill_by_port(Some(5), true), Some(5));
    assert_eq!(kill_by_port(Some(5), false), None);
    assert_eq!(kill_by_port(None, true), None);
}

#[test]
fn kill_plan_with_repeated_child() {
    // a child listed twice is met (and signalled) twice
    let edges = vec![(2, 1), (2, 1), (3, 2)];
    let plan = kill_plan(1, &edges).unwrap();
    assert_eq!(plan.children, vec![3, 3, 2, 2]);
    // a self loop below the root never ends
    assert!(kill_plan(1, &vec![(2, 1), (2, 2)]).is_none());
}

fn fifo_kill_order(root: u32, edges: &[(u32, u32)]) -> Vec<u32> {
    let mut walk = Vec::new();
    let mut queue = std::collections::VecDeque::new();
    queue.push_back(root);
    while let Some(cur) = queue.pop_front() {
        walk.push(cur);
        for &(c, p) in edges {
            if p == cur {
                queue.push_back(c);
            }
        }
    }
    walk.iter().rev().copied().filter(|&p| p != root).collect()
}

#[test]
fn kill_plan_matches_a_queue_walk() {
    let forests: Vec<Vec<(u32, u32)>> = vec![
        vec![],
        vec![(2, 1), (3, 1), (4, 2), (5, 3), (6, 2), (7, 4)],
        vec![(10, 1), (11, 10), (12, 1), (13, 12), (14, 11), (15, 99)],
        vec![(2, 1), (2, 1), (3, 2)],
    ];
    for edges in &forests {
        for root in [1u32, 2, 10, 99] {
            let plan = kill_plan(root, edges).unwrap();
            assert_eq!(plan.root, root);
            assert_eq!(plan.children, fifo_kill_order(root, edges), "edges {:?} root {}", edges, root);
            // every child is signalled before its parent
            let order: Vec<u32> = plan.children.iter().copied().chain([root]).collect();
            for (i, &c) in plan.children.iter().enumerate() {
                let parent = edges.iter().find(|e| e.0 == c).unwrap().1;
                assert!(order[i + 1..].contains(&parent));
            }
        }
    }
}

#[test]
fn tree_kill_answer_is_the_roots() {
    let plan = kill_plan(1, &vec![(2, 1), (3, 2)]).unwrap();
    assert_eq!(plan.signals(), vec![3, 2, 1]);
    assert!(plan.answer(&vec![false, false, true]));
    assert!(!plan.answer(&vec![true, true, false]));
}
