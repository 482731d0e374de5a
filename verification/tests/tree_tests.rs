use std::collections::HashMap;

use process_wick::KillList;
use process_wick::ProcessNode;
use process_wick::build_tree_from_table;
use process_wick::get_dog_pid;
use process_wick::get_pids_by_depth;
use process_wick::get_processes_in_dfs_order;
use process_wick::kill_process_group;

fn depth_of(tree: &HashMap<u32, ProcessNode>, pid: u32) -> usize {
    tree.get(&pid).expect("pid should be in the tree").depth
}

fn position(order: &[u32], pid: u32) -> usize {
    order
        .iter()
        .position(|&p| p == pid)
        .expect("pid should be in the kill order")
}

#[test]
fn test_linear_chain_post_order() {
    // root 1 -> 2 -> 3 -> 4: the kill order walks the chain bottom-up
    let table: Vec<(u32, u32)> = vec![(2, 1), (3, 2), (4, 3)];
    let tree = build_tree_from_table(1, &table);
    assert_eq!(tree.len(), 4);
    assert_eq!(depth_of(&tree, 1), 0);
    assert_eq!(depth_of(&tree, 2), 1);
    assert_eq!(depth_of(&tree, 3), 2);
    assert_eq!(depth_of(&tree, 4), 3);

    let order = get_processes_in_dfs_order(&tree, 1);
    assert_eq!(order, vec![4, 3, 2, 1]);
}

#[test]
fn test_branching_tree_post_order() {
    // root 1 -> {2, 3}; 2 -> {4, 5}; 3 -> {6}
    let table: Vec<(u32, u32)> = vec![(2, 1), (3, 1), (4, 2), (5, 2), (6, 3)];
    let tree = build_tree_from_table(1, &table);
    assert_eq!(tree.len(), 6);

    let order = get_processes_in_dfs_order(&tree, 1);
    assert_eq!(order.len(), 6);
    // the root comes last and each subtree's members precede their parent
    assert_eq!(*order.last().unwrap(), 1);
    assert!(position(&order, 4) < position(&order, 2));
    assert!(position(&order, 5) < position(&order, 2));
    assert!(position(&order, 6) < position(&order, 3));
    assert!(position(&order, 2) < position(&order, 1));
    assert!(position(&order, 3) < position(&order, 1));
    // with children kept in table order the walk is deterministic
    assert_eq!(order, vec![4, 5, 2, 6, 3, 1]);
}

#[test]
fn test_duplicate_records_collapse() {
    // the same child record three times: one child in the list
    let table: Vec<(u32, u32)> = vec![(2, 1), (2, 1), (2, 1)];
    let tree = build_tree_from_table(1, &table);
    assert_eq!(tree.len(), 2);
    assert_eq!(tree.get(&1).unwrap().children, vec![2]);
}

#[test]
fn test_cyclic_table_terminates() {
    // a corrupted table reports 1 and 2 as each other's parent
    let table: Vec<(u32, u32)> = vec![(2, 1), (1, 2)];
    let tree = build_tree_from_table(1, &table);
    assert_eq!(tree.len(), 2);

    let order = get_processes_in_dfs_order(&tree, 1);
    assert_eq!(order, vec![2, 1]);
}

#[test]
fn test_missing_root_single_node() {
    let table: Vec<(u32, u32)> = Vec::new();
    let tree = build_tree_from_table(42, &table);
    assert_eq!(tree.len(), 1);
    let root = tree.get(&42).unwrap();
    assert_eq!(root.pid, 42);
    assert_eq!(root.depth, 0);
    assert!(root.children.is_empty());
}

#[test]
fn test_self_parent_record_ignored() {
    // a record naming a pid as its own parent must not create a child
    let table: Vec<(u32, u32)> = vec![(1, 1), (2, 1)];
    let tree = build_tree_from_table(1, &table);
    assert_eq!(tree.len(), 2);
    assert_eq!(tree.get(&1).unwrap().children, vec![2]);
}

#[test]
fn test_pids_by_depth_sorted() {
    let table: Vec<(u32, u32)> = vec![(2, 1), (3, 1), (4, 2), (5, 2), (6, 3)];
    let tree = build_tree_from_table(1, &table);
    let by_depth = get_pids_by_depth(&tree);
    assert_eq!(by_depth.len(), 6);
    for w in by_depth.windows(2) {
        assert!(depth_of(&tree, w[0]) >= depth_of(&tree, w[1]));
    }
    assert_eq!(*by_depth.last().unwrap(), 1);
    let mut sorted = by_depth.clone();
    sorted.sort();
    assert_eq!(sorted, vec![1, 2, 3, 4, 5, 6]);
}

#[test]
fn test_process_node_new() {
    let node = ProcessNode::new(7, 3);
    assert_eq!(node.pid, 7);
    assert_eq!(node.parent_pid, 3);
    assert_eq!(node.depth, 0);
    assert!(node.children.is_empty());
}

#[test]
fn test_kill_list_preserved_across_merge() {
    // pids gathered in the graceful phase stay, new discoveries append
    let mut kill_list = KillList::new();
    kill_list.extend_with(&vec![10, 20, 30]);
    assert_eq!(kill_list.as_slice(), &[10, 20, 30]);

    kill_list.extend_with(&vec![30, 40, 10, 50]);
    assert_eq!(kill_list.as_slice(), &[10, 20, 30, 40, 50]);
    assert_eq!(kill_list.len(), 5);
    assert!(kill_list.contains(20));
    assert!(!kill_list.contains(60));
}

#[test]
fn test_kill_list_merge_drops_duplicates() {
    let mut kill_list = KillList::new();
    kill_list.extend_with(&vec![1, 1, 2, 1]);
    assert_eq!(kill_list.as_slice(), &[1, 2]);
}

#[test]
fn test_get_dog_pid_explicit() {
    assert_eq!(get_dog_pid(Some(4321)), 4321);
}

#[test]
fn test_live_snapshot_lists_processes() {
    // the machine running the tests has at least this test process
    let table = process_wick::get_all_processes();
    assert!(!table.is_empty());
}

#[test]
fn test_live_tree_for_unknown_pid() {
    // a pid far beyond any real pid space: the walk ends with just the root
    let tree = process_wick::build_process_tree(4_000_000_000);
    assert_eq!(tree.len(), 1);
    assert!(tree.contains_key(&4_000_000_000));
}

#[test]
fn test_liveness_of_unknown_pid() {
    assert!(!process_wick::is_process_alive(4_000_000_000));
}

#[test]
fn test_group_kill_unaddressable_ids() {
    // 0 and ids beyond the signal interface name no group: failure, no call
    assert!(!kill_process_group(0, false));
    assert!(!kill_process_group(0, true));
    assert!(!kill_process_group(u32::MAX, false));
}
