use presort::inc_tree::{dump, update, TreeNode};
use presort::PresortedVec;

#[test]
fn test_tree() {
    let mut main_tree = TreeNode::new_node(37);
    let mut vec = PresortedVec::new();
    dump(&mut main_tree, &mut vec);
    assert_eq!(vec.sorted_iter().to_vec(), vec![37]);
}

#[test]
fn test_update() {
    println!("start first dump");
    let mut main_tree = TreeNode::new_node(37);
    main_tree.push_child(&[], TreeNode::new_node(42));
    main_tree.push_child(&[], TreeNode::new_node(20));
    main_tree.push_child(&[], TreeNode::new_node(63));
    let mut vec = PresortedVec::new();
    dump(&mut main_tree, &mut vec);
    println!("finished first dump");
    assert_eq!(vec.sorted_iter().to_vec(), vec![20, 37, 42, 63]);

    println!("start first update");
    main_tree.set_data(&[1], 25);
    update(&mut main_tree, 0, &mut vec);
    println!("finished first update");
    assert_eq!(vec.sorted_iter().to_vec(), vec![25, 37, 42, 63]);

    println!("start add branch");
    main_tree.push_child(&[2], TreeNode::new_node(47));
    main_tree.push_child(&[2], TreeNode::new_node(53));
    main_tree.push_child(&[2], TreeNode::new_node(61));
    main_tree.push_child(&[2], TreeNode::new_node(57));
    update(&mut main_tree, 0, &mut vec);
    println!("finished add branch");
    assert_eq!(
        vec.sorted_iter().to_vec(),
        vec![25, 37, 42, 47, 53, 57, 61, 63]
    );

    println!("start update branch");
    main_tree.set_data(&[2, 2], 77);
    update(&mut main_tree, 0, &mut vec);
    println!("finished update branch");
    assert_eq!(
        vec.sorted_iter().to_vec(),
        vec![25, 37, 42, 47, 53, 57, 63, 77]
    );

    println!("start early insertion");
    main_tree.push_child(&[1], TreeNode::new_node(1));
    update(&mut main_tree, 0, &mut vec);
    println!("finished early insertion");
    assert_eq!(
        vec.sorted_iter().to_vec(),
        vec![1, 25, 37, 42, 47, 53, 57, 63, 77]
    );

    println!("start deep add");
    let mut new_branch = TreeNode::new_node(100);
    new_branch.push_child(&[], TreeNode::new_node(101));
    main_tree.push_child(&[2, 2], new_branch);
    update(&mut main_tree, 0, &mut vec);
    println!("finished deep add");
    assert_eq!(
        vec.sorted_iter().to_vec(),
        vec![1, 25, 37, 42, 47, 53, 57, 63, 77, 100, 101]
    );

    println!("start deep edit");
    main_tree.set_data(&[2, 2, 0, 0], 105);
    update(&mut main_tree, 0, &mut vec);
    println!("finished deep edit");
    assert_eq!(
        vec.sorted_iter().to_vec(),
        vec![1, 25, 37, 42, 47, 53, 57, 63, 77, 100, 105]
    );

    println!("start pop branch");
    main_tree.pop_child(&[2, 2]);
    update(&mut main_tree, 0, &mut vec);
    println!("finished pop branch");
    assert_eq!(
        vec.sorted_iter().to_vec(),
        vec![1, 25, 37, 42, 47, 53, 57, 63, 77]
    );
}

#[test]
fn test_pop_compacts_container() {
    let mut tree = TreeNode::new_node(37);
    tree.push_child(&[], TreeNode::new_node(42));
    tree.push_child(&[], TreeNode::new_node(20));
    let mut vec = PresortedVec::new();
    let written = dump(&mut tree, &mut vec);
    assert_eq!(written, 3);
    assert_eq!(vec.len(), 3);

    let popped = tree.pop_child(&[]);
    assert_eq!(popped.map(|kid| kid.get_data(&[])), Some(20));
    let size = update(&mut tree, 0, &mut vec);
    assert_eq!(size, 2);
    assert_eq!(vec.len(), 2);
    assert_eq!(vec.get(0), Some(37));
    assert_eq!(vec.get(1), Some(42));
    assert_eq!(vec.sorted_iter().to_vec(), vec![37, 42]);
}

#[test]
fn test_pop_without_children() {
    let mut tree = TreeNode::new_node(8);
    assert!(tree.pop_child(&[]).is_none());
    assert_eq!(tree.num_children(), 0);
}

#[test]
fn test_set_data_noop_keeps_update_cheap() {
    let mut tree = TreeNode::new_node(5);
    tree.push_child(&[], TreeNode::new_node(9));
    let mut vec = PresortedVec::new();
    dump(&mut tree, &mut vec);

    tree.set_data(&[0], 9);
    let size = update(&mut tree, 0, &mut vec);
    assert_eq!(size, 2);
    assert_eq!(vec.len(), 2);
    assert_eq!(vec.sorted_iter().to_vec(), vec![5, 9]);
}

#[test]
fn test_set_child_replaces_subtree() {
    let mut tree = TreeNode::new_node(1);
    let mut old_branch = TreeNode::new_node(2);
    old_branch.push_child(&[], TreeNode::new_node(3));
    tree.push_child(&[], old_branch);
    let mut vec = PresortedVec::new();
    dump(&mut tree, &mut vec);
    assert_eq!(vec.sorted_iter().to_vec(), vec![1, 2, 3]);

    let replaced = tree.set_child(&[], 0, TreeNode::new_node(7));
    assert_eq!(replaced.get_data(&[]), 2);
    assert_eq!(replaced.get_data(&[0]), 3);
    update(&mut tree, 0, &mut vec);
    assert_eq!(vec.len(), 2);
    assert_eq!(vec.sorted_iter().to_vec(), vec![1, 7]);
}

#[test]
fn test_update_matches_fresh_dump() {
    let mut tree = TreeNode::new_node(50);
    tree.push_child(&[], TreeNode::new_node(40));
    tree.push_child(&[], TreeNode::new_node(60));
    let mut vec = PresortedVec::new();
    dump(&mut tree, &mut vec);

    tree.set_data(&[0], 45);
    tree.push_child(&[1], TreeNode::new_node(55));
    tree.pop_child(&[]);
    tree.push_child(&[], TreeNode::new_node(65));
    update(&mut tree, 0, &mut vec);

    let mut rebuilt = TreeNode::new_node(50);
    rebuilt.push_child(&[], TreeNode::new_node(45));
    rebuilt.push_child(&[], TreeNode::new_node(65));
    let mut fresh = PresortedVec::new();
    dump(&mut rebuilt, &mut fresh);

    assert_eq!(vec.sorted_iter().to_vec(), fresh.sorted_iter().to_vec());
    assert_eq!(vec.sorted_iter().to_vec(), vec![45, 50, 65]);
}

#[test]
fn test_tree_readers() {
    let mut tree = TreeNode::new_node(10);
    tree.push_child(&[], TreeNode::new_node(11));
    tree.push_child(&[], TreeNode::new_node(12));
    tree.push_child(&[1], TreeNode::new_node(13));
    assert_eq!(tree.num_children(), 2);
    assert_eq!(tree.total_nodes(), 4);
    assert_eq!(tree.get_data(&[]), 10);
    assert_eq!(tree.get_data(&[0]), 11);
    assert_eq!(tree.get_data(&[1, 0]), 13);
    assert_eq!(tree.get_child(1).get_data(&[]), 12);
    assert_eq!(tree.node_ref(&[1]).num_children(), 1);
}

#[test]
fn test_flagging() {
    let mut tree = TreeNode::new_node(3);
    tree.push_child(&[], TreeNode::new_node(4));
    let mut vec = PresortedVec::new();
    dump(&mut tree, &mut vec);

    tree.flag_as_updated(&[0]);
    update(&mut tree, 0, &mut vec);
    assert_eq!(vec.sorted_iter().to_vec(), vec![3, 4]);

    tree.flag_as_new();
    update(&mut tree, 0, &mut vec);
    assert_eq!(vec.len(), 2);
    assert_eq!(vec.sorted_iter().to_vec(), vec![3, 4]);
}
