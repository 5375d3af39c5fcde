use presort::MergeVec;

#[test]
fn merge_vec_test_push() {
    let mut vec = MergeVec::new();
    assert_eq!(vec.len(), 0);
    assert_eq!(vec.get(0), None);

    vec.push(0);
    assert_eq!(vec.len(), 1);
    assert_eq!(vec.get(0), Some(0));
    assert_eq!(vec.get(1), None);
    assert_eq!(vec.sorted_iter().to_vec(), vec![0]);

    vec.push(30);
    assert_eq!(vec.len(), 2);
    assert_eq!(vec.get(0), Some(0));
    assert_eq!(vec.get(1), Some(30));
    assert_eq!(vec.get(2), None);
    assert_eq!(vec.sorted_iter().to_vec(), vec![0, 30]);

    vec.push(20);
    assert_eq!(vec.len(), 3);
    assert_eq!(vec.get(0), Some(0));
    assert_eq!(vec.get(1), Some(30));
    assert_eq!(vec.get(2), Some(20));
    assert_eq!(vec.get(3), None);
    assert_eq!(vec.sorted_iter().to_vec(), vec![0, 20, 30]);
}

#[test]
fn merge_vec_test_set() {
    let mut vec = MergeVec::from_vec(vec![0, 30, 20, 10]);
    assert_eq!(vec.len(), 4);
    assert_eq!(vec.get(0), Some(0));
    assert_eq!(vec.get(1), Some(30));
    assert_eq!(vec.get(2), Some(20));
    assert_eq!(vec.get(3), Some(10));
    assert_eq!(vec.get(4), None);
    assert_eq!(vec.sorted_iter().to_vec(), vec![0, 10, 20, 30]);
}

#[test]
fn merge_vec_set_leaves_and_rejoins_run() {
    let mut vec = MergeVec::from_vec(vec![1, 5, 9]);
    assert_eq!(vec.sorted_iter().to_vec(), vec![1, 5, 9]);

    vec.set(1, 20);
    assert_eq!(vec.get(1), Some(20));
    assert_eq!(vec.sorted_iter().to_vec(), vec![1, 9, 20]);

    vec.set(1, 7);
    assert_eq!(vec.sorted_iter().to_vec(), vec![1, 7, 9]);

    vec.set(2, 8);
    assert_eq!(vec.get(2), Some(8));
    assert_eq!(vec.sorted_iter().to_vec(), vec![1, 7, 8]);
}

#[test]
fn merge_vec_truncate_resets_pending() {
    let mut vec = MergeVec::from_vec(vec![4, 2, 6, 1]);
    assert_eq!(vec.sorted_iter().to_vec(), vec![1, 2, 4, 6]);
    vec.truncate(3);
    assert_eq!(vec.len(), 3);
    assert_eq!(vec.get(0), Some(4));
    assert_eq!(vec.get(2), Some(6));
    assert_eq!(vec.sorted_iter().to_vec(), vec![2, 4, 6]);
    vec.truncate(7);
    assert_eq!(vec.len(), 3);
}

#[test]
fn merge_vec_iter_steps() {
    let mut vec = MergeVec::from_vec(vec![3, 1]);
    let mut it = vec.sorted_iter();
    assert_eq!(it.next(), Some(1));
    assert_eq!(it.to_vec(), vec![3]);
    assert_eq!(it.next(), Some(3));
    assert_eq!(it.next(), None);
}

#[test]
fn merge_vec_push_with_duplicates() {
    let mut vec = MergeVec::new();
    vec.push(5);
    vec.push(5);
    vec.push(2);
    vec.push(5);
    assert_eq!(vec.sorted_iter().to_vec(), vec![2, 5, 5, 5]);
    vec.push(5);
    vec.push(1);
    assert_eq!(vec.sorted_iter().to_vec(), vec![1, 2, 5, 5, 5, 5]);
}
