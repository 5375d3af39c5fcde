use presort::PresortedVec;

#[test]
fn presorted_vec_test_push() {
    let mut vec = PresortedVec::new();
    assert_eq!(vec.len(), 0);
    assert_eq!(vec.get(0), None);
    assert_eq!(vec.is_sorted(), true);

    vec.push(0);
    assert_eq!(vec.len(), 1);
    assert_eq!(vec.get(0), Some(0));
    assert_eq!(vec.get(1), None);
    assert_eq!(vec.is_sorted(), true);
    assert_eq!(vec.sorted_iter().to_vec(), vec![0]);

    vec.push(30);
    assert_eq!(vec.len(), 2);
    assert_eq!(vec.get(0), Some(0));
    assert_eq!(vec.get(1), Some(30));
    assert_eq!(vec.get(2), None);
    assert_eq!(vec.is_sorted(), true);
    assert_eq!(vec.sorted_iter().to_vec(), vec![0, 30]);

    vec.push(20);
    assert_eq!(vec.len(), 3);
    assert_eq!(vec.get(0), Some(0));
    assert_eq!(vec.get(1), Some(30));
    assert_eq!(vec.get(2), Some(20));
    assert_eq!(vec.get(3), None);
    assert_eq!(vec.is_sorted(), false);
    assert_eq!(vec.sorted_iter().to_vec(), vec![0, 20, 30]);

    assert_eq!(vec.len(), 3);
    assert_eq!(vec.get(0), Some(0));
    assert_eq!(vec.get(1), Some(30));
    assert_eq!(vec.get(2), Some(20));
    assert_eq!(vec.get(3), None);
    assert_eq!(vec.is_sorted(), true);
    assert_eq!(vec.sorted_iter().to_vec(), vec![0, 20, 30]);

    vec.push(10);
    assert_eq!(vec.len(), 4);
    assert_eq!(vec.get(0), Some(0));
    assert_eq!(vec.get(1), Some(30));
    assert_eq!(vec.get(2), Some(20));
    assert_eq!(vec.get(3), Some(10));
    assert_eq!(vec.get(4), None);
    assert_eq!(vec.is_sorted(), false);
    assert_eq!(vec.sorted_iter().to_vec(), vec![0, 10, 20, 30]);

    assert_eq!(vec.len(), 4);
    assert_eq!(vec.get(0), Some(0));
    assert_eq!(vec.get(1), Some(30));
    assert_eq!(vec.get(2), Some(20));
    assert_eq!(vec.get(3), Some(10));
    assert_eq!(vec.get(4), None);
    assert_eq!(vec.is_sorted(), true);
    assert_eq!(vec.sorted_iter().to_vec(), vec![0, 10, 20, 30]);
}

#[test]
fn presorted_vec_test_set() {
    let mut vec = PresortedVec::from_vec(vec![0, 30, 20, 10]);
    assert_eq!(vec.len(), 4);
    assert_eq!(vec.get(0), Some(0));
    assert_eq!(vec.get(1), Some(30));
    assert_eq!(vec.get(2), Some(20));
    assert_eq!(vec.get(3), Some(10));
    assert_eq!(vec.get(4), None);
    assert_eq!(vec.is_sorted(), false);
    assert_eq!(vec.sorted_iter().to_vec(), vec![0, 10, 20, 30]);

    vec.set(2, 21);
    assert_eq!(vec.len(), 4);
    assert_eq!(vec.get(0), Some(0));
    assert_eq!(vec.get(1), Some(30));
    assert_eq!(vec.get(2), Some(21));
    assert_eq!(vec.get(3), Some(10));
    assert_eq!(vec.get(4), None);
    assert_eq!(vec.is_sorted(), true);
    assert_eq!(vec.sorted_iter().to_vec(), vec![0, 10, 21, 30]);

    vec.set(2, 31);
    assert_eq!(vec.len(), 4);
    assert_eq!(vec.get(0), Some(0));
    assert_eq!(vec.get(1), Some(30));
    assert_eq!(vec.get(2), Some(31));
    assert_eq!(vec.get(3), Some(10));
    assert_eq!(vec.get(4), None);
    assert_eq!(vec.is_sorted(), false);
    assert_eq!(vec.sorted_iter().to_vec(), vec![0, 10, 30, 31]);

    vec.set(2, 1);
    assert_eq!(vec.len(), 4);
    assert_eq!(vec.get(0), Some(0));
    assert_eq!(vec.get(1), Some(30));
    assert_eq!(vec.get(2), Some(1));
    assert_eq!(vec.get(3), Some(10));
    assert_eq!(vec.get(4), None);
    assert_eq!(vec.is_sorted(), false);
    assert_eq!(vec.sorted_iter().to_vec(), vec![0, 1, 10, 30]);
}

#[test]
fn presorted_vec_push_keeps_order_iff_at_least_max() {
    let mut vec = PresortedVec::new();
    vec.push(10);
    vec.push(20);
    vec.push(20);
    assert_eq!(vec.is_sorted(), true);
    vec.push(30);
    assert_eq!(vec.is_sorted(), true);
    vec.push(25);
    assert_eq!(vec.is_sorted(), false);
    assert_eq!(vec.sorted_iter().to_vec(), vec![10, 20, 20, 25, 30]);
}

#[test]
fn presorted_vec_set_keeps_order_iff_between_neighbours() {
    let mut vec = PresortedVec::new();
    vec.push(10);
    vec.push(20);
    vec.push(30);
    assert_eq!(vec.is_sorted(), true);

    vec.set(1, 15);
    assert_eq!(vec.is_sorted(), true);
    vec.set(0, 15);
    assert_eq!(vec.is_sorted(), true);
    vec.set(2, 15);
    assert_eq!(vec.is_sorted(), true);
    assert_eq!(vec.sorted_iter().to_vec(), vec![15, 15, 15]);

    vec.set(1, 99);
    assert_eq!(vec.is_sorted(), false);
    assert_eq!(vec.sorted_iter().to_vec(), vec![15, 15, 99]);
}

#[test]
fn presorted_vec_sort_reverse_and_duplicates() {
    let mut rev = PresortedVec::from_vec(vec![30, 20, 10, 0]);
    assert_eq!(rev.sorted_iter().to_vec(), vec![0, 10, 20, 30]);
    let mut dup = PresortedVec::from_vec(vec![5, 5, 3]);
    assert_eq!(dup.sorted_iter().to_vec(), vec![3, 5, 5]);
    let mut sorted_in = PresortedVec::from_vec(vec![1, 2, 3]);
    assert_eq!(sorted_in.is_sorted(), true);
    assert_eq!(sorted_in.sorted_iter().to_vec(), vec![1, 2, 3]);
}

#[test]
fn presorted_vec_truncate_clears_order() {
    let mut vec = PresortedVec::from_vec(vec![3, 1, 2]);
    vec.sort();
    assert_eq!(vec.get_permuted(0), Some(1));
    vec.truncate(2);
    assert_eq!(vec.len(), 2);
    assert_eq!(vec.get(0), Some(3));
    assert_eq!(vec.get(1), Some(1));
    assert_eq!(vec.is_sorted(), false);
    assert_eq!(vec.sorted_iter().to_vec(), vec![1, 3]);
    vec.truncate(9);
    assert_eq!(vec.len(), 2);
}

#[test]
fn presorted_iter_steps() {
    let mut vec = PresortedVec::from_vec(vec![2, 1]);
    vec.sort();
    let mut it = vec.presorted_iter();
    assert_eq!(it.next(), Some(1));
    assert_eq!(it.to_vec(), vec![2]);
    assert_eq!(it.next(), Some(2));
    assert_eq!(it.next(), None);
}
