use presort::PermutedVec;

#[test]
fn permuted_vec_test_push() {
    let mut vec = PermutedVec::new();
    assert_eq!(vec.len(), 0);
    assert_eq!(vec.get(0), None);
    assert_eq!(vec.is_sorted(), true);

    vec.push(0);
    assert_eq!(vec.len(), 1);
    assert_eq!(vec.get(0), Some(0));
    assert_eq!(vec.get(1), None);
    assert_eq!(vec.is_sorted(), true);
    assert_eq!(vec.sorted_iter().to_vec(), vec![0]);

    vec.push(30);
    assert_eq!(vec.len(), 2);
    assert_eq!(vec.get(0), Some(0));
    assert_eq!(vec.get(1), Some(30));
    assert_eq!(vec.get(2), None);
    assert_eq!(vec.is_sorted(), true);
    assert_eq!(vec.sorted_iter().to_vec(), vec![0, 30]);

    vec.push(20);
    assert_eq!(vec.len(), 3);
    assert_eq!(vec.get(0), Some(0));
    assert_eq!(vec.get(1), Some(30));
    assert_eq!(vec.get(2), Some(20));
    assert_eq!(vec.get(3), None);
    assert_eq!(vec.is_sorted(), false);
    assert_eq!(vec.sorted_iter().to_vec(), vec![0, 20, 30]);

    assert_eq!(vec.len(), 3);
    assert_eq!(vec.get(0), Some(0));
    assert_eq!(vec.get(1), Some(30));
    assert_eq!(vec.get(2), Some(20));
    assert_eq!(vec.get(3), None);
    assert_eq!(vec.is_sorted(), true);
    assert_eq!(vec.sorted_iter().to_vec(), vec![0, 20, 30]);

    vec.push(10);
    assert_eq!(vec.len(), 4);
    assert_eq!(vec.get(0), Some(0));
    assert_eq!(vec.get(1), Some(30));
    assert_eq!(vec.get(2), Some(20));
    assert_eq!(vec.get(3), Some(10));
    assert_eq!(vec.get(4), None);
    assert_eq!(vec.is_sorted(), false);
    assert_eq!(vec.sorted_iter().to_vec(), vec![0, 10, 20, 30]);

    assert_eq!(vec.len(), 4);
    assert_eq!(vec.get(0), Some(0));
    assert_eq!(vec.get(1), Some(30));
    assert_eq!(vec.get(2), Some(20));
    assert_eq!(vec.get(3), Some(10));
    assert_eq!(vec.get(4), None);
    assert_eq!(vec.is_sorted(), true);
    assert_eq!(vec.sorted_iter().to_vec(), vec![0, 10, 20, 30]);
}

#[test]
fn permuted_vec_test_set() {
    let mut vec = PermutedVec::from_vec(vec![0, 30, 20, 10]);
    assert_eq!(vec.len(), 4);
    assert_eq!(vec.get(0), Some(0));
    assert_eq!(vec.get(1), Some(30));
    assert_eq!(vec.get(2), Some(20));
    assert_eq!(vec.get(3), Some(10));
    assert_eq!(vec.get(4), None);
    assert_eq!(vec.is_sorted(), false);
    assert_eq!(vec.sorted_iter().to_vec(), vec![0, 10, 20, 30]);

    vec.set(2, 21);
    assert_eq!(vec.len(), 4);
    assert_eq!(vec.get(0), Some(0));
    assert_eq!(vec.get(1), Some(30));
    assert_eq!(vec.get(2), Some(21));
    assert_eq!(vec.get(3), Some(10));
    assert_eq!(vec.get(4), None);
    assert_eq!(vec.is_sorted(), true);
    assert_eq!(vec.sorted_iter().to_vec(), vec![0, 10, 21, 30]);

    vec.set(2, 31);
    assert_eq!(vec.len(), 4);
    assert_eq!(vec.get(0), Some(0));
    assert_eq!(vec.get(1), Some(30));
    assert_eq!(vec.get(2), Some(31));
    assert_eq!(vec.get(3), Some(10));
    assert_eq!(vec.get(4), None);
    assert_eq!(vec.is_sorted(), false);
    assert_eq!(vec.sorted_iter().to_vec(), vec![0, 10, 30, 31]);

    vec.set(2, 1);
    assert_eq!(vec.len(), 4);
    assert_eq!(vec.get(0), Some(0));
    assert_eq!(vec.get(1), Some(30));
    assert_eq!(vec.get(2), Some(1));
    assert_eq!(vec.get(3), Some(10));
    assert_eq!(vec.get(4), None);
    assert_eq!(vec.is_sorted(), false);
    assert_eq!(vec.sorted_iter().to_vec(), vec![0, 1, 10, 30]);
}

#[test]
fn permuted_vec_truncate_resets_order() {
    let mut vec = PermutedVec::from_vec(vec![3, 1, 2]);
    vec.sort();
    assert_eq!(vec.sorted_iter().to_vec(), vec![1, 2, 3]);
    vec.truncate(2);
    assert_eq!(vec.len(), 2);
    assert_eq!(vec.get(0), Some(3));
    assert_eq!(vec.get(1), Some(1));
    assert_eq!(vec.get_permuted(0), Some(3));
    assert_eq!(vec.get_permuted(1), Some(1));
    assert_eq!(vec.is_sorted(), false);
    assert_eq!(vec.sorted_iter().to_vec(), vec![1, 3]);
    vec.truncate(5);
    assert_eq!(vec.len(), 2);
}

#[test]
fn permuted_vec_permutation_iter_tracks_sort() {
    let mut vec = PermutedVec::from_vec(vec![20, 10, 30]);
    assert_eq!(vec.permutation_iter(), vec![0, 1, 2]);
    vec.sort();
    assert_eq!(vec.permutation_iter(), vec![1, 0, 2]);
    assert_eq!(vec.get_permuted(0), Some(10));
    assert_eq!(vec.get_permuted(1), Some(20));
    assert_eq!(vec.get_permuted(2), Some(30));
    assert_eq!(vec.get_permuted(3), None);
    assert_eq!(vec.get(0), Some(20));
}

#[test]
fn permuted_vec_sort_with_duplicates() {
    let mut vec = PermutedVec::from_vec(vec![5, 5, 3, 5, 1]);
    assert_eq!(vec.sorted_iter().to_vec(), vec![1, 3, 5, 5, 5]);
    let mut rev = PermutedVec::from_vec(vec![9, 7, 5, 3, 1]);
    assert_eq!(rev.sorted_iter().to_vec(), vec![1, 3, 5, 7, 9]);
    let mut empty = PermutedVec::new();
    assert_eq!(empty.sorted_iter().to_vec(), Vec::<usize>::new());
    assert_eq!(empty.is_sorted(), true);
}

#[test]
fn permuted_iter_steps() {
    let vec = PermutedVec::from_vec(vec![4, 2]);
    let mut it = vec.permuted_iter();
    assert_eq!(it.next(), Some(4));
    assert_eq!(it.to_vec(), vec![2]);
    assert_eq!(it.next(), Some(2));
    assert_eq!(it.next(), None);
}
