use rateless_iblt::binaryheap::{rebuild, sift_down, sift_up, Hole, Keyed};
use rateless_iblt::decoder::index_mut_u64;

fn is_heap(v: &[usize]) -> bool {
    (1..v.len()).all(|i| v[(i - 1) / 2] <= v[i])
}

#[test]
fn sift_up_restores_the_heap() {
    let mut v: Vec<usize> = vec![1, 3, 2, 7, 4, 0];
    let at = sift_up(&mut v, 0, 5);
    assert_eq!(at, 0);
    assert_eq!(v, vec![0, 3, 1, 7, 4, 2]);
    assert!(is_heap(&v));
}

#[test]
fn sift_up_stops_below_a_smaller_parent() {
    let mut v: Vec<usize> = vec![1, 3, 2, 7, 4, 5];
    let at = sift_up(&mut v, 0, 5);
    assert_eq!(at, 5);
    assert_eq!(v, vec![1, 3, 2, 7, 4, 5]);
}

#[test]
fn sift_up_stops_at_start() {
    let mut v: Vec<usize> = vec![5, 6, 7, 0];
    let at = sift_up(&mut v, 1, 3);
    assert_eq!(at, 1);
    assert_eq!(v, vec![5, 0, 7, 6]);
}

#[test]
fn sift_down_restores_the_heap() {
    let mut v: Vec<usize> = vec![9, 1, 2, 3, 4, 5, 6];
    sift_down(&mut v, 0);
    assert_eq!(v, vec![1, 3, 2, 9, 4, 5, 6]);
    assert!(is_heap(&v));
}

#[test]
fn sift_down_takes_the_only_child() {
    let mut v: Vec<usize> = vec![1, 8, 2, 3];
    sift_down(&mut v, 1);
    assert_eq!(v, vec![1, 3, 2, 8]);
    let mut w: Vec<usize> = vec![4];
    sift_down(&mut w, 0);
    assert_eq!(w, vec![4]);
}

#[test]
fn sift_down_leaves_the_rest_alone() {
    let mut v: Vec<usize> = vec![0, 9, 1, 5, 6, 2, 3];
    sift_down(&mut v, 1);
    assert_eq!(v, vec![0, 5, 1, 9, 6, 2, 3]);
    // beyond the slice, and on the empty slice, nothing is touched
    sift_down(&mut v, 7);
    sift_down(&mut v, usize::MAX);
    assert_eq!(v, vec![0, 5, 1, 9, 6, 2, 3]);
    let mut e: Vec<usize> = vec![];
    sift_down(&mut e, 0);
    assert!(e.is_empty());
}

#[test]
fn sift_up_moves_along_the_path_to_the_root() {
    let mut v: Vec<usize> = vec![4, 5, 6, 7, 8, 9, 1];
    let at = sift_up(&mut v, 0, 6);
    assert_eq!(at, 0);
    assert_eq!(v, vec![1, 5, 4, 7, 8, 9, 6]);
    // with `pos` at `start` or before, nothing is touched, whatever `pos` is
    let mut w: Vec<usize> = vec![3, 1];
    assert_eq!(sift_up(&mut w, 1, 1), 1);
    assert_eq!(sift_up(&mut w, 9, 5), 5);
    assert_eq!(w, vec![3, 1]);
    let mut e: Vec<usize> = vec![];
    assert_eq!(sift_up(&mut e, 0, 0), 0);
}

#[test]
fn rebuild_orders_any_slice() {
    let mut v: Vec<usize> = vec![9, 8, 7, 6, 5, 4, 3, 2, 1, 0, 5, 5];
    rebuild(&mut v);
    assert!(is_heap(&v));
    let mut sorted = v.clone();
    sorted.sort();
    assert_eq!(sorted, vec![0, 1, 2, 3, 4, 5, 5, 5, 6, 7, 8, 9]);
    let mut e: Vec<usize> = vec![];
    rebuild(&mut e);
    assert!(e.is_empty());
}

#[test]
fn heap_pops_in_ascending_order() {
    let mut v: Vec<usize> = vec![12, 3, 44, 3, 0, 19, 7, 7, 1];
    rebuild(&mut v);
    let mut out = vec![];
    while !v.is_empty() {
        out.push(v.swap_remove(0));
        if !v.is_empty() {
            sift_down(&mut v, 0);
        }
    }
    assert_eq!(out, vec![0, 1, 3, 3, 7, 7, 12, 19, 44]);
}

#[test]
fn hole_moves_by_exchange() {
    let mut v: Vec<usize> = vec![10, 20, 30];
    assert_eq!(Hole::new(&mut v, 3).pos, 3);
    {
        let mut hole = Hole::new(&mut v, 2);
        assert_eq!(*hole.element(), 30);
        hole.move_to(0);
        assert_eq!(*hole.element(), 30);
        assert_eq!(hole.pos, 0);
    }
    assert_eq!(v, vec![30, 20, 10]);
}

#[test]
fn usize_keys_order_naturally() {
    assert!(3usize.key_le(&3));
    assert!(3usize.key_le(&4));
    assert!(!4usize.key_le(&3));
}

#[test]
fn index_by_u64() {
    let mut v = vec![1u8, 2, 3];
    *index_mut_u64(&mut v, 1).unwrap() = 9;
    assert_eq!(v, vec![1, 9, 3]);
    assert!(index_mut_u64(&mut v, 3).is_none());
    assert!(index_mut_u64(&mut v, u64::MAX).is_none());
}
