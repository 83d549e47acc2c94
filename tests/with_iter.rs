use window_match::suffix::{IterExt, SliceIter};

#[test]
fn with_iter() {
    let v = vec![0, 1, 2, 3, 4];
    let mut iter = SliceIter::new(&v).with_iter();

    let (x, sub_iter) = iter.next().unwrap();
    assert_eq!(x, 0);
    assert_eq!(sub_iter.to_vec(), vec![1, 2, 3, 4]);

    let (x, sub_iter) = iter.next().unwrap();
    assert_eq!(x, 1);
    assert_eq!(sub_iter.to_vec(), vec![2, 3, 4]);

    let (x, sub_iter) = iter.next().unwrap();
    assert_eq!(x, 2);
    assert_eq!(sub_iter.to_vec(), vec![3, 4]);

    let (x, sub_iter) = iter.next().unwrap();
    assert_eq!(x, 3);
    assert_eq!(sub_iter.to_vec(), vec![4]);

    let (x, mut sub_iter) = iter.next().unwrap();
    assert_eq!(x, 4);
    assert!(sub_iter.next().is_none());

    assert!(iter.next().is_none());
}

#[test]
fn sub_iter_is_independent_of_outer() {
    let v = [7u32, 8, 9];
    let mut iter = SliceIter::starting_at(&v, 1).with_iter();
    assert_eq!(iter.position(), 1);
    let (x, mut sub_iter) = iter.next().unwrap();
    assert_eq!(x, 8);
    assert_eq!(sub_iter.next(), Some(9));
    assert_eq!(sub_iter.next(), None);
    assert_eq!(iter.position(), 2);
    let (y, sub_iter) = iter.next().unwrap();
    assert_eq!(y, 9);
    assert_eq!(sub_iter.to_vec(), Vec::<u32>::new());
    assert!(iter.next().is_none());
}

#[test]
fn cursor_past_the_end_is_exhausted() {
    let v = [1u32, 2];
    let mut it = SliceIter::starting_at(&v, 5);
    assert_eq!(it.position(), 2);
    assert_eq!(it.next(), None);
}
