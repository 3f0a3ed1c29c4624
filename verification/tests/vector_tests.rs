use matrix_kernel::vector::Vector;

#[test]
fn vector_new() {
    let v: Vector<i32> = Vector::new(3);
    assert_eq!(v.length(), 3);
    let n: i32 = Default::default();
    assert_eq!(v[0], n);
    assert_eq!(v[1], n);
    assert_eq!(v[2], n);
}

#[test]
fn vector_new_with() {
    let v: Vector<i32> = Vector::new_with(3, 11);
    assert_eq!(v.length(), 3);
    let n: i32 = 11;
    assert_eq!(v[0], n);
    assert_eq!(v[1], n);
    assert_eq!(v[2], n);
}

#[test]
#[should_panic]
fn vector_index_out_of_range() {
    let v: Vector<i32> = Vector::new(3);
    let _ = v[3];
}

#[test]
fn vector_set() {
    let mut v: Vector<i32> = Vector::new(2);
    v.set(0, 12);
    v.set(1, 34);
    assert_eq!(v[0], 12);
    assert_eq!(v[1], 34);
}

#[test]
#[should_panic]
fn vector_set_out_of_range() {
    let mut v: Vector<i32> = Vector::new(2);
    v.set(2, 11);
}

#[test]
fn vector_iterator() {
    let mut v: Vector<i32> = Vector::new(3);
    v.set(0, 1);
    v.set(1, 2);
    v.set(2, 3);
    let mut count = 1;
    let mut it = v.get_iterator();
    while let Some(each) = it.next() {
        assert_eq!(*each, count);
        count += 1;
    }
    assert_eq!(count, 4);
}

#[test]
fn vector_iterator_stays_exhausted() {
    let v: Vector<i32> = Vector::new_with(1, 7);
    let mut it = v.get_iterator();
    assert_eq!(it.next(), Some(&7));
    assert_eq!(it.next(), None);
    assert_eq!(it.next(), None);
}

#[test]
fn vector_of_length_zero() {
    let v: Vector<i32> = Vector::new(0);
    assert_eq!(v.length(), 0);
    let mut it = v.get_iterator();
    assert!(it.next().is_none());
}
