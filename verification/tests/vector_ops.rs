use bounded::vector;

#[test]
fn push_then_read_back_in_order() {
    let mut vector = vector::Vec::<u32, 8>::new();
    let values = [5u32, 7, 11, 13, 17];
    for value in values {
        vector.push(value);
    }
    assert_eq!(vector.len(), 5);
    for (index, value) in values.iter().enumerate() {
        assert_eq!(vector.get(index), Some(*value));
    }
}

#[test]
fn try_push_beyond_capacity_leaves_vector_unchanged() {
    let mut vector = vector::Vec::<u8, 2>::new();
    assert!(vector.try_push(10));
    assert!(vector.try_push(20));
    assert!(!vector.try_push(30));
    assert_eq!(vector.len(), 2);
    assert_eq!(vector.as_slice(), &[10, 20]);
}

#[test]
fn get_out_of_range_is_absent() {
    let vector = vector::Vec::<u8, 16>::from_slice(&[1, 2, 3]);
    assert_eq!(vector.get(3), None);
    assert_eq!(vector.get(15), None);
    assert_eq!(vector.get(usize::MAX), None);

    let empty = vector::Vec::<u8, 4>::new();
    assert_eq!(empty.get(0), None);
}

#[test]
fn from_slice_truncates_silently() {
    let vector = vector::Vec::<u8, 3>::from_slice(&[9, 8, 7, 6, 5]);
    assert_eq!(vector.len(), 3);
    assert_eq!(vector.as_slice(), &[9, 8, 7]);
}

#[test]
fn set_out_of_range_is_a_no_op() {
    let mut vector = vector::Vec::<u8, 4>::from_slice(&[1, 2]);
    vector.set(1, 9);
    assert_eq!(vector.as_slice(), &[1, 9]);
    vector.set(2, 5);
    assert_eq!(vector.as_slice(), &[1, 9]);
    assert_eq!(vector.len(), 2);
}

#[test]
fn vector_slice_copies_the_range() {
    let vector = vector::Vec::<u8, 8>::from_slice(&[1, 2, 3, 4, 5]);
    let middle = vector.slice(1, 4);
    assert_eq!(middle.as_slice(), &[2, 3, 4]);
    assert_eq!(middle.size(), 8);
}

#[test]
fn resize_to_larger_capacity_keeps_elements() {
    let vector = vector::Vec::<u8, 2>::from_slice(&[4, 2]);
    let grown: vector::Vec<u8, 10> = vector.resize();
    assert_eq!(grown.as_slice(), &[4, 2]);
    assert_eq!(grown.size(), 10);
    assert_eq!(grown.len(), 2);
}

#[test]
fn from_slice_into_large_capacity_then_increment_in_place() {
    let mut vector = vector::Vec::<u8, 1000000>::from_slice(&[18, 12, 0, 9, 3]);
    let mut index: usize = 0;
    while index < vector.len() {
        let current = vector.get(index).unwrap();
        vector.set(index, current + 1);
        index += 1;
    }
    assert_eq!(vector.as_slice(), &[19, 13, 1, 10, 4]);
}

#[test]
fn len_and_size_report_prefix_and_capacity() {
    let mut vector = vector::Vec::<u8, 9>::new();
    assert_eq!(vector.len(), 0);
    assert_eq!(vector.size(), 9);
    vector.push(1);
    assert_eq!(vector.len(), 1);
    assert_eq!(vector.size(), 9);
}
