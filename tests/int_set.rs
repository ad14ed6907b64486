use redis_rust::{Encoding, IntSet};

#[test]
fn int_set_test_basic() {
    let mut set = IntSet::new();
    for i in 0..10 {
        set.insert(i);
        assert_eq!(Some(i), set.get(i as isize));
    }

    assert_eq!(Encoding::INT16, set.encoding());

    let v = i16::MIN as i64 - 1;
    set.insert(v);
    assert_eq!(Some(v), set.get(0));
    assert_eq!(Encoding::INT32, set.encoding());

    let v = i32::MAX as i64 + 1;
    set.insert(v);
    assert_eq!(Some(v), set.get((set.len() - 1) as isize));
    assert_eq!(Encoding::INT64, set.encoding());
}

fn members(set: &IntSet) -> Vec<i64> {
    let mut out = Vec::new();
    for i in 0..set.len() {
        out.push(set.get(i as isize).unwrap());
    }
    out
}

#[test]
fn int_set_inserts_keep_order_and_membership() {
    let mut set = IntSet::new();
    for v in [5i64, -3, 9, 0, 7, -3, 5] {
        set.insert(v);
    }
    assert_eq!(members(&set), vec![-3, 0, 5, 7, 9]);
    for v in [-3i64, 0, 5, 7, 9] {
        assert!(set.contain(v));
    }
    for v in [-4i64, 1, 6, 8, 10, i64::MAX, i64::MIN] {
        assert!(!set.contain(v));
    }
}

#[test]
fn int_set_duplicate_insert_fails() {
    let mut set = IntSet::new();
    assert!(set.insert(42));
    assert!(!set.insert(42));
    assert_eq!(set.len(), 1);
}

#[test]
fn int_set_remove() {
    let mut set = IntSet::new();
    for v in [1i64, 2, 3] {
        set.insert(v);
    }
    assert!(set.remove(2));
    assert!(!set.remove(2));
    assert!(!set.remove(1 << 40));
    assert_eq!(members(&set), vec![1, 3]);
}

#[test]
fn int_set_encoding_never_narrows() {
    let mut set = IntSet::new();
    set.insert(1);
    set.insert(1 << 40);
    assert_eq!(set.encoding(), Encoding::INT64);
    assert!(set.remove(1 << 40));
    assert_eq!(set.encoding(), Encoding::INT64);
    assert_eq!(members(&set), vec![1]);
    set.insert(-70000);
    assert_eq!(set.encoding(), Encoding::INT64);
    assert_eq!(members(&set), vec![-70000, 1]);
}

#[test]
fn int_set_out_of_range_get() {
    let mut set = IntSet::new();
    assert_eq!(set.get(0), None);
    assert_eq!(set.random(), None);
    set.insert(4);
    set.insert(2);
    assert_eq!(set.get(-1), None);
    assert_eq!(set.get(2), None);
    assert_eq!(set.random(), Some(2));
}

#[test]
fn int_set_shared_empty() {
    let mut set = IntSet::new();
    assert!(set.is_global_empty());
    assert!(!set.remove(3));
    assert!(set.is_global_empty());
    set.insert(3);
    assert!(!set.is_global_empty());
}

#[test]
fn int_set_value_encoding_bounds() {
    assert_eq!(Encoding::value_encoding(i16::MAX as i64), Encoding::INT16);
    assert_eq!(Encoding::value_encoding(i16::MIN as i64), Encoding::INT16);
    assert_eq!(Encoding::value_encoding(i16::MAX as i64 + 1), Encoding::INT32);
    assert_eq!(Encoding::value_encoding(i32::MIN as i64), Encoding::INT32);
    assert_eq!(Encoding::value_encoding(i32::MIN as i64 - 1), Encoding::INT64);
    assert_eq!(Encoding::INT16.byte_size(), 2);
    assert_eq!(Encoding::INT32.byte_size(), 4);
    assert_eq!(Encoding::INT64.byte_size(), 8);
}

#[test]
fn int_set_clone_is_independent() {
    let mut a = IntSet::new();
    a.insert(1);
    a.insert(100000);
    let mut b = a.clone();
    assert_eq!(members(&b), members(&a));
    assert_eq!(b.encoding(), a.encoding());
    b.insert(7);
    a.remove(1);
    assert_eq!(members(&a), vec![100000]);
    assert_eq!(members(&b), vec![1, 7, 100000]);
}
