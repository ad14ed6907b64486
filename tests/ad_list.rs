use std::cell::RefCell;
use std::rc::Rc;

use redis_rust::{List, ValueClone, ValueDrop, ValueEquals};

fn values(list: &List<i32>) -> Vec<i32> {
    let mut out = Vec::new();
    let mut it = list.iter();
    while let Some(h) = it.next() {
        out.push(list.node(h).value);
    }
    out
}

fn rev_values(list: &List<i32>) -> Vec<i32> {
    let mut out = Vec::new();
    let mut it = list.rev_iter();
    while let Some(h) = it.next() {
        out.push(list.node(h).value);
    }
    out
}

#[test]
fn ad_list_test_basic() {
    let mut list = List::new();
    assert!(list.is_empty());

    list.push_front(1);
    assert!(!list.is_empty());
    assert_eq!(list.node(list.first().unwrap()).value, 1);

    list.push_back(2);
    assert_eq!(list.node(list.last().unwrap()).value, 2);
    assert_eq!(list.len(), 2);

    assert_eq!(values(&list).as_slice(), &[1, 2]);

    assert_eq!(list.node(list.get(0).unwrap()).value, 1);
    assert_eq!(list.node(list.get(-1).unwrap()).value, 2);
    assert!(list.get(2).is_none());
    assert!(list.get(-3).is_none());

    list.move_head_to_tail();
    assert_eq!(list.node(list.first().unwrap()).value, 2);
    assert_eq!(list.node(list.last().unwrap()).value, 1);

    list.move_tail_to_head();
    assert_eq!(list.node(list.first().unwrap()).value, 1);
    assert_eq!(list.node(list.last().unwrap()).value, 2);

    let mut other = list.clone();
    other.move_tail_to_head();
    list.push_back(3).append(&mut other);
    assert!(other.is_empty());

    assert_eq!(values(&list).as_slice(), &[1, 2, 3, 2, 1]);

    list.remove(list.search(3).unwrap());
    assert_eq!(values(&list).as_slice(), &[1, 2, 2, 1]);

    list.move_head_to_tail();
    assert_eq!(rev_values(&list).as_slice(), &[1, 1, 2, 2]);

    list.insert_node(list.first().unwrap(), 3, false);
    list.insert_node(list.last().unwrap(), 3, true);
    assert_eq!(rev_values(&list).as_slice(), &[3, 1, 1, 2, 2, 3]);
}

struct Data {
    size: isize,
}

struct FreeData {
    freed: Rc<RefCell<Vec<usize>>>,
}

impl ValueDrop<usize> for FreeData {
    fn drop_value(&self, value: usize) {
        self.freed.borrow_mut().push(value);
    }
}

#[test]
fn test_custom() {
    let freed = Rc::new(RefCell::new(Vec::new()));
    let mut store = vec![Data { size: 0 }];
    let mut list = List::new();
    let hook: Rc<dyn ValueDrop<usize>> = Rc::new(FreeData { freed: freed.clone() });
    list.set_value_drop_method(Some(hook));
    let p: usize = 0;
    list.push_back(p);
    store[p].size = 123;
    let mut it = list.iter();
    while let Some(n) = it.next() {
        assert_eq!(list.node(n).value, p);
    }
    assert_eq!(store[p].size, 123);
    list.clear();
    assert_eq!(*freed.borrow(), vec![p]);
}

#[test]
fn ad_list_backward_is_reverse_of_forward() {
    let mut list = List::new();
    list.push_back(2);
    list.push_front(1);
    list.push_back(3);
    list.push_front(0);
    let h = list.search(2).unwrap();
    list.remove(h);
    let mut fwd = values(&list);
    fwd.reverse();
    assert_eq!(fwd, rev_values(&list));
    assert_eq!(values(&list), vec![0, 1, 3]);
    assert_eq!(list.len(), 3);
}

#[test]
fn ad_list_get_from_both_ends() {
    let mut list = List::new();
    for v in [10, 20, 30, 40] {
        list.push_back(v);
    }
    let n = list.len() as isize;
    for i in 0..n {
        assert_eq!(list.get(-(i + 1)), list.get(n - 1 - i));
        assert!(list.get(i).is_some());
    }
    assert!(list.get(n).is_none());
    assert!(list.get(-(n + 1)).is_none());
    assert!(list.get(isize::MIN).is_none());
    assert!(list.get(isize::MAX).is_none());
    assert_eq!(list.node(list.get(1).unwrap()).value, 20);
    assert_eq!(list.node(list.get(-2).unwrap()).value, 30);
}

#[test]
fn ad_list_append_moves_everything() {
    let mut a = List::new();
    let mut b = List::new();
    a.push_back(1);
    a.push_back(2);
    b.push_back(3);
    b.push_back(4);
    a.append(&mut b);
    assert_eq!(values(&a), vec![1, 2, 3, 4]);
    assert!(b.is_empty());
    assert_eq!(a.len(), 4);
    let mut empty = List::new();
    a.append(&mut empty);
    assert_eq!(values(&a), vec![1, 2, 3, 4]);
    let mut c = List::new();
    c.append(&mut a);
    assert_eq!(values(&c), vec![1, 2, 3, 4]);
    assert!(a.is_empty());
}

#[test]
fn ad_list_clone_is_independent() {
    let mut a = List::new();
    a.push_back(1);
    a.push_back(2);
    let mut b = a.clone();
    assert_eq!(values(&a), values(&b));
    b.push_back(3);
    a.remove(a.first().unwrap());
    assert_eq!(values(&a), vec![2]);
    assert_eq!(values(&b), vec![1, 2, 3]);
}

struct Doubler;

impl ValueClone<i32> for Doubler {
    fn clone_value(&self, value: i32) -> i32 {
        value * 2
    }
}

struct SameParity;

impl ValueEquals<i32> for SameParity {
    fn equals(&self, a: i32, b: i32) -> bool {
        a % 2 == b % 2
    }
}

#[test]
fn ad_list_hooks() {
    let mut a = List::new();
    a.push_back(1);
    a.push_back(4);
    let dup: Rc<dyn ValueClone<i32>> = Rc::new(Doubler);
    a.set_value_clone_method(Some(dup));
    let b = a.clone();
    assert_eq!(values(&b), vec![2, 8]);
    let eq: Rc<dyn ValueEquals<i32>> = Rc::new(SameParity);
    a.set_value_equals_method(Some(eq));
    let h = a.search(10).unwrap();
    assert_eq!(a.node(h).value, 4);
    a.set_value_equals_method(None);
    assert!(a.search(10).is_none());
    a.set_value_clone_method(None);
    assert_eq!(values(&a.clone()), vec![1, 4]);
}

#[test]
fn ad_list_rotation_of_short_lists() {
    let mut list: List<i32> = List::new();
    list.move_head_to_tail();
    list.move_tail_to_head();
    assert!(list.is_empty());
    list.push_back(5);
    list.move_head_to_tail();
    list.move_tail_to_head();
    assert_eq!(values(&list), vec![5]);
    assert!(list.first() == list.last());
}

#[test]
fn ad_list_clear_then_reuse() {
    let mut list = List::new();
    list.clear();
    list.push_back(1);
    list.push_back(2);
    list.clear();
    assert!(list.is_empty());
    assert!(list.first().is_none());
    list.push_front(9);
    assert_eq!(values(&list), vec![9]);
}

#[test]
fn ad_list_handles_survive_other_removals() {
    let mut list = List::new();
    list.push_back(1);
    list.push_back(2);
    list.push_back(3);
    let last = list.last().unwrap();
    list.remove(list.first().unwrap());
    list.push_front(7);
    assert_eq!(list.node(last).value, 3);
    list.insert_node(last, 8, false);
    assert_eq!(values(&list), vec![7, 2, 8, 3]);
}

#[test]
fn ad_list_append_into_empty_keeps_handles() {
    let mut a = List::new();
    a.push_back(5);
    a.push_back(6);
    let h = a.last().unwrap();
    let mut c = List::new();
    c.append(&mut a);
    assert!(a.is_empty());
    assert!(a.first().is_none());
    assert_eq!(c.node(h).value, 6);
    assert_eq!(values(&c), vec![5, 6]);
    a.push_back(1);
    assert_eq!(values(&a), vec![1]);
}
