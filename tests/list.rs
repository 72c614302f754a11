use rust101::list::LinkedList;
use std::cell::Cell;
use std::rc::Rc;

fn contents(l: &mut LinkedList<i32>) -> Vec<i32> {
    let mut out = Vec::new();
    let mut it = l.iter_mut();
    while let Some(x) = it.next() {
        out.push(*x);
    }
    out
}

#[test]
fn test_pop_back() {
    let mut l: LinkedList<i32> = LinkedList::new();
    for i in 0..3 {
        l.push_front(-i);
        l.push_back(i);
    }

    assert_eq!(l.pop_back(), Some(2));
    assert_eq!(l.pop_back(), Some(1));
    assert_eq!(l.pop_back(), Some(0));
    assert_eq!(l.pop_back(), Some(-0));
    assert_eq!(l.pop_back(), Some(-1));
    assert_eq!(l.pop_back(), Some(-2));
    assert_eq!(l.pop_back(), None);
    assert_eq!(l.pop_back(), None);
}

#[test]
fn test_pop_front() {
    let mut l: LinkedList<i32> = LinkedList::new();
    for i in 0..3 {
        l.push_front(-i);
        l.push_back(i);
    }

    assert_eq!(l.pop_front(), Some(-2));
    assert_eq!(l.pop_front(), Some(-1));
    assert_eq!(l.pop_front(), Some(-0));
    assert_eq!(l.pop_front(), Some(0));
    assert_eq!(l.pop_front(), Some(1));
    assert_eq!(l.pop_front(), Some(2));
    assert_eq!(l.pop_front(), None);
    assert_eq!(l.pop_front(), None);
}

#[derive(Clone)]
struct DropChecker {
    count: Rc<Cell<usize>>,
}

impl Drop for DropChecker {
    fn drop(&mut self) {
        self.count.set(self.count.get() + 1);
    }
}

#[test]
fn test_drop() {
    let count = DropChecker { count: Rc::new(Cell::new(0)) };
    {
        let mut l = LinkedList::new();
        for _ in 0..10 {
            l.push_back(count.clone());
            l.push_front(count.clone());
        }
    }
    assert_eq!(count.count.get(), 20);
}

#[test]
fn test_iter_mut() {
    let mut l = LinkedList::<i32>::new();
    for i in 0..5 {
        l.push_back(i);
    }

    assert_eq!(l.pop_front(), Some(0));
    assert_eq!(l.pop_back(), Some(4));

    let mut it = l.iter_mut();
    let mut n: i32 = 0;
    while let Some(i) = it.next() {
        *i -= 1;
        assert_eq!(n, *i);
        n += 1;
    }
    assert_eq!(n, 3);
}

#[test]
fn push_back_iterates_in_order() {
    let mut l = LinkedList::new();
    l.push_back(1);
    l.push_back(2);
    l.push_back(3);
    assert_eq!(contents(&mut l), vec![1, 2, 3]);
}

#[test]
fn pop_back_then_iterate() {
    let mut l = LinkedList::new();
    l.push_back(1);
    l.push_back(2);
    l.push_back(3);
    assert_eq!(l.pop_back(), Some(3));
    assert_eq!(contents(&mut l), vec![1, 2]);
}

#[test]
fn push_front_iterates_in_reverse() {
    let mut l = LinkedList::new();
    l.push_front(1);
    l.push_front(2);
    l.push_front(3);
    assert_eq!(contents(&mut l), vec![3, 2, 1]);
}

#[test]
fn mixed_pushes_and_pops() {
    let mut l = LinkedList::new();
    l.push_back(1);
    l.push_front(0);
    l.push_back(2);
    assert_eq!(contents(&mut l), vec![0, 1, 2]);
    assert_eq!(l.pop_front(), Some(0));
    assert_eq!(l.pop_back(), Some(2));
    assert_eq!(contents(&mut l), vec![1]);
}

#[test]
fn pops_on_empty_list() {
    let mut l = LinkedList::<i32>::new();
    assert_eq!(l.pop_back(), None);
    assert_eq!(l.pop_front(), None);
    assert!(l.is_empty());
}

#[test]
fn empty_iterator_is_exhausted_at_once() {
    let mut l = LinkedList::<i32>::new();
    let mut it = l.iter_mut();
    assert!(it.next().is_none());
    assert!(it.next().is_none());
}

#[test]
fn popping_the_last_element_empties_the_list() {
    let mut l = LinkedList::new();
    l.push_front(7);
    assert!(!l.is_empty());
    assert_eq!(l.pop_back(), Some(7));
    assert!(l.is_empty());
    l.push_back(8);
    assert_eq!(l.pop_front(), Some(8));
    assert!(l.is_empty());
    assert_eq!(contents(&mut l), Vec::<i32>::new());
}

#[test]
fn drop_counts_ten_interleaved_values() {
    let count = DropChecker { count: Rc::new(Cell::new(0)) };
    {
        let mut l = LinkedList::new();
        for i in 0..10 {
            if i % 2 == 0 {
                l.push_back(count.clone());
            } else {
                l.push_front(count.clone());
            }
        }
        assert_eq!(count.count.get(), 0);
    }
    assert_eq!(count.count.get(), 10);
}

#[test]
fn popped_values_are_dropped_once() {
    let count = DropChecker { count: Rc::new(Cell::new(0)) };
    {
        let mut l = LinkedList::new();
        for _ in 0..4 {
            l.push_back(count.clone());
        }
        let popped = l.pop_front();
        assert_eq!(count.count.get(), 0);
        drop(popped);
        assert_eq!(count.count.get(), 1);
        l.push_back(count.clone());
    }
    assert_eq!(count.count.get(), 5);
}

#[test]
fn stack_at_each_end_and_queue() {
    let mut l = LinkedList::new();
    for i in 0..5 {
        l.push_back(i);
    }
    for i in (0..5).rev() {
        assert_eq!(l.pop_back(), Some(i));
    }
    for i in 0..5 {
        l.push_front(i);
    }
    for i in (0..5).rev() {
        assert_eq!(l.pop_front(), Some(i));
    }
    for i in 0..5 {
        l.push_back(i);
    }
    for i in 0..5 {
        assert_eq!(l.pop_front(), Some(i));
    }
    assert_eq!(l.pop_front(), None);
}

#[test]
fn push_pop_round_trip_keeps_contents() {
    let mut l = LinkedList::new();
    l.push_back(1);
    l.push_front(0);
    l.push_back(9);
    assert_eq!(l.pop_back(), Some(9));
    assert_eq!(contents(&mut l), vec![0, 1]);
    l.push_front(5);
    assert_eq!(l.pop_front(), Some(5));
    assert_eq!(contents(&mut l), vec![0, 1]);
}

#[test]
fn iter_mut_changes_only_its_own_node() {
    let mut l = LinkedList::new();
    for i in 0..4 {
        l.push_back(i * 10);
    }
    {
        let mut it = l.iter_mut();
        it.next();
        if let Some(x) = it.next() {
            *x = 99;
        }
    }
    assert_eq!(contents(&mut l), vec![0, 99, 20, 30]);
}

#[test]
fn for_each_visits_front_to_back() {
    let mut l = LinkedList::new();
    for i in 1..4 {
        l.push_back(i);
    }
    l.for_each(|x| *x *= 2);
    assert_eq!(contents(&mut l), vec![2, 4, 6]);
}

#[test]
fn slots_are_reused_after_pops() {
    let mut l = LinkedList::new();
    for round in 0..3 {
        for i in 0..4 {
            l.push_back(round * 10 + i);
        }
        for i in 0..4 {
            assert_eq!(l.pop_front(), Some(round * 10 + i));
        }
    }
    assert!(l.is_empty());
}
