use pagealloc::ConstVec;
use std::cell::Cell;
use std::ops::AddAssign;
use std::rc::Rc;

struct Dropping(pub i32, Rc<Cell<usize>>);

impl Drop for Dropping {
    fn drop(&mut self) {
        self.1.set(self.1.get() + 1);
    }
}

#[test]
fn alloc_test_const_vec() {
    let mut arr: ConstVec<u32, 32> = ConstVec::new();

    let vals = [0, 5, 20, 30, 45];

    for val in vals.iter().copied() {
        arr.push(val);
    }

    assert_eq!(arr.len(), vals.len());

    while !arr.is_empty() {
        assert!(arr.pop().unwrap() == vals[arr.len()]);
    }
}

#[test]
fn alloc_test_const_vec_drop() {
    let counter = Rc::new(Cell::new(0usize));
    let mut arr: ConstVec<Dropping, 32> = ConstVec::new();

    let mut vals = [0, 5, 20, 30, 45];

    for val in vals.iter().copied() {
        arr.push(Dropping(val, counter.clone()));
    }

    for i in 0..vals.len() {
        assert_eq!(vals[i], arr[i].0);
    }

    {
        let new_val = 2000;
        vals[2] = new_val;
        arr.set(2, Dropping(new_val, counter.clone()));
    }

    {
        vals[3].add_assign(50);
        arr.get_mut(3).unwrap().0.add_assign(50);
    }

    assert_eq!(arr.len(), vals.len());

    while !arr.is_empty() {
        assert!(arr.pop().unwrap().0 == vals[arr.len()]);
    }

    arr.push(Dropping(250, counter.clone()));
    arr.push(Dropping(100, counter.clone()));

    drop(arr);

    assert!(counter.get() == vals.len() + 1 + 2);
}

#[test]
fn alloc_test_const_vec_swap() {
    let mut arr: ConstVec<u32, 32> = ConstVec::new();

    let vals = [0, 5, 20, 30, 45];

    for val in vals.iter().copied() {
        arr.push(val);
    }

    arr.swap_pop(1);
    arr.swap_pop(2);

    assert_eq!(arr.len(), vals.len() - 2);

    let new_vals = [0, 45, 30];
    assert_eq!(arr[1], new_vals[1]);
    assert_eq!(arr[2], new_vals[2]);

    for i in 0..arr.len() {
        assert_eq!(arr[i], new_vals[i]);
    }
}

#[test]
fn constvec_test_const_vec() {
    let mut arr: ConstVec<u32, 32> = ConstVec::new();

    let vals = [0, 5, 20, 30, 45];

    for val in vals.iter().copied() {
        let _ = arr.push(val);
    }

    assert_eq!(arr.len(), vals.len());

    while !arr.is_empty() {
        assert!(arr.pop().unwrap() == vals[arr.len()]);
    }
}

#[test]
fn constvec_test_const_vec_drop() {
    let counter = Rc::new(Cell::new(0usize));
    let mut arr: ConstVec<Dropping, 32> = ConstVec::new();

    let mut vals = [0, 5, 20, 30, 45];

    for val in vals.iter().copied() {
        let _ = arr.push(Dropping(val, counter.clone()));
    }

    for i in 0..vals.len() {
        assert_eq!(vals[i], arr[i].0);
    }

    {
        let new_val = 2000;
        vals[2] = new_val;
        arr.set(2, Dropping(new_val, counter.clone()));
    }

    {
        vals[3].add_assign(50);
        arr.get_mut(3).unwrap().0.add_assign(50);
    }

    assert_eq!(arr.len(), vals.len());

    while !arr.is_empty() {
        assert!(arr.pop().unwrap().0 == vals[arr.len()]);
    }

    arr.push(Dropping(250, counter.clone()));
    arr.push(Dropping(100, counter.clone()));

    drop(arr);

    assert!(counter.get() == vals.len() + 1 + 2);
}

#[test]
fn constvec_test_const_vec_swap() {
    let mut arr: ConstVec<u32, 32> = ConstVec::new();

    let vals = [0, 5, 20, 30, 45];

    for val in vals.iter().copied() {
        let _ = arr.push(val);
    }

    arr.swap_pop(1);
    arr.swap_pop(2);

    assert_eq!(arr.len(), vals.len() - 2);

    let new_vals = [0, 45, 30];
    assert_eq!(arr[1], new_vals[1]);
    assert_eq!(arr[2], new_vals[2]);

    for i in 0..arr.len() {
        assert_eq!(arr[i], new_vals[i]);
    }
}

#[test]
fn test_const_vec_slices() {
    let mut vec: ConstVec<i32, 16> = ConstVec::new();

    assert_eq!(vec.as_slice(), &[]);

    vec.push(5);
    vec.push(5);
    vec.push(25);

    assert_eq!(vec.as_slice(), &[5, 5, 25]);

    vec.as_mut_slice()[1] = 50;

    vec.push(3);

    assert_eq!(vec.as_slice(), &[5, 50, 25, 3]);
}

#[test]
fn push_past_capacity_is_refused() {
    let mut arr: ConstVec<u32, 2> = ConstVec::new();
    assert!(!arr.is_full());
    arr.push(1);
    arr.push(2);
    assert!(arr.is_full());
    arr.push(3);
    assert_eq!(arr.len(), 2);
    assert_eq!(arr.as_slice(), &[1, 2]);
}

#[test]
fn zero_capacity_holds_nothing() {
    let mut arr: ConstVec<u32, 0> = ConstVec::new();
    assert!(arr.is_full());
    arr.push(7);
    assert!(arr.is_empty());
    assert_eq!(arr.pop(), None);
}

#[test]
fn out_of_bounds_access_is_none() {
    let mut arr: ConstVec<u32, 4> = ConstVec::new();
    assert_eq!(arr.pop(), None);
    assert_eq!(arr.swap_pop(0), None);
    arr.push(10);
    assert_eq!(arr.get(1), None);
    assert_eq!(arr.get(0), Some(&10));
    assert_eq!(arr.set(1, 5), None);
    assert!(arr.get_mut(1).is_none());
    assert_eq!(arr.swap_pop(1), None);
    assert_eq!(arr.as_slice(), &[10]);
}

#[test]
fn set_returns_former_value() {
    let mut arr: ConstVec<u32, 4> = ConstVec::new();
    arr.push(1);
    arr.push(2);
    assert_eq!(arr.set(0, 9), Some(1));
    assert_eq!(arr.as_slice(), &[9, 2]);
}

#[test]
fn swap_pop_of_last_element() {
    let mut arr: ConstVec<u32, 4> = ConstVec::new();
    arr.push(1);
    arr.push(2);
    arr.push(3);
    assert_eq!(arr.swap_pop(2), Some(3));
    assert_eq!(arr.as_slice(), &[1, 2]);
    assert_eq!(arr.swap_pop(0), Some(1));
    assert_eq!(arr.as_slice(), &[2]);
}

#[test]
fn every_element_dropped_once() {
    let counter = Rc::new(Cell::new(0usize));
    let mut arr: ConstVec<Dropping, 3> = ConstVec::new();
    for v in 0..3 {
        arr.push(Dropping(v, counter.clone()));
    }
    // A refused push drops the item it was given, which was never held.
    arr.push(Dropping(99, counter.clone()));
    assert_eq!(counter.get(), 1);
    let taken = arr.swap_pop(0).unwrap();
    assert_eq!(taken.0, 0);
    assert_eq!(counter.get(), 1);
    arr.clear();
    assert_eq!(counter.get(), 3);
    assert!(arr.is_empty());
    arr.push(Dropping(5, counter.clone()));
    drop(arr);
    assert_eq!(counter.get(), 4);
    drop(taken);
    assert_eq!(counter.get(), 5);
}
