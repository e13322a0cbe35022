use binary_heap::BinaryHeap;
use binary_heap::BinaryHeap as MyHeap;
use std::cmp::Reverse;
use std::collections::BinaryHeap as StdHeap;

fn drain<T: PartialOrd>(heap: &mut BinaryHeap<T>) -> Vec<T> {
    let mut out = Vec::new();
    while !heap.is_empty() {
        out.push(heap.pop());
    }
    out
}

#[test]
fn initialize_from_array() {
    let vec = (0..10000).map(|x| (((x * 34829) << 2) + 23033948) % 234381).collect();
    println!("{:?}", vec);

    let mut res = MyHeap::from_unsorted_vec(vec);
    let mut dump = Vec::new();
    while !res.is_empty() {
        let a = res.pop();
        dump.push(a);
    }
    let mut check = dump.clone();
    check.sort();
    assert_eq!(dump, check);
}

#[test]
fn matches_std_binary_heap_on_random_ops() {
    let mut a = BinaryHeap::new();
    let mut b = StdHeap::new();
    let mut state: u64 = 0x9E37_79B9_7F4A_7C15;
    for _ in 0..200000 {
        assert_eq!(a.len(), b.len());
        state = state.wrapping_mul(6364136223846793005).wrapping_add(1442695040888963407);
        let op = (state >> 33) % 3;
        let num = state.rotate_left(17) % 1000;
        match op {
            0 => {
                a.push(num);
                b.push(Reverse(num));
            }
            1 => {
                if !a.is_empty() {
                    assert_eq!(a.pop(), b.pop().unwrap().0);
                }
            }
            _ => {
                if !a.is_empty() {
                    assert_eq!(*a.peek(), b.peek().unwrap().0);
                }
            }
        }
    }
}

#[test]
fn pops_in_ascending_order() {
    let mut heap = BinaryHeap::new();
    for v in [0, 1, 10, 45, 4534, 4] {
        heap.push(v);
    }
    assert_eq!(drain(&mut heap), vec![0, 1, 4, 10, 45, 4534]);
}

#[test]
fn interleaved_pushes_and_pops() {
    let mut heap = BinaryHeap::new();
    heap.push(0);
    heap.push(1);
    heap.push(10);
    assert_eq!(heap.pop(), 0);
    assert_eq!(heap.pop(), 1);
    assert_eq!(heap.pop(), 10);
    heap.push(45);
    heap.push(4534);
    heap.push(4);
    assert_eq!(drain(&mut heap), vec![4, 45, 4534]);
}

#[test]
fn len_counts_pushes_minus_pops() {
    let mut heap = BinaryHeap::new();
    assert_eq!(heap.len(), 0);
    assert!(heap.is_empty());
    for v in [5u32, 3, 8, 1, 9] {
        heap.push(v);
    }
    assert_eq!(heap.len(), 5);
    heap.pop();
    heap.pop();
    assert_eq!(heap.len(), 3);
    assert!(!heap.is_empty());
    heap.pop();
    heap.pop();
    heap.pop();
    assert_eq!(heap.len(), 0);
    assert!(heap.is_empty());
}

#[test]
fn peek_agrees_with_pop() {
    let mut heap = BinaryHeap::new();
    for v in [7i64, -3, 12, -3, 0, 42] {
        heap.push(v);
    }
    while !heap.is_empty() {
        let len = heap.len();
        let top = *heap.peek();
        assert_eq!(heap.len(), len);
        assert_eq!(heap.pop(), top);
    }
}

#[test]
fn peek_sees_the_minimum() {
    let mut heap = BinaryHeap::new();
    heap.push(30u8);
    assert_eq!(*heap.peek(), 30);
    heap.push(20);
    assert_eq!(*heap.peek(), 20);
    heap.push(25);
    assert_eq!(*heap.peek(), 20);
}

#[test]
fn heapify_sorts_with_duplicates() {
    let v = vec![9, 3, 7, 3, 1, 9, 0, 3];
    let mut heap = BinaryHeap::from_unsorted_vec(v.clone());
    assert_eq!(heap.len(), v.len());
    let mut sorted = v;
    sorted.sort();
    assert_eq!(drain(&mut heap), sorted);
}

#[test]
fn heapify_empty_and_single() {
    let mut empty: BinaryHeap<i32> = BinaryHeap::from_unsorted_vec(Vec::new());
    assert!(empty.is_empty());
    assert_eq!(drain(&mut empty), Vec::<i32>::new());
    let mut one = BinaryHeap::from_unsorted_vec(vec![42]);
    assert_eq!(one.len(), 1);
    assert_eq!(*one.peek(), 42);
    assert_eq!(drain(&mut one), vec![42]);
}

#[test]
fn heapify_two_elements() {
    let mut heap = BinaryHeap::from_unsorted_vec(vec![2, 1]);
    assert_eq!(drain(&mut heap), vec![1, 2]);
}

#[test]
fn heap_order_holds_in_backing_array() {
    let mut heap = BinaryHeap::new();
    for v in [50, 20, 80, 10, 30, 70, 90, 5, 60] {
        heap.push(v);
    }
    heap.pop();
    heap.push(15);
    let items: Vec<i32> = heap.iter().copied().collect();
    for i in 1..items.len() {
        assert!(items[(i - 1) / 2] <= items[i]);
    }
}

#[test]
fn duplicates_all_come_back() {
    let mut heap = BinaryHeap::new();
    for _ in 0..7 {
        heap.push(4u16);
    }
    let out = drain(&mut heap);
    assert_eq!(out.len(), 7);
    assert!(out.iter().all(|v| *v == 4));
}

#[test]
fn iter_yields_every_element() {
    let mut heap = BinaryHeap::new();
    for v in [3, 1, 2, 1] {
        heap.push(v);
    }
    let mut items: Vec<i32> = heap.iter().copied().collect();
    items.sort();
    assert_eq!(items, vec![1, 1, 2, 3]);
    assert_eq!(heap.len(), 4);
}

#[test]
fn clear_empties_the_heap() {
    let mut heap = BinaryHeap::from_unsorted_vec(vec![4, 2, 6]);
    heap.clear();
    assert!(heap.is_empty());
    assert_eq!(heap.iter().count(), 0);
    heap.push(1);
    assert_eq!(heap.pop(), 1);
}

#[test]
fn default_is_empty() {
    let heap: BinaryHeap<u64> = BinaryHeap::default();
    assert_eq!(heap.len(), 0);
}

#[test]
fn works_on_strings() {
    let words = vec!["pear", "apple", "fig", "banana"];
    let mut heap = BinaryHeap::from_unsorted_vec(words.iter().map(|w| w.to_string()).collect());
    heap.push("cherry".to_string());
    assert_eq!(
        drain(&mut heap),
        vec!["apple", "banana", "cherry", "fig", "pear"]
    );
}
