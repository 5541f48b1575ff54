use alkaidsd::solution2::{FuncIter, LinkedList, SlicesSplitIter, SlicesSplitWindowsIterBuilder};
use alkaidsd::split_windows::{split_windows_4, split_windows_4_to, Slices3Handler, SlicesSplit};

/// Follows successors from the depot's successor back to the depot.
fn walk(list: &LinkedList<u32>) -> Vec<u32> {
    let mut out = Vec::new();
    let mut node = list.successor(0);
    while node != 0 {
        out.push(*list.data(node));
        node = list.successor(node);
    }
    out
}

#[test]
fn linked_list_insert_remove_reuse() {
    let mut list: LinkedList<u32> = LinkedList::new();
    let a = list.insert(10, 0, 0);
    let b = list.insert(20, a, 0);
    let c = list.insert(30, b, 0);
    list.set_successor(0, a);
    assert_eq!(walk(&list), vec![10, 20, 30]);
    assert_eq!(list.nodes(), &[a, b, c]);
    list.remove(b);
    assert_eq!(walk(&list), vec![10, 30]);
    assert_eq!(list.nodes(), &[a, c]);
    // The freed slot is taken again first.
    let d = list.new_node(40);
    assert_eq!(d, b);
    assert_eq!(*list.data(d), 40);
    assert_eq!(list.max_node_index(), 3);
}

#[test]
fn linked_list_reversed_link() {
    let mut list: LinkedList<u32> = LinkedList::default();
    let a = list.insert(1, 0, 0);
    let b = list.insert(2, a, 0);
    let c = list.insert(3, b, 0);
    let d = list.insert(4, c, 0);
    list.set_successor(0, a);
    // Reverse the segment 2, 3 between 1 and 4.
    list.reversed_link(b, c, a, d);
    assert_eq!(walk(&list), vec![1, 3, 2, 4]);
    assert_eq!(list.predecessor(d), b);
    assert_eq!(list.predecessor(c), a);
}

#[test]
fn func_iter_stops_at_the_end() {
    let mut it = FuncIter::new(|x: usize| x + 2, 1, 7);
    let mut seen = Vec::new();
    while let Some(x) = it.next() {
        seen.push(x);
    }
    assert_eq!(seen, vec![1, 3, 5]);
}

#[test]
fn slices_split_iter_walks_one_slice() {
    let slices = [(1, 3), (7, 7), (9, 13), (100, 101)];
    let mut it: SlicesSplitIter<_, 4, 2> = SlicesSplitIter::new(|x: usize| x + 1, slices);
    let mut seen = Vec::new();
    while let Some(x) = it.next() {
        seen.push(x);
    }
    assert_eq!(seen, vec![9, 10, 11, 12]);
    let mut first = it.to_index::<0>();
    assert_eq!(first.next(), Some(1));
    assert_eq!(first.next(), Some(2));
    assert_eq!(first.next(), None);
}

#[test]
fn windows_iterator_moves_two_positions() {
    let slices = [(1, 3), (7, 7), (9, 13), (100, 101)];
    let builder: SlicesSplitWindowsIterBuilder<_, 4, 0, 2> =
        match SlicesSplitWindowsIterBuilder::new(|x: usize| x + 1, slices, 2) {
            Ok(b) => b,
            Err(_) => panic!("window should fit"),
        };
    assert_eq!(builder.current2, 11);
    let mut it = builder.build();
    assert_eq!(it.i1(), 0);
    assert_eq!(it.i2(), 2);
    assert_eq!(it.next(), Some(((1, 2), (11, 12))));
    assert_eq!(it.next(), Some(((2, 3), (12, 13))));
    assert_eq!(it.next(), None);
    assert!(it.first_exhausted());
    assert!(it.second_exhausted());
}

#[test]
fn windows_builder_reports_a_short_slice() {
    let slices = [(1, 3), (7, 7), (9, 10), (100, 101)];
    let r: Result<SlicesSplitWindowsIterBuilder<_, 4, 0, 2>, usize> =
        SlicesSplitWindowsIterBuilder::new(|x: usize| x + 1, slices, 3);
    match r {
        Ok(_) => panic!("window should not fit"),
        Err(k) => assert_eq!(k, 1),
    }
}

#[test]
fn data_mut_changes_only_that_slot() {
    let mut list: LinkedList<i32> = LinkedList::new();
    let a = list.new_node(5);
    let b = list.new_node(6);
    list.link(a, b);
    *list.data_mut(a) = 7;
    assert_eq!(*list.data(a), 7);
    assert_eq!(*list.data(b), 6);
    assert_eq!(list.successor(a), b);
}

#[test]
fn test() {
    let slices = [(1, 3), (7, 7), (9, 13), (100, 101)];
    let succ = |x: usize| x + 1;
    let windows = split_windows_4(succ, slices);
    // Items 1, 2, 9, 10, 11, 12, 100: five windows of three.
    assert_eq!(windows.len(), 5);
}

fn items(slices: &[(usize, usize)]) -> Vec<usize> {
    let mut out = Vec::new();
    for &(first, end) in slices {
        let mut x = first;
        while x != end {
            out.push(x);
            x += 1;
        }
    }
    out
}

#[test]
fn split_windows_4_slides_three_items_over_the_slices() {
    let slices = [(1, 3), (7, 7), (9, 13), (100, 101)];
    let windows = split_windows_4(|x: usize| x + 1, slices);
    let all = vec![1, 2, 9, 10, 11, 12, 100];
    for (k, w) in windows.iter().enumerate() {
        assert_eq!(items(&w.left), all[..k].to_vec());
        assert_eq!(items(&w.mid), all[k..k + 3].to_vec());
        assert_eq!(items(&w.right), all[k + 3..].to_vec());
    }
    assert_eq!(windows[1].mid, vec![(2, 3), (9, 11)]);
}

#[test]
fn split_windows_4_gives_no_window_for_fewer_than_three_items() {
    let windows = split_windows_4(|x: usize| x + 1, [(1, 2), (5, 5), (8, 9), (4, 4)]);
    assert!(windows.is_empty());
}

struct MidCollector {
    mids: Vec<Vec<(usize, usize)>>,
}

impl Slices3Handler for MidCollector {
    fn call(&mut self, split: &SlicesSplit) {
        self.mids.push(split.mid.clone());
    }
}

#[test]
fn split_windows_4_to_calls_the_handler_once_per_window() {
    let mut h = MidCollector { mids: Vec::new() };
    split_windows_4_to(&mut h, |x: usize| x + 1, [(1, 3), (7, 7), (9, 13), (100, 101)]);
    assert_eq!(h.mids.len(), 5);
    assert_eq!(h.mids[0], vec![(1, 3), (9, 10)]);
    assert_eq!(h.mids[4], vec![(11, 13), (100, 101)]);
}
