use lazygroups::groupbylazy::{new, Group, GroupByLazy};
use std::cell::Cell;

fn identity(x: &i32) -> i32 {
    *x
}

fn tens(x: &i32) -> i32 {
    *x / 10
}

/// Reads a group to its end.
fn drain<I, F>(group: &mut Group<I>, container: &mut GroupByLazy<i32, I, F>) -> Vec<i32>
where
    I: Iterator<Item = i32>,
    F: Fn(&i32) -> i32,
{
    let mut elements = Vec::new();
    while let Some(x) = group.next(container) {
        elements.push(x);
    }
    elements
}

/// Opens the groups one after the other and reads each before the next is
/// opened.
fn in_order<F: Fn(&i32) -> i32>(source: Vec<i32>, f: F) -> Vec<(i32, Vec<i32>)> {
    let mut container = new(source.into_iter(), f);
    let mut cursor = container.into_iter();
    let mut out = Vec::new();
    while let Some((key, mut group)) = cursor.next(&mut container) {
        let elements = drain(&mut group, &mut container);
        group.drop(&mut container);
        out.push((key, elements));
    }
    out
}

/// Opens all groups first, then reads them in the order given by `order`.
fn in_any_order<F: Fn(&i32) -> i32>(
    source: Vec<i32>,
    f: F,
    order: &[usize],
) -> Vec<(i32, Vec<i32>)> {
    let mut container = new(source.into_iter(), f);
    let mut cursor = container.into_iter();
    let mut open = Vec::new();
    while let Some((key, group)) = cursor.next(&mut container) {
        open.push((key, group));
    }
    let mut out: Vec<(i32, Vec<i32>)> = open.iter().map(|(key, _)| (*key, Vec::new())).collect();
    for &i in order {
        let elements = drain(&mut open[i].1, &mut container);
        out[i].1 = elements;
    }
    for (_, group) in open {
        group.drop(&mut container);
    }
    out
}

#[test]
fn groups_of_equal_neighbours_in_order() {
    assert_eq!(
        in_order(vec![1, 1, 2, 2, 2, 3], identity),
        vec![(1, vec![1, 1]), (2, vec![2, 2, 2]), (3, vec![3])]
    );
}

#[test]
fn empty_source_has_no_group() {
    let mut container = new(Vec::<i32>::new().into_iter(), identity);
    let mut cursor = container.into_iter();
    assert!(cursor.next(&mut container).is_none());
    assert!(cursor.next(&mut container).is_none());
}

#[test]
fn single_element_is_one_group() {
    assert_eq!(in_order(vec![5], identity), vec![(5, vec![5])]);
}

#[test]
fn all_equal_keys_make_one_group() {
    assert_eq!(in_order(vec![4, 4, 4, 4], identity), vec![(4, vec![4, 4, 4, 4])]);
}

#[test]
fn all_different_keys_make_singletons() {
    assert_eq!(
        in_order(vec![1, 2, 3], identity),
        vec![(1, vec![1]), (2, vec![2]), (3, vec![3])]
    );
}

#[test]
fn a_key_that_comes_back_starts_a_new_group() {
    assert_eq!(
        in_order(vec![1, 1, 2, 1, 1], identity),
        vec![(1, vec![1, 1]), (2, vec![2]), (1, vec![1, 1])]
    );
}

#[test]
fn key_is_that_of_the_first_element() {
    assert_eq!(
        in_order(vec![10, 11, 19, 20, 35, 36, 7], tens),
        vec![(1, vec![10, 11, 19]), (2, vec![20]), (3, vec![35, 36]), (0, vec![7])]
    );
}

#[test]
fn groups_laid_end_to_end_are_the_source() {
    let source = vec![3, 3, 1, 4, 4, 4, 1, 1, 5, 9, 9, 2, 6, 6];
    let groups = in_order(source.clone(), identity);
    let joined: Vec<i32> = groups.iter().flat_map(|(_, g)| g.iter().copied()).collect();
    assert_eq!(joined, source);
}

#[test]
fn neighbours_share_a_group_exactly_when_their_keys_are_equal() {
    let source = vec![10, 12, 25, 27, 21, 30, 41, 49, 40, 5];
    let groups = in_order(source.clone(), tens);
    // the group of each position, by counting through the groups
    let mut group_of = Vec::new();
    for (i, (_, g)) in groups.iter().enumerate() {
        for _ in g {
            group_of.push(i);
        }
    }
    assert_eq!(group_of.len(), source.len());
    for j in 1..source.len() {
        let same_key = tens(&source[j - 1]) == tens(&source[j]);
        assert_eq!(group_of[j] == group_of[j - 1], same_key);
        if !same_key {
            assert_eq!(group_of[j], group_of[j - 1] + 1);
        }
    }
    assert_eq!(
        groups,
        vec![
            (1, vec![10, 12]),
            (2, vec![25, 27, 21]),
            (3, vec![30]),
            (4, vec![41, 49, 40]),
            (0, vec![5])
        ]
    );
}

#[test]
fn reading_in_reverse_order_gives_the_same_groups() {
    let source = vec![1, 1, 2, 2, 2, 3, 4, 4];
    let expected = in_order(source.clone(), identity);
    assert_eq!(in_any_order(source, identity, &[3, 2, 1, 0]), expected);
}

#[test]
fn reading_in_any_order_gives_the_same_groups() {
    let source = vec![1, 1, 2, 2, 2, 3, 4, 4, 5];
    let expected = in_order(source.clone(), identity);
    for order in [
        [0usize, 1, 2, 3, 4],
        [4, 3, 2, 1, 0],
        [2, 0, 4, 1, 3],
        [1, 3, 0, 2, 4],
        [3, 4, 0, 1, 2],
    ] {
        assert_eq!(in_any_order(source.clone(), identity, &order), expected);
    }
}

#[test]
fn second_group_read_before_the_first() {
    let mut container = new(vec![1, 1, 1, 2, 2, 3].into_iter(), identity);
    let mut cursor = container.into_iter();
    let (key0, mut group0) = cursor.next(&mut container).unwrap();
    let (key1, mut group1) = cursor.next(&mut container).unwrap();
    assert_eq!((key0, key1), (1, 2));
    assert_eq!(drain(&mut group1, &mut container), vec![2, 2]);
    assert_eq!(drain(&mut group0, &mut container), vec![1, 1, 1]);
    group1.drop(&mut container);
    group0.drop(&mut container);
    let (key2, mut group2) = cursor.next(&mut container).unwrap();
    assert_eq!(key2, 3);
    assert_eq!(drain(&mut group2, &mut container), vec![3]);
    group2.drop(&mut container);
    assert!(cursor.next(&mut container).is_none());
}

#[test]
fn groups_read_in_turns() {
    let mut container = new(vec![1, 1, 1, 2, 2, 2, 3, 3].into_iter(), identity);
    let mut cursor = container.into_iter();
    let (_, mut a) = cursor.next(&mut container).unwrap();
    assert_eq!(a.next(&mut container), Some(1));
    let (_, mut b) = cursor.next(&mut container).unwrap();
    assert_eq!(b.next(&mut container), Some(2));
    assert_eq!(a.next(&mut container), Some(1));
    let (_, mut c) = cursor.next(&mut container).unwrap();
    assert_eq!(c.next(&mut container), Some(3));
    assert_eq!(b.next(&mut container), Some(2));
    assert_eq!(a.next(&mut container), Some(1));
    assert_eq!(c.next(&mut container), Some(3));
    assert_eq!(a.next(&mut container), None);
    assert_eq!(b.next(&mut container), Some(2));
    assert_eq!(b.next(&mut container), None);
    assert_eq!(c.next(&mut container), None);
    assert_eq!(a.next(&mut container), None);
    assert!(cursor.next(&mut container).is_none());
}

#[test]
fn a_group_dropped_unread_leaves_the_others_whole() {
    let mut container = new(vec![1, 1, 2, 2, 2, 3, 3, 4].into_iter(), identity);
    let mut cursor = container.into_iter();
    let (key0, mut group0) = cursor.next(&mut container).unwrap();
    let (key1, group1) = cursor.next(&mut container).unwrap();
    // group 1 is opened and given up at once
    group1.drop(&mut container);
    let (key2, mut group2) = cursor.next(&mut container).unwrap();
    let (key3, mut group3) = cursor.next(&mut container).unwrap();
    assert_eq!((key0, key1, key2, key3), (1, 2, 3, 4));
    assert_eq!(drain(&mut group3, &mut container), vec![4]);
    assert_eq!(drain(&mut group0, &mut container), vec![1, 1]);
    assert_eq!(drain(&mut group2, &mut container), vec![3, 3]);
    assert!(cursor.next(&mut container).is_none());
}

#[test]
fn every_group_dropped_unread() {
    let mut container = new(vec![1, 1, 2, 3, 3, 3].into_iter(), identity);
    let mut cursor = container.into_iter();
    let mut keys = Vec::new();
    while let Some((key, group)) = cursor.next(&mut container) {
        keys.push(key);
        group.drop(&mut container);
    }
    assert_eq!(keys, vec![1, 2, 3]);
}

#[test]
fn a_group_dropped_half_read_leaves_the_others_whole() {
    let mut container = new(vec![1, 1, 1, 2, 2, 3].into_iter(), identity);
    let mut cursor = container.into_iter();
    let (_, mut group0) = cursor.next(&mut container).unwrap();
    assert_eq!(group0.next(&mut container), Some(1));
    group0.drop(&mut container);
    let (key1, mut group1) = cursor.next(&mut container).unwrap();
    assert_eq!(key1, 2);
    let (key2, mut group2) = cursor.next(&mut container).unwrap();
    assert_eq!(key2, 3);
    assert_eq!(drain(&mut group2, &mut container), vec![3]);
    assert_eq!(drain(&mut group1, &mut container), vec![2, 2]);
}

#[test]
fn two_cursors_share_the_counter() {
    let mut container = new(vec![1, 2, 2, 3].into_iter(), identity);
    let mut first = container.into_iter();
    let mut second = container.into_iter();
    let (key0, mut group0) = first.next(&mut container).unwrap();
    let (key1, mut group1) = second.next(&mut container).unwrap();
    let (key2, mut group2) = first.next(&mut container).unwrap();
    assert_eq!((key0, key1, key2), (1, 2, 3));
    assert_eq!(drain(&mut group0, &mut container), vec![1]);
    assert_eq!(drain(&mut group1, &mut container), vec![2, 2]);
    assert_eq!(drain(&mut group2, &mut container), vec![3]);
    assert!(second.next(&mut container).is_none());
    assert!(first.next(&mut container).is_none());
}

#[test]
fn the_source_is_pulled_only_as_far_as_needed() {
    let pulled = Cell::new(0usize);
    let source = vec![1, 1, 1, 2, 2, 3].into_iter().inspect(|_| pulled.set(pulled.get() + 1));
    let mut container = new(source, identity);
    let mut cursor = container.into_iter();
    assert_eq!(pulled.get(), 0);
    let (_, mut group0) = cursor.next(&mut container).unwrap();
    // the first element, and one more for the key that follows
    assert_eq!(pulled.get(), 2);
    assert_eq!(group0.next(&mut container), Some(1));
    assert_eq!(pulled.get(), 2);
    assert_eq!(group0.next(&mut container), Some(1));
    assert_eq!(pulled.get(), 2);
    assert_eq!(group0.next(&mut container), Some(1));
    assert_eq!(pulled.get(), 3);
    assert_eq!(group0.next(&mut container), None);
    assert_eq!(pulled.get(), 4);
    let (_, mut group1) = cursor.next(&mut container).unwrap();
    assert_eq!(pulled.get(), 5);
    let (_, mut group2) = cursor.next(&mut container).unwrap();
    assert_eq!(pulled.get(), 6);
    assert_eq!(drain(&mut group2, &mut container), vec![3]);
    assert_eq!(drain(&mut group1, &mut container), vec![2, 2]);
    assert_eq!(pulled.get(), 6);
}

#[test]
fn container_step_serves_an_open_group() {
    let mut container = new(vec![7, 7, 8].into_iter(), identity);
    let mut cursor = container.into_iter();
    let (key, group) = cursor.next(&mut container).unwrap();
    assert_eq!(key, 7);
    // the handle holds the first element; the container serves the rest
    assert_eq!(container.step(0), Some(7));
    assert_eq!(container.step(0), None);
    container.drop_group(0);
    group.drop(&mut container);
    let (key, mut group) = cursor.next(&mut container).unwrap();
    assert_eq!(key, 8);
    assert_eq!(drain(&mut group, &mut container), vec![8]);
}
