use lazygroups::engine::GroupInner;
use lazygroups::key::{ChunkIndex, KeyFunction};

fn identity(x: &i32) -> i32 {
    *x
}

#[test]
fn frontier_group_is_served_from_the_source() {
    let mut engine = GroupInner::new(vec![1, 1, 2].into_iter(), identity);
    assert_eq!(engine.step(0), Some(1));
    assert_eq!(engine.step(0), Some(1));
    assert_eq!(engine.step(0), None);
    assert_eq!(engine.step(1), Some(2));
    assert_eq!(engine.step(1), None);
    assert_eq!(engine.step(2), None);
}

#[test]
fn group_key_is_the_key_of_the_group_just_opened() {
    let mut engine = GroupInner::new(vec![10, 11, 25, 31].into_iter(), |x: &i32| *x / 10);
    assert_eq!(engine.step(0), Some(10));
    assert_eq!(engine.group_key(0), 1);
    assert_eq!(engine.step(0), Some(11));
    assert_eq!(engine.step(0), None);
    assert_eq!(engine.step(1), Some(25));
    // the element after the first one of group 1 already belongs to group 2
    assert_eq!(engine.group_key(1), 2);
    assert_eq!(engine.step(1), None);
    assert_eq!(engine.step(2), Some(31));
    assert_eq!(engine.step(2), None);
}

#[test]
fn asking_for_the_next_group_buffers_the_frontier_group() {
    let mut engine = GroupInner::new(vec![1, 1, 1, 2, 2, 3].into_iter(), identity);
    assert_eq!(engine.step(0), Some(1));
    assert_eq!(engine.step(1), Some(2));
    assert_eq!(engine.step(2), Some(3));
    assert_eq!(engine.step(1), Some(2));
    assert_eq!(engine.step(1), None);
    assert_eq!(engine.step(0), Some(1));
    assert_eq!(engine.step(0), Some(1));
    assert_eq!(engine.step(0), None);
    assert_eq!(engine.step(2), None);
}

#[test]
fn an_unopened_group_can_be_buffered_whole() {
    let mut engine = GroupInner::new(vec![1, 1, 2].into_iter(), identity);
    assert_eq!(engine.step(1), Some(2));
    assert_eq!(engine.step(0), Some(1));
    assert_eq!(engine.step(0), Some(1));
    assert_eq!(engine.step(0), None);
    assert_eq!(engine.step(1), None);
}

#[test]
fn a_dropped_frontier_group_is_not_buffered() {
    let mut engine = GroupInner::new(vec![1, 1, 1, 2, 2].into_iter(), identity);
    assert_eq!(engine.step(0), Some(1));
    engine.drop_group(0);
    assert_eq!(engine.step(1), Some(2));
    // what was left of group 0 is gone
    assert_eq!(engine.step(0), None);
    assert_eq!(engine.step(1), Some(2));
    assert_eq!(engine.step(1), None);
}

#[test]
fn without_the_drop_the_frontier_group_is_kept() {
    let mut engine = GroupInner::new(vec![1, 1, 1, 2, 2].into_iter(), identity);
    assert_eq!(engine.step(0), Some(1));
    assert_eq!(engine.step(1), Some(2));
    assert_eq!(engine.step(0), Some(1));
    assert_eq!(engine.step(0), Some(1));
    assert_eq!(engine.step(0), None);
}

#[test]
fn only_the_greatest_dropped_index_counts() {
    let mut engine = GroupInner::new(vec![1, 2, 2, 3, 3].into_iter(), identity);
    assert_eq!(engine.step(0), Some(1));
    assert_eq!(engine.step(0), None);
    assert_eq!(engine.step(1), Some(2));
    engine.drop_group(1);
    // a smaller index does not replace the mark
    engine.drop_group(0);
    assert_eq!(engine.step(2), Some(3));
    assert_eq!(engine.step(1), None);
    assert_eq!(engine.step(2), Some(3));
}

#[test]
fn a_drop_below_the_frontier_spares_the_frontier_group() {
    let mut engine = GroupInner::new(vec![1, 2, 2, 3].into_iter(), identity);
    assert_eq!(engine.step(0), Some(1));
    assert_eq!(engine.step(0), None);
    engine.drop_group(0);
    assert_eq!(engine.step(1), Some(2));
    assert_eq!(engine.step(2), Some(3));
    assert_eq!(engine.step(1), Some(2));
    assert_eq!(engine.step(1), None);
}

#[test]
fn a_drained_group_stays_empty() {
    let mut engine = GroupInner::new(vec![1, 1, 2, 2, 3, 3].into_iter(), identity);
    assert_eq!(engine.step(0), Some(1));
    assert_eq!(engine.step(1), Some(2));
    assert_eq!(engine.step(2), Some(3));
    // group 0 is read from the buffer to its end, which reclaims its slot
    assert_eq!(engine.step(0), Some(1));
    assert_eq!(engine.step(0), None);
    assert_eq!(engine.step(0), None);
    assert_eq!(engine.step(1), Some(2));
    assert_eq!(engine.step(1), None);
    assert_eq!(engine.step(0), None);
    assert_eq!(engine.step(1), None);
    assert_eq!(engine.step(2), Some(3));
    assert_eq!(engine.step(2), None);
    assert_eq!(engine.step(0), None);
}

#[test]
fn empty_slots_are_skipped_and_erased() {
    let source = vec![0, 0, 1, 1, 2, 2, 3, 3, 4, 4, 5, 5];
    let mut engine = GroupInner::new(source.into_iter(), identity);
    for client in 0..6 {
        assert_eq!(engine.step(client), Some(client as i32));
    }
    // the groups in the middle are emptied first
    for client in [1usize, 2, 3] {
        assert_eq!(engine.step(client), Some(client as i32));
        assert_eq!(engine.step(client), None);
    }
    // emptying group 0 moves the lower bound past groups 1 to 3
    assert_eq!(engine.step(0), Some(0));
    assert_eq!(engine.step(0), None);
    for client in 0..4 {
        assert_eq!(engine.step(client), None);
    }
    assert_eq!(engine.step(4), Some(4));
    assert_eq!(engine.step(5), Some(5));
    assert_eq!(engine.step(4), None);
    assert_eq!(engine.step(5), None);
}

#[test]
fn after_the_end_every_index_gets_nothing() {
    let mut engine = GroupInner::new(vec![1].into_iter(), identity);
    assert_eq!(engine.step(0), Some(1));
    assert_eq!(engine.step(0), None);
    assert_eq!(engine.step(1), None);
    assert_eq!(engine.step(7), None);
    assert_eq!(engine.step(usize::MAX), None);
}

#[test]
fn source_that_ends_while_a_group_is_put_aside() {
    let mut engine = GroupInner::new(vec![1, 1, 1].into_iter(), identity);
    assert_eq!(engine.step(0), Some(1));
    assert_eq!(engine.step(1), None);
    assert_eq!(engine.step(0), Some(1));
    assert_eq!(engine.step(0), Some(1));
    assert_eq!(engine.step(0), None);
    assert_eq!(engine.step(1), None);
}

#[test]
fn chunk_index_counts_in_windows() {
    let mut counter = ChunkIndex::new(3);
    let keys: Vec<usize> = (0..8).map(|x: i32| counter.call_mut(&x)).collect();
    assert_eq!(keys, vec![0, 0, 0, 1, 1, 1, 2, 2]);
}

#[test]
fn chunk_index_of_size_zero_stays_at_one() {
    let mut counter = ChunkIndex::new(0);
    let keys: Vec<usize> = (0..4).map(|x: i32| counter.call_mut(&x)).collect();
    assert_eq!(keys, vec![1, 1, 1, 1]);
}

#[test]
fn a_plain_function_is_a_key_function() {
    let mut f = identity;
    assert_eq!(KeyFunction::call_mut(&mut f, &3), 3);
    let mut g = |x: &i32| *x % 2;
    assert_eq!(KeyFunction::call_mut(&mut g, &7), 1);
}

#[test]
fn engine_grouped_by_a_counter() {
    let mut engine = GroupInner::new(vec!['a', 'b', 'c'].into_iter(), ChunkIndex::new(2));
    assert_eq!(engine.step(0), Some('a'));
    assert_eq!(engine.group_key(0), 0);
    assert_eq!(engine.step(1), Some('c'));
    assert_eq!(engine.group_key(1), 1);
    assert_eq!(engine.step(0), Some('b'));
    assert_eq!(engine.step(0), None);
    assert_eq!(engine.step(1), None);
}
