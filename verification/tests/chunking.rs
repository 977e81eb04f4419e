use lazygroups::groupbylazy::{new_chunks, Chunk, ChunksLazy};

fn drain<I: Iterator>(chunk: &mut Chunk<I>, container: &mut ChunksLazy<I>) -> Vec<I::Item> {
    let mut elements = Vec::new();
    while let Some(x) = chunk.next(container) {
        elements.push(x);
    }
    elements
}

fn in_order<T>(source: Vec<T>, size: usize) -> Vec<Vec<T>> {
    let mut container = new_chunks(source.into_iter(), size);
    let mut cursor = container.into_iter();
    let mut out = Vec::new();
    while let Some(mut chunk) = cursor.next(&mut container) {
        out.push(drain(&mut chunk, &mut container));
        chunk.drop(&mut container);
    }
    out
}

#[test]
fn chunks_of_two_over_five() {
    assert_eq!(
        in_order(vec!['a', 'b', 'c', 'd', 'e'], 2),
        vec![vec!['a', 'b'], vec!['c', 'd'], vec!['e']]
    );
}

#[test]
fn chunks_that_divide_the_source_evenly() {
    assert_eq!(in_order(vec![1, 2, 3, 4, 5, 6], 3), vec![vec![1, 2, 3], vec![4, 5, 6]]);
}

#[test]
fn chunks_of_one() {
    assert_eq!(in_order(vec![1, 2, 3], 1), vec![vec![1], vec![2], vec![3]]);
}

#[test]
fn chunk_size_beyond_the_source() {
    assert_eq!(in_order(vec![1, 2, 3], 10), vec![vec![1, 2, 3]]);
}

#[test]
fn chunk_size_zero_makes_one_chunk() {
    assert_eq!(in_order(vec![1, 2, 3, 4], 0), vec![vec![1, 2, 3, 4]]);
}

#[test]
fn chunks_of_an_empty_source() {
    assert_eq!(in_order(Vec::<u8>::new(), 3), Vec::<Vec<u8>>::new());
}

#[test]
fn chunks_ignore_the_elements() {
    assert_eq!(in_order(vec![0, 0, 0, 0, 0], 2), vec![vec![0, 0], vec![0, 0], vec![0]]);
}

#[test]
fn chunks_are_windows_of_the_source() {
    let source: Vec<u32> = (0..23).collect();
    for size in 1..8usize {
        let chunks = in_order(source.clone(), size);
        let expected: Vec<Vec<u32>> = source.chunks(size).map(|w| w.to_vec()).collect();
        assert_eq!(chunks, expected);
    }
}

#[test]
fn chunks_read_in_reverse_order() {
    let mut container = new_chunks(vec![1, 2, 3, 4, 5, 6, 7].into_iter(), 3);
    let mut cursor = container.into_iter();
    let mut a = cursor.next(&mut container).unwrap();
    let mut b = cursor.next(&mut container).unwrap();
    let mut c = cursor.next(&mut container).unwrap();
    assert!(cursor.next(&mut container).is_none());
    assert_eq!(drain(&mut c, &mut container), vec![7]);
    assert_eq!(drain(&mut b, &mut container), vec![4, 5, 6]);
    assert_eq!(drain(&mut a, &mut container), vec![1, 2, 3]);
    a.drop(&mut container);
    b.drop(&mut container);
    c.drop(&mut container);
}

#[test]
fn a_chunk_dropped_unread_leaves_the_others_whole() {
    let mut container = new_chunks(vec![1, 2, 3, 4, 5, 6].into_iter(), 2);
    let mut cursor = container.into_iter();
    let mut a = cursor.next(&mut container).unwrap();
    let b = cursor.next(&mut container).unwrap();
    b.drop(&mut container);
    let mut c = cursor.next(&mut container).unwrap();
    assert_eq!(drain(&mut c, &mut container), vec![5, 6]);
    assert_eq!(drain(&mut a, &mut container), vec![1, 2]);
    assert!(cursor.next(&mut container).is_none());
}

#[test]
fn container_step_serves_an_open_chunk() {
    let mut container = new_chunks(vec![1, 2, 3].into_iter(), 2);
    let mut cursor = container.into_iter();
    let chunk = cursor.next(&mut container).unwrap();
    assert_eq!(container.step(0), Some(2));
    assert_eq!(container.step(0), None);
    container.drop_group(0);
    chunk.drop(&mut container);
    let mut chunk = cursor.next(&mut container).unwrap();
    assert_eq!(drain(&mut chunk, &mut container), vec![3]);
}
