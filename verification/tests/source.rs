use maze::source::{DrawSource, ReplaySource, ThreadSource};

#[test]
fn replay_hands_out_its_items_in_order() {
    let mut source = ReplaySource::new(vec![7, 11, 13]);
    assert_eq!(source.next_draw(), 7);
    assert_eq!(source.next_draw(), 11);
    assert_eq!(source.next_draw(), 13);
}

#[test]
fn replay_starts_over_at_its_end() {
    let mut source = ReplaySource::new(vec![4, 5]);
    let drawn: Vec<usize> = (0..7).map(|_| source.next_draw()).collect();
    assert_eq!(drawn, vec![4, 5, 4, 5, 4, 5, 4]);
}

#[test]
fn replay_of_nothing_hands_out_zero() {
    let mut source = ReplaySource::new(Vec::new());
    assert_eq!(source.next_draw(), 0);
    assert_eq!(source.next_draw(), 0);
}

#[test]
fn replay_of_one_item_repeats_it() {
    let mut source = ReplaySource::new(vec![usize::MAX]);
    assert_eq!(source.next_draw(), usize::MAX);
    assert_eq!(source.next_draw(), usize::MAX);
}

#[test]
fn thread_source_hands_out_numbers() {
    let mut source = ThreadSource::new();
    let drawn: Vec<usize> = (0..64).map(|_| source.next_draw()).collect();
    assert_eq!(drawn.len(), 64);
    assert!(drawn.iter().any(|d| *d != drawn[0]));
}
