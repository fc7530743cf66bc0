use maze::input::{adjust, dimension, InputError, MAX_SIZE, MIN_SIZE};

#[test]
fn odd_size_gains_the_border() {
    assert_eq!(adjust(5), 7);
    assert_eq!(adjust(3), 5);
    assert_eq!(adjust(99), 101);
}

#[test]
fn even_size_is_made_odd_first() {
    assert_eq!(adjust(4), 7);
    assert_eq!(adjust(98), 101);
    assert_eq!(adjust(0), 3);
}

#[test]
fn size_seven_gives_dimension_nine() {
    assert_eq!(dimension(7), Ok(9));
}

#[test]
fn sizes_in_range_are_adjusted() {
    assert_eq!(dimension(MIN_SIZE), Ok(5));
    assert_eq!(dimension(MAX_SIZE), Ok(101));
    assert_eq!(dimension(4), Ok(7));
    assert_eq!(dimension(50), Ok(53));
}

#[test]
fn sizes_out_of_range_are_turned_down() {
    assert_eq!(dimension(0), Err(InputError::OutOfRange));
    assert_eq!(dimension(2), Err(InputError::OutOfRange));
    assert_eq!(dimension(100), Err(InputError::OutOfRange));
    assert_eq!(dimension(usize::MAX), Err(InputError::OutOfRange));
}

#[test]
fn every_size_in_range_gives_an_odd_dimension() {
    for size in MIN_SIZE..=MAX_SIZE {
        let d = dimension(size).unwrap();
        assert_eq!(d % 2, 1);
        assert!(d >= 5 && d <= 101);
        assert!(d == size + 2 || d == size + 3);
    }
}

#[test]
fn out_of_range_has_a_message() {
    assert_eq!(InputError::OutOfRange.message(), "You must stay in range: from 3 to 99");
}
