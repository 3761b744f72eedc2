use mandelbrot::escape::EscapeState;
use mandelbrot::field::{assemble_field, FieldError};

#[test]
fn rows_in_order_are_kept() {
    let rows = vec![(0usize, vec![1u16, 2, 3]), (1, vec![4, 5, 6])];
    assert_eq!(assemble_field(3, 2, 9, rows), Ok(vec![vec![1, 2, 3], vec![4, 5, 6]]));
}

#[test]
fn rows_are_placed_by_index_not_arrival() {
    let rows = vec![(2usize, vec![7u16, 8]), (0, vec![1, 2]), (1, vec![4, 5])];
    assert_eq!(
        assemble_field(2, 3, 9, rows),
        Ok(vec![vec![1, 2], vec![4, 5], vec![7, 8]])
    );
}

#[test]
fn reversed_arrival_gives_same_field() {
    let forward: Vec<(usize, Vec<u16>)> = (0..6usize).map(|y| (y, vec![y as u16, 2 * y as u16])).collect();
    let mut backward = forward.clone();
    backward.reverse();
    let a = assemble_field(2, 6, 10, forward);
    let b = assemble_field(2, 6, 10, backward);
    assert!(a.is_ok());
    assert_eq!(a, b);
}

#[test]
fn repeated_assembly_is_identical() {
    let rows = vec![(1usize, vec![3u16]), (0, vec![5])];
    assert_eq!(assemble_field(1, 2, 5, rows.clone()), assemble_field(1, 2, 5, rows));
}

#[test]
fn zero_width_is_rejected() {
    assert_eq!(assemble_field(0, 1, 5, vec![(0, vec![])]), Err(FieldError::InvalidDimensions));
}

#[test]
fn zero_height_is_rejected() {
    assert_eq!(assemble_field(3, 0, 5, vec![]), Err(FieldError::InvalidDimensions));
}

#[test]
fn index_beyond_height_is_rejected() {
    let rows = vec![(0usize, vec![1u16]), (2, vec![1])];
    assert_eq!(assemble_field(1, 2, 5, rows), Err(FieldError::RowOutOfRange));
}

#[test]
fn short_row_is_rejected() {
    let rows = vec![(0usize, vec![1u16, 2]), (1, vec![1])];
    assert_eq!(assemble_field(2, 2, 5, rows), Err(FieldError::RowWidthMismatch));
}

#[test]
fn count_above_budget_is_rejected() {
    let rows = vec![(0usize, vec![1u16, 6]), (1, vec![1, 5])];
    assert_eq!(assemble_field(2, 2, 5, rows), Err(FieldError::CountAboveCap));
}

#[test]
fn repeated_index_is_rejected() {
    let rows = vec![(0usize, vec![1u16]), (1, vec![2]), (0, vec![1])];
    assert_eq!(assemble_field(1, 3, 5, rows), Err(FieldError::DuplicateRow));
}

#[test]
fn missing_row_is_rejected() {
    let rows = vec![(0usize, vec![1u16]), (2, vec![2])];
    assert_eq!(assemble_field(1, 3, 5, rows), Err(FieldError::MissingRow));
    assert_eq!(assemble_field(1, 1, 5, vec![]), Err(FieldError::MissingRow));
}

#[test]
fn faults_are_reported_in_fixed_order() {
    // Out of range wins over a wrong width, whatever comes first in the list.
    let rows = vec![(0usize, vec![1u16, 2, 3]), (5, vec![1])];
    assert_eq!(assemble_field(1, 2, 5, rows), Err(FieldError::RowOutOfRange));
    // A repeated index wins over a missing one.
    let rows = vec![(1usize, vec![0u16]), (1, vec![0])];
    assert_eq!(assemble_field(1, 3, 5, rows), Err(FieldError::DuplicateRow));
}

#[test]
fn single_pixel_field() {
    assert_eq!(assemble_field(1, 1, 0, vec![(0, vec![0])]), Ok(vec![vec![0]]));
}

#[test]
fn zero_budget_field_is_all_zeros() {
    let (width, height) = (5usize, 3usize);
    let rows: Vec<(usize, Vec<u16>)> = (0..height)
        .rev()
        .map(|y| (y, (0..width).map(|_| EscapeState::start(0).count().unwrap()).collect()))
        .collect();
    let field = assemble_field(width, height, 0, rows).unwrap();
    assert_eq!(field, vec![vec![0u16; width]; height]);
}
