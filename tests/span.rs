use std::ops::Range;

use zrx_id::format::error::Error;
use zrx_id::format::span::{init, Span};

#[test]
fn span_new_has_bounds() {
    let span = Span::new(2, 5);
    assert_eq!(span.start(), 2);
    assert_eq!(span.end(), 5);
    assert_eq!(span.len(), 3);
    assert!(!span.is_empty());
    assert!(Span::new(4, 4).is_empty());
}

#[test]
fn span_shift_moves_both_bounds() {
    let mut span = Span::new(2, 5);
    assert!(span.shift(3).is_ok());
    assert_eq!((span.start(), span.end()), (5, 8));
    assert!(span.shift(-5).is_ok());
    assert_eq!((span.start(), span.end()), (0, 3));
}

#[test]
fn span_shift_out_of_range_fails_unchanged() {
    let mut span = Span::new(1, 4);
    assert_eq!(span.shift(-2), Err(Error::Length));
    assert_eq!((span.start(), span.end()), (1, 4));
    let mut high = Span::new(10, 65530);
    assert_eq!(high.shift(6), Err(Error::Length));
    assert_eq!((high.start(), high.end()), (10, 65530));
}

#[test]
fn span_shift_start_and_end() {
    let mut span = Span::new(2, 5);
    assert!(span.shift_start(2).is_ok());
    assert_eq!((span.start(), span.end()), (4, 5));
    assert!(span.shift_end(10).is_ok());
    assert_eq!((span.start(), span.end()), (4, 15));
    assert_eq!(span.shift_start(-5), Err(Error::Length));
    assert_eq!(span.shift_end(i16::MAX).and(span.shift_end(i16::MAX)), Err(Error::Length));
}

#[test]
fn span_converts_to_range() {
    let range: Range<usize> = Span::new(3, 7).into();
    assert_eq!(range, 3..7);
}

#[test]
fn init_places_spans_one_delimiter_apart() {
    let spans = init::<4>();
    for (i, span) in spans.iter().enumerate() {
        assert_eq!(span.start() as usize, i);
        assert_eq!(span.end() as usize, i);
    }
}
