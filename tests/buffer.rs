use heat::buffer::{Buffer, BufferError};
use heat::point::Point;
use heat::support::sample_text;
use heat::text_summary::TextSummary;

#[test]
fn sample_text_rows() {
    assert_eq!(sample_text(3, 2), "aa\nbb\ncc");
    assert_eq!(sample_text(0, 4), "");
    assert_eq!(sample_text(2, 0), "\n");
}

#[test]
fn points_and_offsets() {
    let buffer = Buffer::new("ab\ncde\n");
    assert_eq!(buffer.point_to_offset(Point::new(1, 2)), Ok(5));
    assert_eq!(buffer.point_to_offset(Point::new(2, 0)), Ok(7));
    assert_eq!(buffer.point_to_offset(Point::new(0, 3)), Err(BufferError::PointOutOfRange));
    assert_eq!(buffer.offset_to_point(4), Ok(Point::new(1, 1)));
    assert_eq!(buffer.offset_to_point(8), Err(BufferError::OffsetOutOfRange));
}

#[test]
fn summaries_of_ranges() {
    let buffer = Buffer::new("ab\ncdé\nf");
    let s = buffer.text_summary();
    assert_eq!(s.chars, 8);
    assert_eq!(s.bytes, 9);
    assert_eq!(s.lines, Point::new(2, 1));
    assert_eq!(s.first_line_len, 2);
    assert_eq!(s.rightmost_point, Point::new(1, 3));
    let r = buffer.text_summary_for_range(1, 4);
    assert_eq!(r.lines, Point::new(1, 1));
    assert_eq!(r.first_line_len, 1);
}

#[test]
fn summary_addition_is_concatenation() {
    let a = Buffer::new("abc\nd").text_summary();
    let b = Buffer::new("efgh\ni").text_summary();
    let ab = Buffer::new("abc\ndefgh\ni").text_summary();
    assert_eq!(a.add(&b), ab);
    assert_eq!(TextSummary::zero().add(&a), a);
}

#[test]
fn edits_and_anchors() {
    let mut buffer = Buffer::new("hello world");
    let before = buffer.anchor_before(5).unwrap();
    let after = buffer.anchor_after(5).unwrap();
    let late = buffer.anchor_after(8).unwrap();
    let edits = buffer.edit(&vec![5..5, 6..7], "XY").unwrap();
    assert_eq!(buffer.text().into_iter().collect::<String>(), "helloXY XYorld");
    assert_eq!(edits[0].old_range, 5..5);
    assert_eq!(edits[0].new_range, 5..7);
    assert_eq!(edits[1].old_range, 6..7);
    assert_eq!(edits[1].new_range, 8..10);
    assert_eq!(buffer.to_offset(&before), 5);
    assert_eq!(buffer.to_offset(&after), 7);
    assert_eq!(buffer.to_offset(&late), 11);
    assert_eq!(buffer.edit(&vec![3..2], "z").err(), Some(BufferError::InvalidEdit));
    assert_eq!(buffer.anchor_before(99), Err(BufferError::OffsetOutOfRange));
}
