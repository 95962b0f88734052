use heat::buffer::{Buffer, BufferError, Edit};
use heat::fold_map::{DisplayPoint, FoldError, FoldMap};
use heat::point::Point;
use heat::support::sample_text;

use rand::rngs::StdRng;
use rand::{Rng, SeedableRng};
use std::ops::Range;

fn text(map: &FoldMap, buffer: &Buffer) -> String {
    map.text(buffer).into_iter().collect()
}

fn offset(buffer: &Buffer, row: u32, column: u32) -> usize {
    buffer.point_to_offset(Point::new(row, column)).unwrap()
}

fn edit(buffer: &mut Buffer, ranges: Vec<Range<Point>>, new_text: &str) -> Vec<Edit> {
    let offsets: Vec<Range<usize>> = ranges
        .iter()
        .map(|r| {
            buffer.point_to_offset(r.start).unwrap()..buffer.point_to_offset(r.end).unwrap()
        })
        .collect();
    buffer.edit(&offsets, new_text).unwrap()
}

fn p(row: u32, column: u32) -> Point {
    Point::new(row, column)
}

#[test]
fn test_basic_folds() {
    let mut buffer = Buffer::new(&sample_text(5, 6));
    let mut map = FoldMap::new(&buffer);

    map.fold(&vec![p(0, 2)..p(2, 2), p(2, 4)..p(4, 1)], &buffer).unwrap();
    assert_eq!(text(&map, &buffer), "aa…cc…eeeee");

    let edits = edit(&mut buffer, vec![p(0, 0)..p(0, 1), p(2, 3)..p(2, 3)], "123");
    map.apply_edits(&edits, &buffer).unwrap();
    assert_eq!(text(&map, &buffer), "123a…c123c…eeeee");

    let edits = edit(&mut buffer, vec![p(2, 6)..p(4, 3)], "456");
    map.apply_edits(&edits, &buffer).unwrap();
    assert_eq!(text(&map, &buffer), "123a…c123456eee");

    map.unfold(&vec![p(0, 4)..p(0, 4)], &buffer).unwrap();
    assert_eq!(text(&map, &buffer), "123aaaaa\nbbbbbb\nccc123456eee");
}

#[test]
fn test_overlapping_folds() {
    let buffer = Buffer::new(&sample_text(5, 6));
    let mut map = FoldMap::new(&buffer);
    map.fold(
        &vec![p(0, 2)..p(2, 2), p(0, 4)..p(1, 0), p(1, 2)..p(3, 2), p(3, 1)..p(4, 1)],
        &buffer,
    )
    .unwrap();
    assert_eq!(text(&map, &buffer), "aa…eeeee");
}

#[test]
fn test_merging_folds_via_edit() {
    let mut buffer = Buffer::new(&sample_text(5, 6));
    let mut map = FoldMap::new(&buffer);

    map.fold(&vec![p(0, 2)..p(2, 2), p(3, 1)..p(4, 1)], &buffer).unwrap();
    assert_eq!(text(&map, &buffer), "aa…cccc\nd…eeeee");

    let edits = edit(&mut buffer, vec![p(2, 2)..p(3, 1)], "");
    map.apply_edits(&edits, &buffer).unwrap();
    assert_eq!(text(&map, &buffer), "aa…eeeee");
}

#[test]
fn test_buffer_rows() {
    let text_in = sample_text(6, 6) + "\n";
    let buffer = Buffer::new(&text_in);
    let mut map = FoldMap::new(&buffer);

    map.fold(&vec![p(0, 2)..p(2, 2), p(3, 1)..p(4, 1)], &buffer).unwrap();
    assert_eq!(text(&map, &buffer), "aa…cccc\nd…eeeee\nffffff\n");
    assert_eq!(map.buffer_rows(0).unwrap(), vec![0, 3, 5, 6]);
    assert_eq!(map.buffer_rows(3).unwrap(), vec![6]);
}

/// The buffer text with each merged fold range replaced by an ellipsis.
fn expected_text(buffer_text: &str, mut folds: Vec<(usize, usize)>) -> String {
    folds.sort_by(|a, b| a.0.cmp(&b.0).then(b.1.cmp(&a.1)));
    let mut merged: Vec<(usize, usize)> = Vec::new();
    for (s, e) in folds {
        if let Some(last) = merged.last_mut() {
            if s <= last.1 {
                if e > last.1 {
                    last.1 = e;
                }
                continue;
            }
        }
        merged.push((s, e));
    }
    let chars: Vec<char> = buffer_text.chars().collect();
    let mut out = String::new();
    let mut pos = 0;
    for (s, e) in merged {
        if e <= s {
            continue;
        }
        out.extend(&chars[pos..s]);
        out.push('…');
        pos = e;
    }
    out.extend(&chars[pos..]);
    out
}

/// The buffer text with each of the given (merged) ranges replaced by an
/// ellipsis.
fn ellipsize(buffer_text: &[char], ranges: &[(usize, usize)]) -> String {
    let mut out = String::new();
    let mut pos = 0;
    for &(s, e) in ranges {
        out.extend(&buffer_text[pos..s]);
        out.push('…');
        pos = e;
    }
    out.extend(&buffer_text[pos..]);
    out
}

#[test]
fn test_random_folds() {
    for seed in 0..100 {
        let mut rng = StdRng::seed_from_u64(seed);
        let len = rng.gen_range(0..10);
        let alphabet = ['a', 'b', '\n', 'é', 'z'];
        let initial: String = (0..len).map(|_| alphabet[rng.gen_range(0..5)]).collect();
        let mut buffer = Buffer::new(&initial);
        let mut map = FoldMap::new(&buffer);

        let fold_count = rng.gen_range(0..10);
        let mut fold_ranges = Vec::new();
        let mut offsets = Vec::new();
        for _ in 0..fold_count {
            let end = rng.gen_range(0..buffer.len() + 1);
            let start = rng.gen_range(0..end + 1);
            let sp = buffer.offset_to_point(start).unwrap();
            let ep = buffer.offset_to_point(end).unwrap();
            fold_ranges.push(sp..ep);
            offsets.push((start, end));
        }
        map.fold(&fold_ranges, &buffer).unwrap();
        assert_eq!(text(&map, &buffer), expected_text(&initial, offsets));
        assert_eq!(map.len(), text(&map, &buffer).chars().count());

        let merged = map.merged_fold_ranges(&buffer);
        for (s, _) in &merged {
            let dp = map.to_display_point(buffer.offset_to_point(*s).unwrap());
            assert!(map.is_line_folded(dp.row()));
        }

        let edit_count = rng.gen_range(1..10);
        for _ in 0..edit_count {
            // one to three sorted, disjoint ranges, each replaced by the same text
            let range_count = rng.gen_range(1..4);
            let mut ranges = Vec::new();
            let mut pos = 0;
            for _ in 0..range_count {
                if pos > buffer.len() {
                    break;
                }
                let start = rng.gen_range(pos..buffer.len() + 1);
                let end = rng.gen_range(start..buffer.len() + 1);
                ranges.push(start..end);
                pos = end + 1;
            }
            let new_len = rng.gen_range(0..4);
            let new_text: String = (0..new_len).map(|_| alphabet[rng.gen_range(0..5)]).collect();
            let edits = buffer.edit(&ranges, &new_text).unwrap();
            map.apply_edits(&edits, &buffer).unwrap();

            let now = buffer.text();
            let merged = map.merged_fold_ranges(&buffer);
            assert_eq!(text(&map, &buffer), ellipsize(&now, &merged));
            assert_eq!(map.len(), text(&map, &buffer).chars().count());
        }
    }
}

#[test]
fn coverage_matches_buffer_summary() {
    let mut buffer = Buffer::new(&sample_text(5, 6));
    let mut map = FoldMap::new(&buffer);
    map.fold(&vec![p(0, 2)..p(2, 2)], &buffer).unwrap();
    let edits = edit(&mut buffer, vec![p(1, 1)..p(3, 0)], "xyz\n");
    map.apply_edits(&edits, &buffer).unwrap();
    let total = map.len();
    assert_eq!(total, text(&map, &buffer).chars().count());
    assert_eq!(buffer.text_summary().chars, buffer.len());
}

#[test]
fn length_and_max_point_match_display_text() {
    let buffer = Buffer::new(&sample_text(5, 6));
    let mut map = FoldMap::new(&buffer);
    map.fold(&vec![p(0, 2)..p(2, 2), p(3, 1)..p(4, 1)], &buffer).unwrap();
    let shown = text(&map, &buffer);
    assert_eq!(map.len(), shown.chars().count());
    assert_eq!(map.len(), 15);
    assert_eq!(map.max_point(), DisplayPoint::new(1, 7));
    assert_eq!(map.rightmost_point(), DisplayPoint::new(0, 7));
}

#[test]
fn round_trip_at_boundaries() {
    let buffer = Buffer::new(&sample_text(5, 6));
    let mut map = FoldMap::new(&buffer);
    map.fold(&vec![p(0, 2)..p(2, 2)], &buffer).unwrap();
    for point in [p(0, 0), p(0, 1), p(0, 2), p(2, 2), p(2, 5), p(3, 0), p(4, 6)] {
        let dp = map.to_display_point(point);
        assert_eq!(map.to_buffer_point(dp), point);
    }
    assert_eq!(map.to_display_point(p(0, 2)), DisplayPoint::new(0, 2));
    assert_eq!(map.to_display_point(p(2, 2)), DisplayPoint::new(0, 3));
}

#[test]
fn interior_points_collapse_to_the_ellipsis_end() {
    let buffer = Buffer::new(&sample_text(5, 6));
    let mut map = FoldMap::new(&buffer);
    map.fold(&vec![p(0, 2)..p(2, 2)], &buffer).unwrap();
    let end = map.to_display_point(p(2, 2));
    for point in [p(0, 3), p(1, 0), p(1, 4), p(2, 1)] {
        assert_eq!(map.to_display_point(point), end);
    }
}

#[test]
fn folding_twice_shows_the_same_text() {
    let buffer = Buffer::new(&sample_text(5, 6));
    let mut once = FoldMap::new(&buffer);
    once.fold(&vec![p(1, 2)..p(3, 3)], &buffer).unwrap();
    let mut twice = FoldMap::new(&buffer);
    twice.fold(&vec![p(1, 2)..p(3, 3)], &buffer).unwrap();
    twice.fold(&vec![p(1, 2)..p(3, 3)], &buffer).unwrap();
    assert_eq!(text(&once, &buffer), text(&twice, &buffer));
    assert_eq!(text(&once, &buffer), "aaaaaa\nbb…ddd\neeeeee");
}

#[test]
fn unfold_restores_the_text() {
    let buffer = Buffer::new(&sample_text(5, 6));
    let mut map = FoldMap::new(&buffer);
    let before = text(&map, &buffer);
    map.fold(&vec![p(1, 2)..p(3, 3)], &buffer).unwrap();
    map.unfold(&vec![p(1, 2)..p(3, 3)], &buffer).unwrap();
    assert_eq!(text(&map, &buffer), before);
}

#[test]
fn edit_before_a_fold_commutes_with_folding() {
    let mut first = Buffer::new(&sample_text(5, 6));
    let mut map_a = FoldMap::new(&first);
    map_a.fold(&vec![p(2, 1)..p(3, 2)], &first).unwrap();
    let edits = edit(&mut first, vec![p(0, 1)..p(0, 3)], "XYZW");
    map_a.apply_edits(&edits, &first).unwrap();

    let mut second = Buffer::new(&sample_text(5, 6));
    let mut map_b = FoldMap::new(&second);
    let edits = edit(&mut second, vec![p(0, 1)..p(0, 3)], "XYZW");
    map_b.apply_edits(&edits, &second).unwrap();
    map_b.fold(&vec![p(2, 1)..p(3, 2)], &second).unwrap();

    assert_eq!(text(&map_a, &first), text(&map_b, &second));
    assert_eq!(text(&map_a, &first), "aXYZWaaa\nbbbbbb\nc…dddd\neeeeee");
}

#[test]
fn line_folded_rows() {
    let buffer = Buffer::new(&sample_text(5, 6));
    let mut map = FoldMap::new(&buffer);
    map.fold(&vec![p(0, 2)..p(2, 2), p(3, 1)..p(4, 1)], &buffer).unwrap();
    assert!(map.is_line_folded(0));
    assert!(map.is_line_folded(1));
    assert!(!map.is_line_folded(2));
}

#[test]
fn buffer_rows_past_the_end_is_an_error() {
    let buffer = Buffer::new(&sample_text(3, 2));
    let map = FoldMap::new(&buffer);
    assert_eq!(map.buffer_rows(3), Err(FoldError::OutOfBounds));
    assert_eq!(map.buffer_rows(2).unwrap(), vec![2]);
}

#[test]
fn folding_a_point_outside_the_text_is_an_error() {
    let buffer = Buffer::new(&sample_text(3, 2));
    let mut map = FoldMap::new(&buffer);
    assert_eq!(
        map.fold(&vec![p(0, 1)..p(7, 0)], &buffer),
        Err(FoldError::Buffer(BufferError::PointOutOfRange))
    );
    assert_eq!(text(&map, &buffer), "aa\nbb\ncc");
}

#[test]
fn empty_buffer_has_one_empty_row() {
    let buffer = Buffer::new("");
    let map = FoldMap::new(&buffer);
    assert_eq!(map.len(), 0);
    assert_eq!(map.max_point(), DisplayPoint::new(0, 0));
    assert_eq!(map.buffer_rows(0).unwrap(), vec![0]);
    assert_eq!(text(&map, &buffer), "");
}

#[test]
fn offsets_and_line_lengths() {
    let buffer = Buffer::new(&sample_text(5, 6));
    let mut map = FoldMap::new(&buffer);
    map.fold(&vec![p(0, 2)..p(2, 2), p(3, 1)..p(4, 1)], &buffer).unwrap();
    assert_eq!(map.to_display_offset(DisplayPoint::new(1, 0), &buffer).unwrap().0, 8);
    assert_eq!(map.to_display_offset(DisplayPoint::new(0, 3), &buffer).unwrap().0, 3);
    assert_eq!(map.line_len(0, &buffer), Ok(7));
    assert_eq!(map.line_len(1, &buffer), Ok(7));
    assert_eq!(map.line_len(2, &buffer), Err(FoldError::OutOfBounds));
    assert_eq!(
        map.to_display_offset(DisplayPoint::new(0, 50), &buffer),
        Err(FoldError::Buffer(BufferError::PointOutOfRange))
    );
    assert_eq!(
        map.to_display_offset(DisplayPoint::new(4, 0), &buffer),
        Err(FoldError::OutOfBounds)
    );
    let rest: String = map.chars_at(DisplayPoint::new(1, 0), &buffer).unwrap().into_iter().collect();
    assert_eq!(rest, "d…eeeee");
    assert_eq!(map.merged_fold_ranges(&buffer), vec![(2, 16), (22, 29)]);
}

#[test]
fn unfold_keeps_folds_it_does_not_touch() {
    let buffer = Buffer::new(&sample_text(5, 6));
    let mut map = FoldMap::new(&buffer);
    map.fold(&vec![p(0, 2)..p(0, 4), p(0, 2)..p(0, 4), p(3, 1)..p(4, 1)], &buffer).unwrap();
    assert_eq!(text(&map, &buffer), "aa…aa\nbbbbbb\ncccccc\nd…eeeee");
    map.unfold(&vec![p(3, 2)..p(3, 2)], &buffer).unwrap();
    assert_eq!(text(&map, &buffer), "aa…aa\nbbbbbb\ncccccc\ndddddd\neeeeee");
    assert_eq!(map.merged_fold_ranges(&buffer), vec![(2, 4)]);
    map.unfold(&vec![p(0, 3)..p(0, 3)], &buffer).unwrap();
    assert_eq!(text(&map, &buffer), sample_text(5, 6));
}

#[test]
fn folding_empty_ranges_changes_nothing_shown() {
    let buffer = Buffer::new(&sample_text(3, 3));
    let mut map = FoldMap::new(&buffer);
    map.fold(&vec![p(1, 1)..p(1, 1), p(2, 0)..p(2, 0)], &buffer).unwrap();
    assert_eq!(text(&map, &buffer), sample_text(3, 3));
    assert_eq!(map.merged_fold_ranges(&buffer), vec![]);
}
