use badascii::analyze::{
    Class, LineSegment, ScanClass, classify, classify_diag_down_left, classify_diag_down_right,
    classify_horiz, classify_vert, get_diag_down_right_segments, get_diag_up_right_segments,
    get_horizontal_line_segments, get_rectangles, get_vertical_line_segments, merge_colinear,
    get_wires,
};
use badascii::tc::TextCoordinate;
use badascii::text_buffer::TextBuffer;

fn tc(x: u32, y: u32) -> TextCoordinate {
    TextCoordinate { x, y }
}

fn all_segments(tb: &TextBuffer) -> Vec<LineSegment> {
    let mut segments = get_horizontal_line_segments(tb);
    let mut vs = get_vertical_line_segments(tb);
    segments.append(&mut vs);
    let mut us = get_diag_up_right_segments(tb);
    segments.append(&mut us);
    let mut ds = get_diag_down_right_segments(tb);
    segments.append(&mut ds);
    segments
}

fn count_of(segs: &[LineSegment], s: &LineSegment) -> usize {
    let mut n = 0;
    for t in segs {
        if t == s {
            n += 1;
        }
    }
    n
}

/// Merging an already-merged segment list changes nothing (up to order).
#[test]
fn merge_is_idempotent_on_merged_lists() {
    const INITIAL_TEXT: &str = "
    +
    |
+---+---+
    |
    +
        ";
    let mut buffer = TextBuffer::new(20, 20);
    buffer.paste(INITIAL_TEXT, TextCoordinate { x: 2, y: 2 });
    let once = merge_colinear(all_segments(&buffer));
    let twice = merge_colinear(once.clone());
    assert_eq!(once.len(), twice.len());
    for s in &once {
        assert_eq!(count_of(&once, s), count_of(&twice, s));
    }
}

/// The wires of a diagram partition its merged segments: each appears in
/// exactly one wire, none is lost, none is duplicated.
#[test]
fn wires_partition_the_merged_segments() {
    const CUP_EXAMPLE: &str = "
+-----+
      |
      |<-----o
      |
+-----+
";
    let mut buffer = TextBuffer::new(20, 20);
    buffer.paste(CUP_EXAMPLE, TextCoordinate { x: 1, y: 1 });
    let merged = merge_colinear(all_segments(&buffer));
    let wires = get_wires(&buffer);
    let mut flat: Vec<LineSegment> = Vec::new();
    for w in &wires {
        for s in &w.segments {
            flat.push(*s);
        }
    }
    assert_eq!(flat.len(), merged.len());
    for s in &merged {
        assert_eq!(count_of(&flat, s), count_of(&merged, s));
    }
}

/// A chain of touching spans merges into one maximal segment even when a
/// single pass would bridge two accumulated spans only after the fact, and
/// merging again changes nothing.
#[test]
fn merge_joins_chained_runs_completely() {
    let a = LineSegment { start: tc(0, 0), end: tc(2, 0) };
    let b = LineSegment { start: tc(2, 0), end: tc(4, 0) };
    let c = LineSegment { start: tc(4, 0), end: tc(6, 0) };
    let once = merge_colinear(vec![a, b, c]);
    assert_eq!(once.len(), 1);
    assert_eq!(once[0], LineSegment { start: tc(0, 0), end: tc(6, 0) });
    let twice = merge_colinear(once.clone());
    assert_eq!(twice, once);
}

/// A row of terminals chained by edges becomes one wire holding one
/// maximal segment.
#[test]
fn horizontal_chain_merges_to_one_segment() {
    let mut buffer = TextBuffer::new(5, 15);
    buffer.paste("+--+--+--+", TextCoordinate { x: 1, y: 1 });
    let wires = get_wires(&buffer);
    assert_eq!(wires.len(), 1);
    assert_eq!(wires[0].segments.len(), 1);
    assert_eq!(wires[0].segments[0].start, tc(1, 1));
    assert_eq!(wires[0].segments[0].end, tc(10, 1));
}

/// A lone Terminal glyph with nothing attached yields no segment on any
/// axis, and no wire.
#[test]
fn lone_terminal_yields_nothing() {
    let mut buffer = TextBuffer::new(10, 10);
    buffer.set_text(&tc(5, 5), Some('+'));
    assert!(get_horizontal_line_segments(&buffer).is_empty());
    assert!(get_vertical_line_segments(&buffer).is_empty());
    assert!(get_diag_down_right_segments(&buffer).is_empty());
    assert!(get_diag_up_right_segments(&buffer).is_empty());
    assert!(get_wires(&buffer).is_empty());
}

/// Four runs meeting at one interior crossing merge into exactly two
/// wires: the full horizontal run and the full vertical run.
#[test]
fn crossing_runs_merge_through_the_crossing_point() {
    const INITIAL_TEXT: &str = "
    +
    |
+---+---+
    |
    +
        ";
    let mut buffer = TextBuffer::new(20, 20);
    buffer.paste(INITIAL_TEXT, TextCoordinate { x: 2, y: 2 });
    let wires = get_wires(&buffer);
    assert_eq!(wires.len(), 2);
    assert_eq!(wires[0].segments.len(), 1);
    assert_eq!(wires[1].segments.len(), 1);
    // One maximal run per direction, spanning the whole cross.
    let mut spans = vec![
        (wires[0].segments[0].start, wires[0].segments[0].end),
        (wires[1].segments[0].start, wires[1].segments[0].end),
    ];
    spans.sort_by_key(|p| (p.0.x, p.0.y));
    assert_eq!(spans[0], (tc(2, 5), tc(10, 5)));
    assert_eq!(spans[1], (tc(6, 3), tc(6, 7)));
}

/// The box alone is one rectangle; adding the arrow leaves the wires at
/// two.
#[test]
fn box_with_wire_through_scenario() {
    const CUP_EXAMPLE: &str = "
+-----+
      |
      |<-----o
      |
+-----+
";
    let mut buffer = TextBuffer::new(20, 20);
    buffer.paste(CUP_EXAMPLE, TextCoordinate { x: 1, y: 1 });
    assert_eq!(get_wires(&buffer).len(), 2);

    const BOX_ONLY: &str = "
+-----+
|     |
+-----+
";
    let mut boxed = TextBuffer::new(20, 20);
    boxed.paste(BOX_ONLY, TextCoordinate { x: 1, y: 1 });
    assert_eq!(get_rectangles(&boxed).len(), 1);
}

/// A three-cell vertical run is one wire made of one full-height segment.
#[test]
fn vertical_run_scenario() {
    const INITIAL_TEXT: &str = "
+
|
v";
    let mut buffer = TextBuffer::new(10, 10);
    buffer.paste(INITIAL_TEXT, TextCoordinate { x: 3, y: 3 });
    let wires = get_wires(&buffer);
    assert_eq!(wires.len(), 1);
    assert_eq!(wires[0].segments.len(), 1);
    assert_eq!(wires[0].segments[0].start, tc(3, 4));
    assert_eq!(wires[0].segments[0].end, tc(3, 6));
}

/// Clearing every cell the detected wires cover removes exactly the
/// line-drawing glyphs and leaves the surrounding text.
#[test]
fn clearing_wire_cells_leaves_only_labels() {
    const LABELLED_BOX: &str = "
+--+
|  | ab
+--+
";
    let mut buffer = TextBuffer::new(10, 12);
    buffer.paste(LABELLED_BOX, TextCoordinate { x: 1, y: 1 });
    let wires = get_wires(&buffer);
    let mut labels = buffer.clone();
    for wire in &wires {
        for segment in &wire.segments {
            for p in segment.iter() {
                labels.set_text(&p, None);
            }
            if buffer.get(segment.start).is_some() {
                labels.set_text(&segment.start, None);
            }
            if buffer.get(segment.end).is_some() {
                labels.set_text(&segment.end, None);
            }
        }
    }
    assert_eq!(labels.render(), "      ab");

    // The same pass over the unlabelled diagram clears everything.
    const PLAIN_BOX: &str = "
+--+
|  |
+--+
";
    let mut plain = TextBuffer::new(10, 12);
    plain.paste(PLAIN_BOX, TextCoordinate { x: 1, y: 1 });
    let wires = get_wires(&plain);
    let mut cleared = plain.clone();
    for wire in &wires {
        for segment in &wire.segments {
            for p in segment.iter() {
                cleared.set_text(&p, None);
            }
            if plain.get(segment.start).is_some() {
                cleared.set_text(&segment.start, None);
            }
            if plain.get(segment.end).is_some() {
                cleared.set_text(&segment.end, None);
            }
        }
    }
    assert_eq!(cleared.render(), "");
}

/// The canonical key packs the low byte of each endpoint coordinate.
#[test]
fn id_packs_the_low_bytes() {
    let s = LineSegment { start: tc(1, 2), end: tc(3, 4) };
    assert_eq!(s.id(), 0x0403_0201);
    let wrapped = LineSegment { start: tc(0x101, 2), end: tc(3, 4) };
    assert_eq!(wrapped.id(), 0x0403_0201);
}

/// Walking a segment visits every covered cell from the start, final cell
/// excluded.
#[test]
fn iter_walks_the_covered_cells() {
    let h = LineSegment { start: tc(2, 5), end: tc(6, 5) };
    assert_eq!(h.iter(), vec![tc(2, 5), tc(3, 5), tc(4, 5), tc(5, 5)]);
    let v = LineSegment { start: tc(1, 1), end: tc(1, 3) };
    assert_eq!(v.iter(), vec![tc(1, 1), tc(1, 2)]);
    let d = LineSegment { start: tc(1, 1), end: tc(3, 3) };
    assert_eq!(d.iter(), vec![tc(1, 1), tc(2, 2)]);
    let u = LineSegment { start: tc(1, 3), end: tc(3, 1) };
    assert_eq!(u.iter(), vec![tc(1, 3), tc(2, 2)]);
}

/// The glyph policy: `+ o < > ^ v` terminate runs on the orthogonal axes,
/// `-` and `|` extend them, and only `+` anchors the diagonals.
#[test]
fn classify_follows_the_glyph_table() {
    for ch in ['+', 'o', '<', '>', '^', 'v'] {
        assert_eq!(classify(ch), Some(Class::Term));
    }
    assert_eq!(classify('-'), Some(Class::HorizEdge));
    assert_eq!(classify('|'), Some(Class::VertEdge));
    assert_eq!(classify('x'), None);
    assert_eq!(classify_horiz('-'), Some(ScanClass::Edge));
    assert_eq!(classify_horiz('|'), None);
    assert_eq!(classify_vert('|'), Some(ScanClass::Edge));
    assert_eq!(classify_vert('-'), None);
    assert_eq!(classify_diag_down_right('\\'), Some(ScanClass::Edge));
    assert_eq!(classify_diag_down_right('/'), None);
    assert_eq!(classify_diag_down_left('/'), Some(ScanClass::Edge));
    assert_eq!(classify_diag_down_left('o'), None);
}

/// Diagonal runs are detected along both slants.
#[test]
fn diagonal_runs_are_detected() {
    let mut buffer = TextBuffer::new(10, 10);
    buffer.paste("+\n \\\n  +", TextCoordinate { x: 1, y: 1 });
    let ds = get_diag_down_right_segments(&buffer);
    assert_eq!(ds.len(), 1);
    assert_eq!(ds[0].start, tc(1, 1));
    assert_eq!(ds[0].end, tc(3, 3));

    let mut up = TextBuffer::new(10, 10);
    up.paste("  +\n /\n+", TextCoordinate { x: 1, y: 1 });
    let us = get_diag_up_right_segments(&up);
    assert_eq!(us.len(), 1);
    assert_eq!(us[0].start, tc(1, 3));
    assert_eq!(us[0].end, tc(3, 1));
}

/// An empty grid has no segments, wires or rectangles.
#[test]
fn empty_grid_yields_nothing() {
    let empty = TextBuffer::new(0, 0);
    assert!(get_wires(&empty).is_empty());
    assert!(get_rectangles(&empty).is_empty());
    assert_eq!(empty.render(), "");
}
