use badascii::analyze::{get_rectangles, get_wires};
use badascii::rect::Rectangle;
use badascii::tc::TextCoordinate;
use badascii::text_buffer::TextBuffer;

#[test]
fn analyze_test_extract_wires() {
    const CUP_EXAMPLE: &str = "
+-----+
      |
      |<-----o
      |
+-----+
";
    let mut text_buffer = TextBuffer::new(20, 20);
    text_buffer.paste(CUP_EXAMPLE, TextCoordinate { x: 1, y: 1 });
    let wires = get_wires(&text_buffer);
    assert_eq!(wires.len(), 2);
}

#[test]
fn analyze_test_vert_arrow() {
    const INITIAL_TEXT: &str = "

        +
        |
        v

        ";
    let mut buffer = TextBuffer::new(20, 20);
    buffer.paste(INITIAL_TEXT, TextCoordinate { x: 4, y: 4 });
    let wires = get_wires(&buffer);
    assert_eq!(wires.len(), 1);
}

#[test]
fn analyze_test_colinear_wire() {
    const INITIAL_TEXT: &str = "
    +
    |
+---+---+
    |
    +
        ";
    let mut buffer = TextBuffer::new(20, 20);
    buffer.paste(INITIAL_TEXT, TextCoordinate { x: 2, y: 2 });
    let wires = get_wires(&buffer);
    assert_eq!(wires.len(), 2);
}

#[test]
fn test_short_line_extraction() {
    const INITIAL_TEXT: &str = "
  +
  v
        ";
    let mut buffer = TextBuffer::new(20, 20);
    buffer.paste(INITIAL_TEXT, TextCoordinate { x: 2, y: 2 });
    let wires = get_wires(&buffer);
    assert_eq!(wires.len(), 1);
    assert_eq!(wires[0].segments.len(), 1);
    assert_eq!(wires[0].segments[0].start, TextCoordinate { x: 4, y: 3 });
    assert_eq!(wires[0].segments[0].end, TextCoordinate { x: 4, y: 4 });
}

#[test]
fn test_basic_rect() {
    const BASIC_EXAMPLE: &str = "
   +-----+
   |     |
   +-----+
        ";
    let mut text_buffer = TextBuffer::new(20, 20);
    text_buffer.paste(BASIC_EXAMPLE, TextCoordinate { x: 1, y: 1 });
    let rects = get_rectangles(&text_buffer);
    assert!(rects.len() == 1);
}

#[test]
fn analyze_test_extract_mis_hits() {
    const CUP_EXAMPLE: &str = "
+-----+
      |
      |
      |
+-----+
";
    let mut text_buffer = TextBuffer::new(20, 20);
    text_buffer.paste(CUP_EXAMPLE, TextCoordinate { x: 1, y: 1 });
    let rects = get_rectangles(&text_buffer);
    assert!(rects.is_empty());
}

#[test]
fn test_empty_corners_checked() {
    const NONEMPTY_CORNER_EXAMPLE: &str = "
----+-----+
    |     |
    +-----+
        ";
    let mut text_buffer = TextBuffer::new(20, 20);
    text_buffer.paste(NONEMPTY_CORNER_EXAMPLE, TextCoordinate { x: 1, y: 1 });
    let rects = get_rectangles(&text_buffer);
    assert!(rects.is_empty());
}

#[test]
fn test_initial_diagram() {
    const INITIAL_TEXT: &str = "
     +---------------------+
     |                     |
    >| data           data |o
     |                     |
    o| full           next |>
     |                     |
    o| overflow  underflow |o
     |                     |
     +---------------------+
";
    let mut buffer = TextBuffer::new(40, 40);
    buffer.paste(INITIAL_TEXT, TextCoordinate { x: 4, y: 4 });
    let rects = get_rectangles(&buffer);
    assert_eq!(rects.len(), 1);
}

#[test]
fn detected_rectangle_is_normalized() {
    const BASIC_EXAMPLE: &str = "
   +-----+
   |     |
   +-----+
        ";
    let mut text_buffer = TextBuffer::new(20, 20);
    text_buffer.paste(BASIC_EXAMPLE, TextCoordinate { x: 1, y: 1 });
    let rects = get_rectangles(&text_buffer);
    assert_eq!(rects.len(), 1);
    let expected = Rectangle {
        corner_1: TextCoordinate { x: 4, y: 2 },
        corner_2: TextCoordinate { x: 10, y: 4 },
    };
    assert_eq!(rects[0], expected);
    // Describing the same box from any other pair of opposite corners
    // normalizes to the identical rectangle.
    let from_swapped = Rectangle {
        corner_1: TextCoordinate { x: 10, y: 4 },
        corner_2: TextCoordinate { x: 4, y: 2 },
    }
    .normalize();
    let from_anti = Rectangle {
        corner_1: TextCoordinate { x: 10, y: 2 },
        corner_2: TextCoordinate { x: 4, y: 4 },
    }
    .normalize();
    assert_eq!(from_swapped, rects[0]);
    assert_eq!(from_anti, rects[0]);
}

#[test]
fn two_separate_boxes_are_both_found() {
    const TWO_BOXES: &str = "
+-+ +-+
| | | |
+-+ +-+
";
    let mut buffer = TextBuffer::new(20, 20);
    buffer.paste(TWO_BOXES, TextCoordinate { x: 1, y: 1 });
    let rects = get_rectangles(&buffer);
    assert_eq!(rects.len(), 2);
    let left = Rectangle {
        corner_1: TextCoordinate { x: 1, y: 2 },
        corner_2: TextCoordinate { x: 3, y: 4 },
    };
    let right = Rectangle {
        corner_1: TextCoordinate { x: 5, y: 2 },
        corner_2: TextCoordinate { x: 7, y: 4 },
    };
    assert!(rects.contains(&left));
    assert!(rects.contains(&right));
}

#[test]
fn rectangle_touching_the_grid_edge_is_rejected() {
    // The blank-corner rule needs a free cell beyond every corner; a box
    // flush against the top-left of the grid has none.
    const BOX: &str = "+-+
| |
+-+
";
    let mut buffer = TextBuffer::new(10, 10);
    buffer.paste(BOX, TextCoordinate { x: 0, y: 0 });
    let rects = get_rectangles(&buffer);
    assert!(rects.is_empty());
}
