use badascii::analyze::get_wires;
use badascii::tc::TextCoordinate;
use badascii::text_buffer::TextBuffer;

#[test]
fn test_extract_wires() {
    const CUP_EXAMPLE: &str = "
+-----+
      |
      |<-----o
      |
+-----+
";
    let mut text_buffer = TextBuffer::new(20, 20);
    text_buffer.paste(CUP_EXAMPLE, TextCoordinate { x: 1, y: 1 });
    let wires = get_wires(&text_buffer);
    assert_eq!(wires.len(), 2);
}

#[test]
fn test_vert_arrow() {
    const INITIAL_TEXT: &str = "

        +
        |
        v

        ";
    let mut buffer = TextBuffer::new(20, 20);
    buffer.paste(INITIAL_TEXT, TextCoordinate { x: 4, y: 4 });
    let wires = get_wires(&buffer);
    assert_eq!(wires.len(), 1);
}

#[test]
fn test_colinear_wire() {
    const INITIAL_TEXT: &str = "
    +
    |
+---+---+
    |
    +
        ";
    let mut buffer = TextBuffer::new(20, 20);
    buffer.paste(INITIAL_TEXT, TextCoordinate { x: 2, y: 2 });
    let wires = get_wires(&buffer);
    assert_eq!(wires.len(), 2);
}
