use mind_flayer::buffer::{
    append_stderr_output, snapshot_stderr_output, trim_stderr_output_buffer, StderrBuffer,
};

#[test]
fn appended_lines_accumulate_with_newlines() {
    let mut buffer = StderrBuffer::new();
    append_stderr_output(&mut buffer, "first line");
    append_stderr_output(&mut buffer, "second line\r\n");
    let text: String = buffer.chars().iter().collect();
    assert_eq!(text, "first line\nsecond line\n");
}

#[test]
fn snapshot_trims_surrounding_whitespace() {
    let mut buffer = StderrBuffer::new();
    append_stderr_output(&mut buffer, "  padded  ");
    assert_eq!(snapshot_stderr_output(&buffer), "padded");
}

#[test]
fn buffer_never_exceeds_its_byte_cap() {
    let mut buffer = StderrBuffer::with_cap(8);
    append_stderr_output(&mut buffer, "abcdefghij");
    assert!(buffer.byte_count() <= buffer.cap());
    let text: String = buffer.chars().iter().collect();
    assert_eq!(text, "defghij\n");
}

#[test]
fn repeated_appends_keep_only_the_tail() {
    let mut buffer = StderrBuffer::with_cap(16);
    for _ in 0..100 {
        append_stderr_output(&mut buffer, "0123456789");
    }
    assert!(buffer.byte_count() <= 16);
    let text: String = buffer.chars().iter().collect();
    assert!(text.ends_with("0123456789\n"));
}

#[test]
fn trim_never_splits_a_multi_byte_character() {
    let mut buffer = StderrBuffer::with_cap(4);
    append_stderr_output(&mut buffer, "a\u{e9}\u{e9}");
    // The cap forces dropping from the front; each dropped unit is a whole
    // character, so what remains is valid text.
    let text: String = buffer.chars().iter().collect();
    assert_eq!(text, "\u{e9}\n");
    assert_eq!(buffer.byte_count(), 3);
    assert!(buffer.byte_count() <= buffer.cap());
}

#[test]
fn oversized_single_character_stream_empties_down_to_cap() {
    let mut buffer = StderrBuffer::with_cap(5);
    append_stderr_output(&mut buffer, "\u{1f600}\u{1f600}");
    // Each emoji takes four bytes; with the newline only one fits the cap.
    assert!(buffer.byte_count() <= 5);
    let text: String = buffer.chars().iter().collect();
    assert_eq!(text, "\u{1f600}\n");
}

#[test]
fn explicit_trim_is_a_no_op_under_the_cap() {
    let mut buffer = StderrBuffer::new();
    append_stderr_output(&mut buffer, "short");
    trim_stderr_output_buffer(&mut buffer);
    let text: String = buffer.chars().iter().collect();
    assert_eq!(text, "short\n");
}
