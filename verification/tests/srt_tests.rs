use subrip::from_str;
use subrip::parse::{one_subtitle, one_time, opt_byte, time_and_arrow, until_empty_newline};
use subrip::{SrtError, SubTitle, Time};

#[test]
fn easy_two_lines() {
    let content = r#"1
00:00:49,174 --> 00:00:52,593
- Is everything in place?
- You're not to relieve me.

2
00:00:52,844 --> 00:00:55,471
I know, but I felt like taking a shift.

"#;

    let subs = from_str(content).unwrap();
    let sub = &subs[0];

    assert_eq!(sub.index, 1);
    assert_eq!(sub.text, r#"- Is everything in place?
- You're not to relieve me."#);

    let sub = &subs[1];

    assert_eq!(sub.index, 2);
    assert_eq!(sub.text, r#"I know, but I felt like taking a shift."#);
}

#[test]
fn duration_formula() {
    let t = Time { hours: 1, minutes: 2, seconds: 3, milliseconds: 4 };
    assert_eq!(t.to_duration(), 3_723_004);
}

#[test]
fn duration_zero() {
    let t = Time { hours: 0, minutes: 0, seconds: 0, milliseconds: 0 };
    assert_eq!(t.to_duration(), 0);
}

#[test]
fn duration_largest_fields() {
    let t = Time { hours: 255, minutes: 255, seconds: 255, milliseconds: 65535 };
    assert_eq!(t.to_duration(), 255u64 * 3_600_000 + 255 * 60_000 + 255 * 1000 + 65535);
}

#[test]
fn duration_unclamped_minutes() {
    // A minutes value of 75 is kept verbatim, not reduced modulo 60.
    let t = Time { hours: 0, minutes: 75, seconds: 0, milliseconds: 0 };
    assert_eq!(t.to_duration(), 75 * 60_000);
}

#[test]
fn timestamp_pair() {
    let (rest, (start, end)) = time_and_arrow("00:00:49,174 --> 00:00:52,593", 0).unwrap();
    assert_eq!(rest, 29);
    assert_eq!(start.to_duration(), 49174);
    assert_eq!(end.to_duration(), 52593);
}

#[test]
fn timestamp_single() {
    let (rest, t) = one_time("00:00:49,174", 0).unwrap();
    assert_eq!(rest, 12);
    assert_eq!(t, Time { hours: 0, minutes: 0, seconds: 49, milliseconds: 174 });
}

#[test]
fn timestamp_loose_widths() {
    // Digit runs of width 1 or 3 are accepted; values must only fit.
    let (_, t) = one_time("9:5:7,42", 0).unwrap();
    assert_eq!(t, Time { hours: 9, minutes: 5, seconds: 7, milliseconds: 42 });
}

#[test]
fn timestamp_leading_zeros() {
    let (_, t) = one_time("000:00009:007,00042", 0).unwrap();
    assert_eq!(t, Time { hours: 0, minutes: 9, seconds: 7, milliseconds: 42 });
}

#[test]
fn arrow_without_spaces() {
    let (_, (start, end)) = time_and_arrow("0:0:1,0-->0:0:2,0", 0).unwrap();
    assert_eq!(start.to_duration(), 1000);
    assert_eq!(end.to_duration(), 2000);
}

#[test]
fn arrow_with_tabs() {
    let (_, (start, end)) = time_and_arrow("0:0:1,0\t --> \t0:0:2,0", 0).unwrap();
    assert_eq!(start.to_duration(), 1000);
    assert_eq!(end.to_duration(), 2000);
}

#[test]
fn text_span_with_terminator() {
    // "a\n\nb": the blank line sits at position 1; the text span is "a",
    // and the terminator is consumed.
    assert_eq!(until_empty_newline("a\n\nb", 0), (3, 1));
}

#[test]
fn text_span_without_terminator() {
    assert_eq!(until_empty_newline("abc", 0), (3, 3));
}

#[test]
fn text_span_crlf_terminator() {
    assert_eq!(until_empty_newline("ab\r\n\r\nc", 0), (6, 2));
}

#[test]
fn single_block() {
    let (rest, sub) = one_subtitle("1\n00:00:49,174 --> 00:00:52,593\nHi there\n\n", 0).unwrap();
    assert_eq!(rest, 42);
    assert_eq!(sub.index, 1);
    assert_eq!(sub.text, "Hi there");
}

#[test]
fn multi_line_caption_preserved() {
    let subs = from_str("1\n00:00:00,000 --> 00:00:01,000\nfirst line\nsecond line\n\n").unwrap();
    assert_eq!(subs.len(), 1);
    assert_eq!(subs[0].text, "first line\nsecond line");
}

#[test]
fn caption_outer_blank_lines_trimmed() {
    // Blank lines cannot survive inside a caption (they would end the
    // block), but stray surrounding whitespace is trimmed away.
    let subs = from_str("1\n00:00:00,000 --> 00:00:01,000\n  padded  \n\n").unwrap();
    assert_eq!(subs[0].text, "padded");
}

#[test]
fn byte_order_marker_stripped() {
    let plain = "1\n00:00:00,000 --> 00:00:01,000\nHi\n\n";
    let marked = format!("\u{FEFF}{}", plain);
    let a = from_str(plain).unwrap();
    let b = from_str(&marked).unwrap();
    assert_eq!(a.len(), 1);
    assert_eq!(b.len(), 1);
    assert_eq!(a[0].index, b[0].index);
    assert_eq!(a[0].text, b[0].text);
    assert_eq!(a[0].start.to_duration(), b[0].start.to_duration());
    assert_eq!(a[0].end.to_duration(), b[0].end.to_duration());
}

#[test]
fn bom_detection() {
    assert_eq!(opt_byte("\u{FEFF}1"), 1);
    assert_eq!(opt_byte("1"), 0);
    assert_eq!(opt_byte(""), 0);
}

#[test]
fn bom_stripped_only_once() {
    // Exactly one leading marker is stripped; a second one is not an index.
    let r = from_str("\u{FEFF}\u{FEFF}1\n00:00:00,000 --> 00:00:01,000\nHi\n\n");
    assert_eq!(r.unwrap_err(), SrtError::MalformedIndex);
}

#[test]
fn two_blocks_without_trailing_blank_line() {
    // Indices are kept verbatim and never renumbered; the final block may
    // end at the end of the input.
    let subs = from_str("7\n00:00:00,000 --> 00:00:01,000\nA\n\n3\n00:00:02,000 --> 00:00:03,000\nB").unwrap();
    assert_eq!(subs.len(), 2);
    assert_eq!(subs[0].index, 7);
    assert_eq!(subs[0].text, "A");
    assert_eq!(subs[1].index, 3);
    assert_eq!(subs[1].text, "B");
}

#[test]
fn final_block_with_trailing_newline() {
    let subs = from_str("1\n00:00:00,000 --> 00:00:01,000\nHi\n").unwrap();
    assert_eq!(subs.len(), 1);
    assert_eq!(subs[0].text, "Hi");
}

#[test]
fn crlf_document() {
    let subs = from_str(
        "1\r\n00:00:00,000 --> 00:00:01,000\r\nA\r\n\r\n2\r\n00:00:02,000 --> 00:00:03,000\r\nB\r\n\r\n",
    )
    .unwrap();
    assert_eq!(subs.len(), 2);
    assert_eq!(subs[0].text, "A");
    assert_eq!(subs[1].text, "B");
}

#[test]
fn empty_document() {
    let subs = from_str("").unwrap();
    assert_eq!(subs.len(), 0);
}

#[test]
fn malformed_index_is_fatal() {
    let r = from_str("one\n00:00:00,000 --> 00:00:01,000\nHi\n\n");
    assert_eq!(r.unwrap_err(), SrtError::MalformedIndex);
}

#[test]
fn index_overflow_is_fatal() {
    let r = from_str("4294967296\n00:00:00,000 --> 00:00:01,000\nHi\n\n");
    assert_eq!(r.unwrap_err(), SrtError::MalformedIndex);
}

#[test]
fn missing_arrow_is_fatal() {
    let r = from_str("1\n00:00:49,174 00:00:52,593\nHi\n\n");
    assert_eq!(r.unwrap_err(), SrtError::MalformedArrow);
}

#[test]
fn malformed_timestamp_is_fatal() {
    let r = from_str("1\nab --> cd\nHi\n\n");
    assert_eq!(r.unwrap_err(), SrtError::MalformedTimestamp);
}

#[test]
fn timestamp_field_overflow_is_fatal() {
    // Hours must fit in eight bits; 256 is a parse failure, not a clamp.
    let r = from_str("1\n256:00:00,000 --> 00:00:01,000\nHi\n\n");
    assert_eq!(r.unwrap_err(), SrtError::MalformedTimestamp);
}

#[test]
fn milliseconds_overflow_is_fatal() {
    let r = from_str("1\n00:00:00,65536 --> 00:00:01,000\nHi\n\n");
    assert_eq!(r.unwrap_err(), SrtError::MalformedTimestamp);
}

#[test]
fn missing_line_break_is_fatal() {
    let r = from_str("1 00:00:00,000 --> 00:00:01,000\nHi\n\n");
    assert_eq!(r.unwrap_err(), SrtError::MissingLineBreak);
}

#[test]
fn truncated_input_is_fatal() {
    let r = from_str("1");
    assert_eq!(r.unwrap_err(), SrtError::UnexpectedEndOfInput);
}

#[test]
fn failure_after_good_block_returns_no_records() {
    // All-or-nothing: one good block followed by a bad one yields only the
    // error, never a partial list.
    let r = from_str("1\n00:00:00,000 --> 00:00:01,000\nHi\n\nbad\n\n");
    assert_eq!(r.unwrap_err(), SrtError::MalformedIndex);
}

#[test]
fn end_to_end_two_records() {
    let content = "1\n00:00:49,174 --> 00:00:52,593\n- Is everything in place?\n- You're not to relieve me.\n\n2\n00:00:52,844 --> 00:00:55,471\nI know, but I felt like taking a shift.\n\n";
    let subs: Vec<SubTitle> = from_str(content).unwrap();
    assert_eq!(subs.len(), 2);

    assert_eq!(subs[0].index, 1);
    assert_eq!(subs[0].start.to_duration(), 49174);
    assert_eq!(subs[0].end.to_duration(), 52593);
    assert_eq!(subs[0].text, "- Is everything in place?\n- You're not to relieve me.");

    assert_eq!(subs[1].index, 2);
    assert_eq!(subs[1].start.to_duration(), 52844);
    assert_eq!(subs[1].end.to_duration(), 55471);
    assert_eq!(subs[1].text, "I know, but I felt like taking a shift.");
}
