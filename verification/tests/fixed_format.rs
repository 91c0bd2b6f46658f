use copyforge_core::error::LexerError;
use copyforge_core::lexer::fixed_format::preprocess;

fn sample(indicator: char, text: &str) -> String {
    let mut s = String::from("      "); // cols 1-6
    s.push(indicator);
    s.push_str(text);
    s.push('\n');
    s
}

#[test]
fn extracts_text_area_and_tracks_offset() {
    let src = sample(' ', "01 FOO.");
    let (lines, errors) = preprocess(&src);
    assert!(errors.is_empty());
    assert_eq!(lines.len(), 1);
    assert_eq!(lines[0].text, "01 FOO.");
    assert_eq!(lines[0].start_line, 1);
    assert_eq!(lines[0].segments.len(), 1);
    let seg = &lines[0].segments[0];
    assert_eq!(seg.logical_start, 0);
    assert_eq!(seg.source_start, 7);
    assert_eq!(seg.len, "01 FOO.".len());
    assert_eq!(seg.source_line, 1);
    assert_eq!(seg.source_col, 8);
}

#[test]
fn skips_comment_and_formfeed_lines() {
    let src = format!(
        "{}{}{}",
        sample('*', " commentary"),
        sample('/', " formfeed"),
        sample(' ', "02 BAR.")
    );
    let (lines, errors) = preprocess(&src);
    assert!(errors.is_empty());
    assert_eq!(lines.len(), 1);
    assert_eq!(lines[0].text, "02 BAR.");
    assert_eq!(lines[0].start_line, 3);
}

#[test]
fn debug_indicator_emits_code_line() {
    let src = sample('D', "DISPLAY X.");
    let (lines, _errors) = preprocess(&src);
    assert_eq!(lines.len(), 1);
    assert_eq!(lines[0].text, "DISPLAY X.");
}

#[test]
fn continuation_indicator_produces_error_and_drops_content() {
    let src = sample('-', "\"tail\"");
    let (lines, errors) = preprocess(&src);
    assert!(lines.is_empty());
    assert_eq!(errors.len(), 1);
    match &errors[0] {
        LexerError::InvalidCharacter { ch, span } => {
            assert_eq!(*ch, '-');
            assert_eq!(span.column, 7);
        }
        other => panic!("expected InvalidCharacter, got {other:?}"),
    }
}

#[test]
fn short_lines_are_silently_skipped() {
    let src = "abc\n\n      \n";
    let (lines, errors) = preprocess(src);
    assert!(lines.is_empty());
    assert!(errors.is_empty());
}

#[test]
fn truncates_past_column_72() {
    let mut src = String::from("      "); // cols 1-6
    src.push(' '); // col 7
    for _ in 8..=80 {
        src.push('X');
    }
    src.push('\n');
    let (lines, _) = preprocess(&src);
    assert_eq!(lines.len(), 1);
    assert_eq!(lines[0].text.len(), 65); // cols 8..=72 is 65 chars
    assert!(lines[0].text.chars().all(|c| c == 'X'));
}

#[test]
fn crlf_line_endings_supported() {
    let src = "      \x20LINE1.\r\n      \x20LINE2.\r\n";
    let (lines, _) = preprocess(src);
    assert_eq!(lines.len(), 2);
    assert_eq!(lines[0].text, "LINE1.");
    assert_eq!(lines[1].text, "LINE2.");
}

#[test]
fn multibyte_char_straddling_col_72_does_not_panic() {
    let mut src = String::from("       "); // 7-col prefix
    for _ in 0..64 {
        src.push('X');
    }
    src.push('é'); // 2 bytes, crosses the byte-72 cutoff
    src.push('\n');
    let (lines, errors) = preprocess(&src);
    assert!(errors.is_empty(), "{errors:?}");
    assert_eq!(lines.len(), 1);
    assert!(lines[0].text.chars().count() <= 65);
}

#[test]
fn null_byte_indicator_raises_null_error() {
    let src = "      \x00FOO.\n";
    let (_, errors) = preprocess(src);
    assert_eq!(errors.len(), 1);
    assert!(matches!(errors[0], LexerError::EncounteredNullByte { .. }));
}

#[test]
fn multibyte_cut_drops_the_whole_character() {
    let mut src = String::from("       ");
    for _ in 0..64 {
        src.push('X');
    }
    src.push('é');
    src.push('\n');
    let (lines, _) = preprocess(&src);
    assert_eq!(lines[0].text.len(), 64);
    assert_eq!(lines[0].segments[0].len, 64);
}

#[test]
fn non_ascii_indicator_reports_its_leading_byte() {
    // 'é' is 0xC3 0xA9; the indicator column holds the byte 0xC3.
    let src = "      é FOO.\n";
    let (lines, errors) = preprocess(src);
    assert!(lines.is_empty());
    assert_eq!(errors.len(), 1);
    match &errors[0] {
        LexerError::InvalidCharacter { ch, span } => {
            assert_eq!(*ch, char::from(0xC3u8));
            assert_eq!((span.start, span.end, span.line, span.column), (6, 7, 1, 7));
        }
        other => panic!("expected InvalidCharacter, got {other:?}"),
    }
}

#[test]
fn last_line_without_newline_and_line_numbers() {
    let src = "short\n      *comment\n       05 A.";
    let (lines, errors) = preprocess(src);
    assert!(errors.is_empty());
    assert_eq!(lines.len(), 1);
    assert_eq!(lines[0].text, "05 A.");
    assert_eq!(lines[0].start_line, 3);
    assert_eq!(lines[0].segments[0].source_start, 28);
}

#[test]
fn lowercase_debug_indicator_is_code() {
    let (lines, errors) = preprocess("      dMOVE.\n");
    assert!(errors.is_empty());
    assert_eq!(lines.len(), 1);
    assert_eq!(lines[0].text, "MOVE.");
}
