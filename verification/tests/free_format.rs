use copyforge_core::lexer::free_format::{char_is_white_space, find_comment_start, preprocess};

#[test]
fn comment_start_outside_literal() {
    assert_eq!(find_comment_start("FOO *> bar"), Some(4));
}

#[test]
fn comment_start_none_when_absent() {
    assert_eq!(find_comment_start(""), None);
    assert_eq!(find_comment_start("05 A PIC X(10)."), None);
    assert_eq!(find_comment_start("lone * star"), None);
    assert_eq!(find_comment_start("lone > gt"), None);
}

#[test]
fn comment_marker_inside_single_quote_is_literal_content() {
    assert_eq!(find_comment_start("VALUE '*> not a comment'"), None);
}

#[test]
fn comment_marker_inside_double_quote_is_literal_content() {
    assert_eq!(find_comment_start("VALUE \"*> not a comment\""), None);
}

#[test]
fn comment_after_closed_literal_is_detected() {
    let src = "VALUE '*>' FOO *> real comment";
    let offset = find_comment_start(src).expect("comment detected");
    assert_eq!(&src[offset..], "*> real comment");
}

#[test]
fn comment_inside_unterminated_literal_is_not_detected() {
    assert_eq!(find_comment_start("VALUE 'open *> still literal"), None);
}

#[test]
fn doubled_quote_escape_does_not_close_literal() {
    let src = "VALUE 'A''B' *> trailing";
    let offset = find_comment_start(src).expect("comment detected");
    assert_eq!(&src[offset..], "*> trailing");
}

#[test]
fn doubled_quote_escape_near_star_gt_stays_literal() {
    assert_eq!(find_comment_start("'A''*>B'"), None);
}

#[test]
fn preprocess_plain_line_yields_single_segment_at_col_one() {
    let (lines, errors) = preprocess("01 FOO.\n");
    assert!(errors.is_empty());
    assert_eq!(lines.len(), 1);
    assert_eq!(lines[0].text, "01 FOO.");
    assert_eq!(lines[0].segments.len(), 1);
    let seg = &lines[0].segments[0];
    assert_eq!(seg.source_col, 1);
    assert_eq!(seg.source_line, 1);
    assert_eq!(seg.source_start, 0);
    assert_eq!(seg.len, "01 FOO.".len());
}

#[test]
fn preprocess_strips_inline_comment() {
    let (lines, errors) = preprocess("05 A PIC X(10). *> trailing note\n");
    assert!(errors.is_empty());
    assert_eq!(lines.len(), 1);
    assert_eq!(lines[0].text, "05 A PIC X(10). ");
}

#[test]
fn preprocess_skips_blank_and_whole_line_comment() {
    let src = "\n   \n*> only comment\n05 FOO.\n";
    let (lines, errors) = preprocess(src);
    assert!(errors.is_empty());
    assert_eq!(lines.len(), 1);
    assert_eq!(lines[0].text, "05 FOO.");
    assert_eq!(lines[0].start_line, 4);
}

#[test]
fn preprocess_no_column_72_truncation() {
    let line: String = "X".repeat(100);
    let src = format!("{line}\n");
    let (lines, _) = preprocess(&src);
    assert_eq!(lines.len(), 1);
    assert_eq!(lines[0].text.len(), 100);
}

#[test]
fn preprocess_supports_crlf() {
    let src = "LINE1\r\nLINE2\r\n";
    let (lines, _) = preprocess(src);
    assert_eq!(lines.len(), 2);
    assert_eq!(lines[0].text, "LINE1");
    assert_eq!(lines[1].text, "LINE2");
}

#[test]
fn preprocess_keeps_final_line_without_trailing_newline() {
    let (lines, _) = preprocess("05 BAR.");
    assert_eq!(lines.len(), 1);
    assert_eq!(lines[0].text, "05 BAR.");
    assert_eq!(lines[0].start_line, 1);
}

#[test]
fn preprocess_drops_unicode_white_space_lines_and_directives() {
    let src = "\u{3000}\t\u{a0}\n  >>SOURCE FORMAT IS FREE\n> 01 X.\n";
    let (lines, errors) = preprocess(src);
    assert!(errors.is_empty());
    assert_eq!(lines.len(), 1);
    assert_eq!(lines[0].text, "> 01 X.");
    assert_eq!(lines[0].start_line, 3);
    assert_eq!(lines[0].segments[0].source_start, src.len() - 8);
}

#[test]
fn white_space_set_is_the_unicode_white_space_property() {
    for v in 0u32..=0x10FFFF {
        if let Some(c) = char::from_u32(v) {
            assert_eq!(char_is_white_space(c), c.is_whitespace(), "U+{v:04X}");
        }
    }
}
