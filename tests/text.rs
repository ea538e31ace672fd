use async_placeholder::comments::remove_comments;
use async_placeholder::matcher::matches_any;

#[test]
fn trailing_line_comment_and_url_are_kept() {
    let input = "{\"a\":1} // trailing comment\n\"url\":\"http://x\"";
    assert_eq!(remove_comments(input), input);
}

#[test]
fn comment_lines_are_removed() {
    let input = "{\n  // a comment\n\"a\": 1\n}";
    assert_eq!(remove_comments(input), "{\n\"a\": 1\n}");
}

#[test]
fn block_comments_are_removed() {
    assert_eq!(remove_comments("{/* x */\"a\":/* y */1}"), "{\"a\":1}");
    assert_eq!(remove_comments("a/* one\ntwo */b"), "ab");
}

#[test]
fn block_comment_ends_at_first_close() {
    assert_eq!(remove_comments("a/* x */b */c"), "ab */c");
}

#[test]
fn unterminated_block_comment_is_kept() {
    assert_eq!(remove_comments("a /* open"), "a /* open");
    assert_eq!(remove_comments("a /*/ b"), "a /*/ b");
}

#[test]
fn empty_text_stays_empty() {
    assert_eq!(remove_comments(""), "");
}

#[test]
fn non_ascii_text_survives() {
    assert_eq!(remove_comments("\"名\":1 /* 注释 */\n// 行\n"), "\"名\":1 \n");
}

#[test]
fn fragments_match_as_substrings() {
    let roots = vec!["/asyncPkg".to_string(), "pkgB".to_string()];
    assert!(matches_any("/asyncPkg/foo/foo", &roots));
    assert!(matches_any("/sub/pkgB/c", &roots));
    assert!(!matches_any("/main/bar", &roots));
    assert!(!matches_any("/main/bar", &vec![]));
    assert!(matches_any("a.b", &vec!["a.b".to_string()]));
    assert!(!matches_any("axb", &vec!["a.b".to_string()]));
}

#[test]
fn comment_lines_indented_with_unicode_blanks_are_removed() {
    assert_eq!(remove_comments("{\n\u{3000}// wide\n1}"), "{\n1}");
    assert_eq!(remove_comments("\u{A0}\t\u{2003}//x\ny"), "y");
    assert_eq!(remove_comments("\u{3000}x // y"), "\u{3000}x // y");
}

#[test]
fn last_line_without_line_end() {
    assert_eq!(remove_comments("a\n// end"), "a\n");
    assert_eq!(remove_comments("a\nb"), "a\nb");
    assert_eq!(remove_comments("\n\n"), "\n\n");
}
