use append_cover_epub::error::EpubError;
use append_cover_epub::manifest::{
    cover_declaration, cover_file_name, edit_manifest, find_marker, insert_after_marker,
    load_lines, render_lines, split_lines, MARKER,
};
use append_cover_epub::text::{chars_of, contains_text, find_in, matches_at, same_text};

fn lines_of(items: &[&str]) -> Vec<String> {
    items.iter().map(|s| s.to_string()).collect()
}

#[test]
fn declaration_for_jpeg_is_exact() {
    assert_eq!(
        cover_declaration("jpeg"),
        "<item properties=\"cover-image\" id=\"my-cover-image\" href=\"cover.jpeg\" media-type=\"image/jpeg\"/>"
    );
}

#[test]
fn declaration_for_png_is_exact() {
    assert_eq!(
        cover_declaration("png"),
        "<item properties=\"cover-image\" id=\"my-cover-image\" href=\"cover.png\" media-type=\"image/png\"/>"
    );
}

#[test]
fn cover_file_name_joins_stem_and_subtype() {
    assert_eq!(cover_file_name("png"), "cover.png");
    assert_eq!(cover_file_name(""), "cover.");
}

#[test]
fn marker_is_the_manifest_open_tag() {
    assert_eq!(MARKER, "<manifest>");
}

#[test]
fn insert_after_single_marker_keeps_the_other_lines() {
    let before = lines_of(&["<package>", "  <manifest>", "    <item/>", "  </manifest>", "</package>"]);
    let mut lines = lines_of(&["<package>", "  <manifest>", "    <item/>", "  </manifest>", "</package>"]);
    let res = insert_after_marker(&mut lines, "<manifest>", "NEW".to_string());
    assert_eq!(res, Ok(()));
    assert_eq!(lines.len(), before.len() + 1);
    assert_eq!(lines[2], "NEW");
    assert_eq!(&lines[..2], &before[..2]);
    assert_eq!(&lines[3..], &before[2..]);
    let mut without = lines.clone();
    without.remove(2);
    assert_eq!(without, before);
}

#[test]
fn insert_goes_after_the_first_of_two_markers() {
    let mut lines = lines_of(&["a", "<manifest>", "b", "<manifest>", "c"]);
    assert_eq!(insert_after_marker(&mut lines, "<manifest>", "X".to_string()), Ok(()));
    assert_eq!(lines, lines_of(&["a", "<manifest>", "X", "b", "<manifest>", "c"]));
}

#[test]
fn insert_after_marker_in_the_last_line_appends() {
    let mut lines = lines_of(&["a", "<manifest>"]);
    assert_eq!(insert_after_marker(&mut lines, "<manifest>", "X".to_string()), Ok(()));
    assert_eq!(lines, lines_of(&["a", "<manifest>", "X"]));
}

#[test]
fn missing_marker_fails_and_leaves_the_lines() {
    let mut lines = lines_of(&["<package>", "<manifest id=\"m\">", "</package>"]);
    let res = insert_after_marker(&mut lines, "<manifest>", "X".to_string());
    assert_eq!(res, Err(EpubError::MarkerNotFound));
    assert_eq!(lines, lines_of(&["<package>", "<manifest id=\"m\">", "</package>"]));
}

#[test]
fn missing_marker_in_empty_manifest() {
    let mut lines: Vec<String> = Vec::new();
    assert_eq!(
        insert_after_marker(&mut lines, "<manifest>", "X".to_string()),
        Err(EpubError::MarkerNotFound)
    );
    assert!(lines.is_empty());
}

#[test]
fn find_marker_gives_the_lowest_index() {
    let lines = lines_of(&["x", "y <manifest> z", "<manifest>"]);
    assert_eq!(find_marker(&lines, "<manifest>"), Some(1));
    assert_eq!(find_marker(&lines, "<spine>"), None);
    assert_eq!(find_marker(&lines, ""), Some(0));
    assert_eq!(find_marker(&Vec::new(), ""), None);
}

#[test]
fn contains_text_is_substring_containment() {
    assert!(contains_text("  <manifest>  ", "<manifest>"));
    assert!(contains_text("<manifest>", "<manifest>"));
    assert!(!contains_text("<manifest", "<manifest>"));
    assert!(!contains_text("<manifest id=\"a\">", "<manifest>"));
    assert!(contains_text("abc", ""));
    assert!(contains_text("", ""));
    assert!(!contains_text("", "a"));
    assert!(contains_text("aab", "ab"));
    assert!(contains_text("表紙の画像", "の画"));
    assert!(!contains_text("表紙", "画像"));
}

#[test]
fn search_on_characters() {
    let hay = chars_of("abcabc");
    let needle = chars_of("bc");
    assert_eq!(hay, vec!['a', 'b', 'c', 'a', 'b', 'c']);
    assert_eq!(find_in(&hay, &needle), Some(1));
    assert!(matches_at(&hay, &needle, 4));
    assert!(!matches_at(&hay, &needle, 5));
    assert!(!matches_at(&hay, &needle, 7));
    assert_eq!(find_in(&hay, &chars_of("cb")), None);
    assert_eq!(find_in(&hay, &chars_of("abcabc")), Some(0));
    assert_eq!(find_in(&hay, &chars_of("abcabcd")), None);
}

#[test]
fn same_text_compares_whole_texts() {
    assert!(same_text("mimetype", "mimetype"));
    assert!(!same_text("mimetype", "mimetypes"));
    assert!(!same_text("mimetypes", "mimetype"));
    assert!(!same_text("Mimetype", "mimetype"));
    assert!(same_text("", ""));
}

#[test]
fn split_lines_cuts_at_line_feeds() {
    assert_eq!(split_lines(b""), Vec::<Vec<u8>>::new());
    assert_eq!(split_lines(b"\n"), vec![b"".to_vec()]);
    assert_eq!(split_lines(b"a\nb\n"), vec![b"a".to_vec(), b"b".to_vec()]);
    assert_eq!(split_lines(b"a\nb"), vec![b"a".to_vec(), b"b".to_vec()]);
    assert_eq!(split_lines(b"a\n\nb"), vec![b"a".to_vec(), b"".to_vec(), b"b".to_vec()]);
}

#[test]
fn split_lines_drops_the_return_before_a_line_feed_only() {
    assert_eq!(split_lines(b"a\r\nb\r\n"), vec![b"a".to_vec(), b"b".to_vec()]);
    assert_eq!(split_lines(b"a\r"), vec![b"a\r".to_vec()]);
    assert_eq!(split_lines(b"a\r\r\n"), vec![b"a\r".to_vec()]);
    assert_eq!(split_lines(b"\r\n"), vec![b"".to_vec()]);
    assert_eq!(split_lines(b"a\rb\n"), vec![b"a\rb".to_vec()]);
}

#[test]
fn load_lines_decodes_text() {
    assert_eq!(load_lines("一\n二\r\n三".as_bytes()), lines_of(&["一", "二", "三"]));
    assert_eq!(load_lines(b""), Vec::<String>::new());
}

#[test]
fn load_lines_leaves_out_what_is_not_text() {
    let bytes: Vec<u8> = vec![b'a', b'\n', 0xFF, 0xFE, b'\n', b'b', b'\n', 0xC3];
    assert_eq!(load_lines(&bytes), lines_of(&["a", "b"]));
}

#[test]
fn render_lines_ends_each_line_with_a_line_feed() {
    assert_eq!(render_lines(&lines_of(&["a", "", "表"])), "a\n\n表\n".as_bytes().to_vec());
    assert_eq!(render_lines(&Vec::new()), Vec::<u8>::new());
}

#[test]
fn load_undoes_render() {
    let lines = lines_of(&["<?xml?>", "", "  <manifest>", "end"]);
    assert_eq!(load_lines(&render_lines(&lines)), lines);
}

#[test]
fn load_undoes_render_for_plain_lines() {
    let lines = lines_of(&["", "表紙 <manifest>", "a\rb", "\r.", "  ", "é"]);
    assert_eq!(load_lines(&render_lines(&lines)), lines);
    let none: Vec<String> = Vec::new();
    assert_eq!(load_lines(&render_lines(&none)), none);
    assert_eq!(load_lines(&render_lines(&lines_of(&[""]))), lines_of(&[""]));
}

#[test]
fn load_does_not_undo_render_for_other_lines() {
    assert_eq!(load_lines(&render_lines(&lines_of(&["a\nb"]))), lines_of(&["a", "b"]));
    assert_eq!(load_lines(&render_lines(&lines_of(&["a\r"]))), lines_of(&["a"]));
}

#[test]
fn the_saved_manifest_loads_with_the_declaration_in_place() {
    let given = "<package>\r\n<manifest>\r\n<item/>\r\n</manifest>\r\n</package>";
    let saved = edit_manifest(given.as_bytes(), "png").unwrap();
    let mut expected = load_lines(given.as_bytes());
    expected.insert(2, cover_declaration("png"));
    assert_eq!(load_lines(&saved), expected);
    assert_eq!(load_lines(&saved)[2], cover_declaration("png"));
}

#[test]
fn edit_manifest_adds_the_declaration_at_line_eleven() {
    let mut text = String::new();
    for i in 1..10 {
        text.push_str(&format!("<!-- line {} -->\n", i));
    }
    text.push_str("<manifest>\n");
    text.push_str("<item id=\"c1\" href=\"c1.xhtml\" media-type=\"application/xhtml+xml\"/>\n");
    text.push_str("</manifest>\n");
    let edited = edit_manifest(text.as_bytes(), "jpeg").unwrap();
    let edited = String::from_utf8(edited).unwrap();
    let lines: Vec<&str> = edited.lines().collect();
    assert_eq!(lines.len(), 13);
    assert_eq!(lines[9], "<manifest>");
    assert_eq!(
        lines[10],
        "<item properties=\"cover-image\" id=\"my-cover-image\" href=\"cover.jpeg\" media-type=\"image/jpeg\"/>"
    );
    assert_eq!(lines[11], "<item id=\"c1\" href=\"c1.xhtml\" media-type=\"application/xhtml+xml\"/>");
    assert!(edited.ends_with("</manifest>\n"));
}

#[test]
fn edit_manifest_without_marker_fails() {
    assert_eq!(edit_manifest(b"<package>\n</package>\n", "png"), Err(EpubError::MarkerNotFound));
    assert_eq!(edit_manifest(b"", "png"), Err(EpubError::MarkerNotFound));
}

#[test]
fn edit_manifest_writes_unix_line_ends() {
    let edited = edit_manifest(b"<manifest>\r\n</manifest>", "png").unwrap();
    assert_eq!(
        String::from_utf8(edited).unwrap(),
        "<manifest>\n<item properties=\"cover-image\" id=\"my-cover-image\" href=\"cover.png\" media-type=\"image/png\"/>\n</manifest>\n"
    );
}
