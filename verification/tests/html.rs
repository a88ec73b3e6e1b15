use js_compressor::html::{
    escape_html_spaces, protect_captured, protect_html_text, replace_all_bytes, restore_html_spaces,
};

#[test]
fn text_inside_an_element_keeps_its_spaces() {
    let input = b"<p>a b\nc</p>";
    let protected = protect_html_text(input);
    let mut expected = b"<p>a".to_vec();
    expected.extend_from_slice(&[0xC4, 0xB7]);
    expected.push(b'b');
    expected.extend_from_slice(&[0xC4, 0xB9]);
    expected.extend_from_slice(b"c</p>");
    assert_eq!(protected, expected);
    assert_eq!(restore_html_spaces(&protected), input.to_vec());
}

#[test]
fn text_without_element_is_unchanged() {
    let input = b"let a = 1;\n";
    assert_eq!(protect_html_text(input), input.to_vec());
}

#[test]
fn escape_then_restore_gives_the_text_back() {
    let text = b"a b\n\nc d".to_vec();
    let escaped = escape_html_spaces(&text);
    assert_eq!(escaped.len(), text.len() + 4);
    assert_eq!(restore_html_spaces(&escaped), text);
}

#[test]
fn capture_outside_the_text_changes_nothing() {
    let text = b"a b".to_vec();
    assert_eq!(protect_captured(&text, Some((0, 3, 2, 9))), text);
    assert_eq!(protect_captured(&text, None), text);
    let mut expected = b"a".to_vec();
    expected.extend_from_slice(&[0xC4, 0xB7]);
    expected.push(b'b');
    assert_eq!(protect_captured(&text, Some((0, 3, 0, 3))), expected);
}

#[test]
fn every_occurrence_of_the_match_is_protected() {
    let text = b"x y|x y".to_vec();
    let mut expected = b"x".to_vec();
    expected.extend_from_slice(&[0xC4, 0xB7]);
    expected.extend_from_slice(b"y|x");
    expected.extend_from_slice(&[0xC4, 0xB7]);
    expected.push(b'y');
    assert_eq!(protect_captured(&text, Some((0, 3, 0, 3))), expected);
}

#[test]
fn only_the_text_inside_the_match_is_protected() {
    let text = b"<i> a</i> a".to_vec();
    let mut expected = b"<i>".to_vec();
    expected.extend_from_slice(&[0xC4, 0xB7]);
    expected.extend_from_slice(b"a</i> a");
    assert_eq!(protect_captured(&text, Some((0, 9, 3, 5))), expected);
    assert_eq!(restore_html_spaces(&expected), text);
}

#[test]
fn replace_all_bytes_replaces_left_to_right() {
    assert_eq!(replace_all_bytes(b"aaa", b"aa", b"b"), b"ba".to_vec());
    assert_eq!(replace_all_bytes(b"abcabc", b"bc", b"X"), b"aXaX".to_vec());
    assert_eq!(replace_all_bytes(b"abc", b"", b"X"), b"abc".to_vec());
}
