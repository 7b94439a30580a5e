use nrctool::text::{chars_of, parse_u32, selection_text, text_less, version_parts};

#[test]
fn selection_text_shows_prompt_when_empty() {
    assert_eq!(selection_text(""), "Select\u{2026}");
    assert_eq!(selection_text("1.21"), "1.21");
}

#[test]
fn version_parts_parse_each_piece() {
    assert_eq!(version_parts("1.20.4"), vec![1, 20, 4]);
    assert_eq!(version_parts("1.x.3"), vec![1, 0, 3]);
    assert_eq!(version_parts(""), vec![0]);
    assert_eq!(version_parts("1."), vec![1, 0]);
    assert_eq!(version_parts("+7.-1"), vec![7, 0]);
    assert_eq!(version_parts("4294967295.4294967296"), vec![4294967295, 0]);
}

#[test]
fn parses_like_std() {
    for text in ["0", "42", "+42", "+", "", "-1", "4294967295", "4294967296", "12a", " 1", "007"] {
        let chars = chars_of(text);
        assert_eq!(parse_u32(&chars), text.parse::<u32>().ok(), "{text}");
    }
}

#[test]
fn text_order_is_str_order() {
    let words = ["", "a", "ab", "b", "B", "\u{e9}", "z", "aa"];
    for a in words {
        for b in words {
            assert_eq!(text_less(a, b), a < b, "{a} {b}");
        }
    }
}
