use code_editor::text::{chars_of, Text};

fn shown(text: &Text) -> String {
    text.to_chars().into_iter().collect()
}

#[test]
fn text_splits_at_newlines() {
    let text = Text::from_str("foo\nbar");
    assert_eq!(text.line_count(), 2);
    assert_eq!(text.line(0), &chars_of("foo"));
    assert_eq!(text.line(1), &chars_of("bar"));
    let text = Text::from_str("");
    assert_eq!(text.line_count(), 1);
    assert_eq!(text.line(0).len(), 0);
    let text = Text::from_str("\n");
    assert_eq!(text.line_count(), 2);
    let text = Text::from_str("a\n\nb\n");
    assert_eq!(text.line_count(), 4);
    assert_eq!(text.line(3).len(), 0);
}

#[test]
fn text_joins_back_to_its_characters() {
    for s in ["", "a", "\n", "a\nb", "\n\n\n", "héllo\nwörld\n", "tab\there"] {
        assert_eq!(shown(&Text::from_str(s)), s);
        assert_eq!(Text::from_chars(&chars_of(s)), Text::from_str(s));
    }
}

#[test]
fn new_text_is_one_empty_line() {
    let text = Text::new();
    assert_eq!(text, Text::from_str(""));
    assert_eq!(text.line_count(), 1);
}

#[test]
fn from_lines_refuses_what_is_no_text() {
    assert!(Text::from_lines(Vec::new()).is_none());
    assert!(Text::from_lines(vec![chars_of("a\nb")]).is_none());
    let text = Text::from_lines(vec![chars_of("a"), chars_of("b")]).unwrap();
    assert_eq!(text, Text::from_str("a\nb"));
    assert_eq!(text.clone().into_lines(), vec![chars_of("a"), chars_of("b")]);
}

#[test]
fn append_joins_last_and_first_line() {
    let mut text = Text::from_str("ab\ncd");
    text.append(&Text::from_str("ef\ngh"));
    assert_eq!(shown(&text), "ab\ncdef\ngh");
    let mut text = Text::from_str("ab");
    text.append(&Text::from_str(""));
    assert_eq!(shown(&text), "ab");
    text.append(&Text::from_str("\n"));
    assert_eq!(shown(&text), "ab\n");
}

#[test]
fn chars_of_keeps_every_character() {
    assert_eq!(chars_of("aé\n"), vec!['a', 'é', '\n']);
    assert_eq!(chars_of(""), Vec::<char>::new());
}
