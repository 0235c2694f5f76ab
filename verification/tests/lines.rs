use firrtl_strip::split_lines;

fn std_lines(text: &str) -> Vec<String> {
    text.lines().map(|line| line.to_string()).collect()
}

#[test]
fn empty_text_has_no_lines() {
    assert_eq!(split_lines(""), Vec::<String>::new());
}

#[test]
fn splits_at_line_feeds() {
    assert_eq!(split_lines("a\nb\nc\n"), vec!["a", "b", "c"]);
}

#[test]
fn final_line_feed_is_optional() {
    assert_eq!(split_lines("a\nb"), vec!["a", "b"]);
    assert_eq!(split_lines("a\nb\n"), vec!["a", "b"]);
}

#[test]
fn empty_lines_are_lines() {
    assert_eq!(split_lines("\n"), vec![""]);
    assert_eq!(split_lines("\n\n"), vec!["", ""]);
    assert_eq!(split_lines("a\n\nb"), vec!["a", "", "b"]);
}

#[test]
fn carriage_return_before_line_feed_is_dropped() {
    assert_eq!(split_lines("a\r\nb\r\n"), vec!["a", "b"]);
    assert_eq!(split_lines("\r\n"), vec![""]);
}

#[test]
fn only_one_carriage_return_is_dropped() {
    assert_eq!(split_lines("a\r\r\nb"), vec!["a\r", "b"]);
}

#[test]
fn lone_carriage_return_stays() {
    assert_eq!(split_lines("a\rb\n"), vec!["a\rb"]);
    assert_eq!(split_lines("a\r"), vec!["a\r"]);
    assert_eq!(split_lines("\r"), vec!["\r"]);
    assert_eq!(split_lines("x\n\r"), vec!["x", "\r"]);
}

#[test]
fn keeps_characters_of_any_width() {
    assert_eq!(split_lines("é\u{3000}ü\n\u{1f600}"), vec!["é\u{3000}ü", "\u{1f600}"]);
}

#[test]
fn agrees_with_std_lines() {
    let alphabet = ['a', '\n', '\r', ' '];
    let mut texts = vec![String::new()];
    let mut from = 0;
    for _ in 0..6 {
        let upto = texts.len();
        for i in from..upto {
            for c in alphabet {
                let mut text = texts[i].clone();
                text.push(c);
                texts.push(text);
            }
        }
        from = upto;
    }
    assert_eq!(texts.len(), 5461);
    for text in &texts {
        assert_eq!(split_lines(text), std_lines(text), "{text:?}");
    }
}
