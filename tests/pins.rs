use pinboard_relay::pin::{
    format_message, hashtags, join_comma_space, message_body, split_tags, tags_for_storage, Pin,
};

fn strings(v: &[&str]) -> Vec<String> {
    v.iter().map(|s| s.to_string()).collect()
}

fn pin(title: &str, url: &str, note: Option<&str>, tags: &[&str]) -> Pin {
    Pin {
        u: url.to_string(),
        d: title.to_string(),
        n: note.map(|n| n.to_string()),
        a: "alice".to_string(),
        t: strings(tags),
    }
}

#[test]
fn tags_are_sanitized_for_storage() {
    let tags = strings(&["", "rust", "", "go"]);
    assert_eq!(tags_for_storage(&tags), "#rust, #go");
}

#[test]
fn no_tags_store_as_empty_text() {
    assert_eq!(tags_for_storage(&strings(&[""])), "");
    assert_eq!(tags_for_storage(&Vec::new()), "");
}

#[test]
fn hashtags_keep_order() {
    assert_eq!(hashtags(&strings(&["a", "", "b"])), strings(&["#a", "#b"]));
}

#[test]
fn join_puts_comma_space_between() {
    assert_eq!(join_comma_space(&strings(&["x", "y", "z"])), "x, y, z");
    assert_eq!(join_comma_space(&strings(&["x"])), "x");
    assert_eq!(join_comma_space(&Vec::new()), "");
}

#[test]
fn split_tags_splits_at_commas() {
    assert_eq!(split_tags("#rust, #go"), strings(&["#rust", " #go"]));
    assert_eq!(split_tags(""), strings(&[""]));
    assert_eq!(split_tags("a,"), strings(&["a", ""]));
}

#[test]
fn message_with_empty_note_and_no_tags() {
    let p = pin("T", "http://x", Some(""), &[]);
    assert_eq!(format_message(&p), "T\n\nhttp://x");
}

#[test]
fn message_with_note_and_tags() {
    let p = pin("T", "http://x", Some("n"), &["#a", "#b"]);
    assert_eq!(format_message(&p), "T\n\nhttp://x\n\nn\n\n#a, #b");
}

#[test]
fn message_without_note() {
    let p = pin("T", "http://x", None, &["a"]);
    assert_eq!(message_body(&p), "T\n\nhttp://x\n\na");
}

#[test]
fn message_is_trimmed() {
    let p = pin("  T", "http://x", None, &[""]);
    assert_eq!(message_body(&p), "  T\n\nhttp://x\n\n");
    assert_eq!(format_message(&p), "T\n\nhttp://x");
}
