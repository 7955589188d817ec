use sbs::format::{format_entries_markdown, format_entries_plain, format_unvalidated};
use sbs::WordEntry;

#[test]
fn test_format_unvalidated_plain() {
    let words = vec!["apple".to_string(), "bat".to_string()];
    assert_eq!(format_unvalidated(&words, "plain"), "apple\nbat");
}

#[test]
fn test_format_unvalidated_json() {
    let words = vec!["apple".to_string(), "bat".to_string()];
    let output = format_unvalidated(&words, "json");
    let parsed: Vec<String> = serde_json::from_str(&output).unwrap();
    assert_eq!(parsed, vec!["apple", "bat"]);
}

#[test]
fn test_format_unvalidated_markdown() {
    let words = vec!["apple".to_string(), "bat".to_string()];
    assert_eq!(
        format_unvalidated(&words, "markdown"),
        "**apple**\n\n**bat**"
    );
}

#[test]
fn formatting_no_words_gives_empty_text() {
    let words: Vec<String> = vec![];
    assert_eq!(format_unvalidated(&words, "plain"), "");
    assert_eq!(format_unvalidated(&words, "markdown"), "");
    assert_eq!(format_unvalidated(&words, "json"), "[]");
}

#[test]
fn formatting_one_word() {
    let words = vec!["apple".to_string()];
    assert_eq!(format_unvalidated(&words, "unknown"), "apple");
    assert_eq!(format_unvalidated(&words, "markdown"), "**apple**");
    assert_eq!(format_unvalidated(&words, "json"), "[\n  \"apple\"\n]");
}

#[test]
fn entries_as_text() {
    let entries = vec![
        WordEntry {
            word: "apple".to_string(),
            definition: "A fruit".to_string(),
            url: "https://example.com/apple".to_string(),
        },
        WordEntry {
            word: "bat".to_string(),
            definition: "A club".to_string(),
            url: "https://example.com/bat".to_string(),
        },
    ];
    assert_eq!(format_entries_plain(&entries), "apple\tA fruit\nbat\tA club");
    assert_eq!(
        format_entries_markdown(&entries),
        "**apple**\nA fruit\n\n**bat**\nA club"
    );
    assert_eq!(format_entries_plain(&entries[..1]), "apple\tA fruit");
}
