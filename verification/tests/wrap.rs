use aether::wrap::wrap_words;

#[test]
fn wraps_greedily_counting_characters() {
    let lines = wrap_words("  Síť se   téměř neučí. ", 12);
    assert_eq!(lines, vec!["Síť se téměř".to_string(), "neučí.".to_string()]);
}

#[test]
fn long_words_stand_alone() {
    assert_eq!(wrap_words("abcdefghij xy z", 4), vec!["abcdefghij", "xy z"]);
    assert_eq!(wrap_words("a b", 0), vec!["a", "b"]);
}

#[test]
fn blank_text_has_no_lines() {
    assert!(wrap_words("", 10).is_empty());
    assert!(wrap_words(" \t\n ", 10).is_empty());
}

#[test]
fn words_are_kept_in_order() {
    let text = "Ústa dobře berou cizí hmotu a síť se přepisuje rychle";
    let lines = wrap_words(text, 16);
    assert!(lines.iter().all(|l| l.chars().count() <= 16));
    assert_eq!(lines.join(" "), text);
}
