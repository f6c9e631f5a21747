use ootr::lang::Language;

fn strings(items: &[&str]) -> Vec<String> {
    items.iter().map(|s| s.to_string()).collect()
}

#[test]
fn only_english_needs_no_pal_rom() {
    assert!(!Language::English.requires_pal_rom());
    assert!(Language::French.requires_pal_rom());
    assert!(Language::German.requires_pal_rom());
}

#[test]
fn setting_values() {
    assert_eq!(Language::English.setting_value(), "english");
    assert_eq!(Language::French.setting_value(), "french");
    assert_eq!(Language::German.setting_value(), "german");
}

#[test]
fn english_join() {
    assert_eq!(Language::English.join(&strings(&["1"])), "1");
    assert_eq!(Language::English.join(&strings(&["1", "2"])), "1 and 2");
    assert_eq!(Language::English.join(&strings(&["1", "2", "3"])), "1, 2, and 3");
    assert_eq!(Language::English.join(&strings(&["1", "2", "3", "4"])), "1, 2, 3, and 4");
}

#[test]
fn french_join() {
    assert_eq!(Language::French.join(&strings(&["a"])), "a");
    assert_eq!(Language::French.join(&strings(&["a", "b"])), "a et b");
    assert_eq!(Language::French.join(&strings(&["a", "b", "c"])), "a, b et c");
}

#[test]
fn german_join() {
    assert_eq!(Language::German.join(&strings(&["a", "b"])), "a und b");
    assert_eq!(Language::German.join(&strings(&["a", "b", "c", "d"])), "a, b, c und d");
}

#[test]
fn display_names() {
    assert_eq!(Language::English.display_name(), "English");
    assert_eq!(Language::French.display_name(), "Français");
    assert_eq!(Language::German.display_name(), "Deutsch");
}

#[test]
fn languages_in_order_and_default() {
    assert_eq!(Language::all(), vec![Language::English, Language::French, Language::German]);
    assert_eq!(Language::default(), Language::English);
}
