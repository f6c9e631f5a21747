use ootr::presets::{comes_before, set_setting};

#[test]
fn names_are_ordered_by_characters() {
    let s = |x: &str| String::from(x);
    assert!(comes_before(&s("Al"), &s("Alpha")));
    assert!(!comes_before(&s("Alpha"), &s("Al")));
    assert!(comes_before(&s("Zelda"), &s("apple")));
    assert!(comes_before(&s(""), &s("a")));
    assert!(!comes_before(&s("same"), &s("same")));
    assert!(comes_before(&s("é"), &s("\u{1f600}")));
    assert!(!comes_before(&s("b"), &s("a")));
}

#[test]
fn setting_a_setting_replaces_or_adds_it() {
    let mut settings = vec![(String::from("a"), 1u32), (String::from("b"), 2)];
    set_setting(&mut settings, String::from("a"), 5);
    assert_eq!(settings, vec![(String::from("a"), 5), (String::from("b"), 2)]);
    set_setting(&mut settings, String::from("c"), 7);
    assert_eq!(settings, vec![(String::from("a"), 5), (String::from("b"), 2), (String::from("c"), 7)]);
}
