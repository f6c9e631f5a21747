use ootr::settings::{add_disables, matches_disable, setting_enabled, toggle_choice, DisableKey, Disables, SettingValue};

fn s(x: &str) -> String {
    String::from(x)
}

#[test]
fn disable_keys_match_equal_values() {
    assert!(matches_disable(&SettingValue::Bool(true), &DisableKey::Bool(true)));
    assert!(!matches_disable(&SettingValue::Bool(false), &DisableKey::Bool(true)));
    assert!(matches_disable(&SettingValue::Int(3), &DisableKey::Int(3)));
    assert!(!matches_disable(&SettingValue::Int(3), &DisableKey::Bool(true)));
    assert!(matches_disable(&SettingValue::Str(s("open")), &DisableKey::Str(s("open"))));
    assert!(!matches_disable(&SettingValue::Str(s("closed")), &DisableKey::Str(s("open"))));
    assert!(matches_disable(&SettingValue::Null, &DisableKey::Null));
    assert!(!matches_disable(&SettingValue::List(vec![]), &DisableKey::Null));
}

#[test]
fn negated_disable_keys_match_every_other_value() {
    let not_open = DisableKey::Str(s("!open"));
    assert!(!matches_disable(&SettingValue::Str(s("open")), &not_open));
    assert!(matches_disable(&SettingValue::Str(s("closed")), &not_open));
    assert!(matches_disable(&SettingValue::Str(s("!open")), &not_open));
    assert!(matches_disable(&SettingValue::Bool(true), &not_open));
    assert!(matches_disable(&SettingValue::Dict(vec![(s("a"), SettingValue::Null)]), &not_open));
    // "!" alone stands for every value but the empty string
    assert!(!matches_disable(&SettingValue::Str(s("")), &DisableKey::Str(s("!"))));
}

#[test]
fn disables_follow_the_value_in_the_preset_or_the_default() {
    let table = vec![
        (DisableKey::Str(s("off")), Disables { tabs: vec![s("t1")], sections: vec![], settings: vec![s("a"), s("b")] }),
        (DisableKey::Str(s("!off")), Disables { tabs: vec![], sections: vec![s("s1")], settings: vec![s("c")] }),
    ];
    let mut out = Disables { tabs: vec![], sections: vec![], settings: vec![] };
    // not in the preset: the default "off" applies
    add_disables(&vec![], &s("x"), &SettingValue::Str(s("off")), &table, &mut out);
    assert_eq!(out.tabs, vec![s("t1")]);
    assert_eq!(out.settings, vec![s("a"), s("b")]);
    assert!(out.sections.is_empty());
    assert!(!setting_enabled(&out, &s("t1"), &s("s0"), &s("z")));
    assert!(!setting_enabled(&out, &s("t0"), &s("s0"), &s("b")));
    assert!(setting_enabled(&out, &s("t0"), &s("s1"), &s("c")));
    // in the preset: its value "on" applies
    let mut out2 = Disables { tabs: vec![], sections: vec![], settings: vec![] };
    add_disables(&vec![(s("x"), SettingValue::Str(s("on")))], &s("x"), &SettingValue::Str(s("off")), &table, &mut out2);
    assert!(out2.tabs.is_empty());
    assert_eq!(out2.sections, vec![s("s1")]);
    assert_eq!(out2.settings, vec![s("c")]);
    assert!(!setting_enabled(&out2, &s("t0"), &s("s1"), &s("z")));
}

#[test]
fn choosing_in_a_multiple_choice_setting_toggles_in_choice_order() {
    let choices = vec![s("a"), s("b"), s("c"), s("d")];
    let sel = vec![s("a"), s("c")];
    // an unselected choice goes where its position among the choices places it
    assert_eq!(toggle_choice(&sel, s("b"), &choices), vec![s("a"), s("b"), s("c")]);
    assert_eq!(toggle_choice(&sel, s("d"), &choices), vec![s("a"), s("c"), s("d")]);
    // a selected choice is deselected
    assert_eq!(toggle_choice(&sel, s("a"), &choices), vec![s("c")]);
    assert_eq!(toggle_choice(&vec![s("c"), s("c")], s("c"), &choices), Vec::<String>::new());
    // a value that is no choice goes before all choices, unless another such value is there
    assert_eq!(toggle_choice(&sel, s("z"), &choices), vec![s("z"), s("a"), s("c")]);
    assert_eq!(toggle_choice(&vec![s("y")], s("z"), &choices), vec![s("y")]);
}
