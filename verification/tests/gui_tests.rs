use nonempty_collections::NEVec;
use ootr::generator::Seed;
use ootr::gui::{
    archive_entry_name, copy_name, delete_preset_question, choose_theme, DetectedTheme, PresetSource, custom_preset_file_name, preset_name_from_file, patch_file_filter, rom_placeholder, save_patches_label, tab_shown,
    theme_from_color_scheme, Answer, AnswerAction, CloseAction, CloseQuestion, Gui, PathError, RomPath, Theme,
    WindowState,
};
use ootr::lang::Language;

type Settings = Vec<(String, String)>;
type TestGui = Gui<String, String, String>;

fn seed(worlds: usize) -> Seed {
    Seed { patches: NEVec::try_from(vec![vec![0u8]; worlds]).unwrap(), spoiler_log: String::from("{}") }
}

/// A main window (1) and a window (2) showing a generated seed of `worlds` worlds.
fn gui_with_seed(worlds: usize) -> TestGui {
    let mut gui = TestGui::new();
    gui.open_window(1, WindowState::Main);
    gui.start_generation(2);
    gui.seed_done(2, seed(worlds));
    gui
}

fn asked_patches(action: CloseAction) -> (u64, u64, Vec<u8>) {
    match action {
        CloseAction::Ask(CloseQuestion::SavePatches { window_to_close, window_to_check, unsaved_worlds }) => {
            (window_to_close, window_to_check, unsaved_worlds)
        },
        _ => panic!("expected a question about patch files"),
    }
}

#[test]
fn new_gui_is_empty() {
    let gui = TestGui::new();
    assert!(gui.window(1).is_none());
    assert!(gui.error().is_none());
    assert_eq!(gui.language(), Language::English);
    assert_eq!(gui.selected_preset().map(|s| s.as_str()), Some("Default / Beginner"));
    assert_eq!(gui.title(7), "OoT Randomizer");
}

#[test]
fn closing_main_asks_about_unsaved_patches_then_spoiler() {
    let mut gui = gui_with_seed(2);
    assert_eq!(asked_patches(gui.close_requested(1)), (1, 2, vec![1, 2]));
    assert!(gui.window(1).is_some());
    gui.mark_patches_saved(2);
    match gui.close_requested(1) {
        CloseAction::Ask(CloseQuestion::SaveSpoiler { window_to_close: 1, window_to_check: 2 }) => {},
        _ => panic!("expected a question about the spoiler log"),
    }
    gui.mark_spoiler_saved(2);
    assert!(matches!(gui.close_requested(1), CloseAction::Exit));
}

#[test]
fn closing_an_unsaved_seed_window_asks_first() {
    let mut gui = gui_with_seed(1);
    assert_eq!(asked_patches(gui.close_requested(2)), (2, 2, vec![1]));
    assert!(gui.window(2).is_some());
}

#[test]
fn answers_to_the_question() {
    let mut gui = gui_with_seed(3);
    assert!(matches!(
        gui.answer(1, 2, Answer::Save),
        AnswerAction::Save { window_to_close: 1, window_to_check: 2 }
    ));
    assert!(matches!(gui.answer(1, 2, Answer::Cancel), AnswerAction::Nothing));
    assert!(gui.window(2).is_some());
    assert!(matches!(
        gui.answer(1, 2, Answer::Delete),
        AnswerAction::Close { window: 2, then_close: Some(1) }
    ));
    assert!(gui.window(2).is_none());
    assert!(matches!(gui.close_requested(1), CloseAction::Exit));
}

#[test]
fn deleting_the_seed_being_closed_closes_only_it() {
    let mut gui = gui_with_seed(1);
    assert!(matches!(gui.answer(2, 2, Answer::Delete), AnswerAction::Close { window: 2, then_close: None }));
    assert!(gui.window(2).is_none());
    assert!(gui.window(1).is_some());
}

#[test]
fn saved_seed_window_closes_directly() {
    let mut gui = gui_with_seed(2);
    gui.mark_patches_saved(2);
    gui.mark_spoiler_saved(2);
    assert!(matches!(gui.close_requested(2), CloseAction::Close(2)));
    assert!(gui.window(2).is_none());
}

#[test]
fn generation_progress_and_failure() {
    let mut gui = TestGui::new();
    gui.start_generation(5);
    match gui.window(5) {
        Some(WindowState::Generator { progress, display }) => {
            assert_eq!(*progress, (0, 12));
            assert_eq!(display, "Starting seed generator");
        },
        _ => panic!("expected a generator window"),
    }
    assert_eq!(gui.title(5), "Generating Seed\u{2026}");
    assert!(gui.show_progress(5, (3, 12), String::from("Randomizing: attempt 3 of 10")));
    assert!(!gui.show_progress(6, (3, 12), String::from("elsewhere")));
    gui.generation_failed(5, String::from("no seed"));
    assert!(matches!(gui.window(5), Some(WindowState::RollError(e)) if e == "no seed"));
    assert_eq!(gui.title(5), "Seed Error");
    assert!(!gui.show_progress(5, (4, 12), String::from("too late")));
    assert!(matches!(gui.close_requested(5), CloseAction::Close(5)));
}

#[test]
fn seed_window_contents() {
    let gui = gui_with_seed(2);
    match gui.window(2) {
        Some(WindowState::Seed(s)) => {
            assert_eq!(s.num_worlds(), 2);
            assert_eq!(s.seed().spoiler_log, "{}");
        },
        _ => panic!("expected a seed window"),
    }
    assert_eq!(gui.title(2), "Seed");
    assert_eq!(gui.title(1), "OoT Randomizer");
}

#[test]
fn command_errors_need_a_main_window() {
    let mut gui = TestGui::new();
    assert!(gui.command_error(String::from("boom")));
    assert_eq!(gui.error().map(|e| e.as_str()), Some("boom"));
    gui.open_window(1, WindowState::Main);
    assert!(!gui.command_error(String::from("again")));
    gui.dismiss_error();
    assert!(gui.error().is_none());
}

#[test]
fn preset_windows() {
    let mut gui = TestGui::new();
    gui.open_window(1, WindowState::Main);
    let name = String::from("Mine");
    assert_eq!(gui.preset_window(&name), None);
    gui.open_window(3, WindowState::Preset { preset_name: name.clone(), active_tab: String::from("main_tab") });
    assert_eq!(gui.preset_window(&name), Some(3));
    assert_eq!(gui.preset_being_edited(3), Some(&name));
    assert_eq!(gui.preset_being_edited(1), None);
    assert_eq!(gui.title(3), "Mine");
    gui.set_settings_tab(3, String::from("other_tab"));
    match gui.window(3) {
        Some(WindowState::Preset { preset_name, active_tab }) => {
            assert_eq!(preset_name, "Mine");
            assert_eq!(active_tab, "other_tab");
        },
        _ => panic!("expected a preset window"),
    }
    gui.set_preset(name.clone());
    assert_eq!(gui.delete_preset(&name), Some(3));
    assert!(gui.window(3).is_none());
    assert_eq!(gui.selected_preset().map(|s| s.as_str()), Some("Default / Beginner"));
    assert_eq!(gui.delete_preset(&name), None);
}

#[test]
fn deleting_another_preset_keeps_the_selection() {
    let mut gui = TestGui::new();
    gui.set_preset(String::from("Kept"));
    assert_eq!(gui.delete_preset(&String::from("Other")), None);
    assert_eq!(gui.selected_preset().map(|s| s.as_str()), Some("Kept"));
    gui.customize_settings();
    assert!(gui.selected_preset().is_none());
}

#[test]
fn closing_a_preset_window_closes_it() {
    let mut gui = TestGui::new();
    gui.open_window(4, WindowState::Preset { preset_name: String::from("P"), active_tab: String::from("t") });
    assert!(matches!(gui.close_requested(4), CloseAction::Close(4)));
    assert!(gui.window(4).is_none());
}

#[test]
fn unsaved_patch_descriptions() {
    let gui = gui_with_seed(3);
    assert_eq!(gui.save_patches_description(2, &vec![1, 2, 3]), "Do you want to keep this seed?");
    assert_eq!(
        gui.save_patches_description(2, &vec![2]),
        "Do you want to keep this seed? You haven't saved world 2."
    );
    assert_eq!(
        gui.save_patches_description(2, &vec![1, 3]),
        "Do you want to keep this seed? You haven't saved worlds 1 and 3."
    );
    assert_eq!(
        gui.save_patches_description(9, &vec![1, 2, 3]),
        "Do you want to keep this seed? You haven't saved worlds 1, 2, and 3."
    );
}

#[test]
fn generation_settings() {
    let mut gui = TestGui::new();
    let rom = RomPath::Unicode(String::from("/roms/oot.z64"));
    let none = RomPath::Unicode(String::new());
    assert_eq!(
        gui.generate_overrides(&rom, &none),
        Ok(vec![(String::from("language"), String::from("english")), (String::from("rom"), String::from("/roms/oot.z64"))])
    );
    assert_eq!(gui.generate_overrides(&none, &RomPath::NotUnicode), Ok(vec![(String::from("language"), String::from("english"))]));
    assert_eq!(gui.generate_overrides(&RomPath::NotUnicode, &none), Err(PathError::NotUnicode));
    gui.set_language(Language::German);
    assert_eq!(
        gui.generate_overrides(&rom, &RomPath::Unicode(String::from("/roms/pal.z64"))),
        Ok(vec![
            (String::from("language"), String::from("german")),
            (String::from("rom"), String::from("/roms/oot.z64")),
            (String::from("pal_rom"), String::from("/roms/pal.z64")),
        ])
    );
    assert_eq!(gui.generate_overrides(&rom, &RomPath::NotUnicode), Err(PathError::NotUnicode));
}

#[test]
fn generate_button_reasons() {
    let mut gui = TestGui::new();
    let rom = RomPath::Unicode(String::from("/roms/oot.z64"));
    let none = RomPath::Unicode(String::new());
    assert_eq!(gui.generate_disable_reason(&none, false, &none, false), Some("Please load a base rom"));
    assert_eq!(gui.generate_disable_reason(&none, true, &none, false), None);
    assert_eq!(gui.generate_disable_reason(&rom, false, &none, false), None);
    assert_eq!(gui.base_rom_label(), "Base rom:");
    gui.set_language(Language::French);
    assert_eq!(gui.generate_disable_reason(&rom, false, &none, false), Some("Please load a PAL base rom"));
    assert_eq!(gui.generate_disable_reason(&rom, false, &none, true), None);
    assert_eq!(gui.generate_disable_reason(&rom, false, &RomPath::NotUnicode, false), None);
    assert_eq!(gui.base_rom_label(), "Base rom (NTSC):");
}

#[test]
fn names_and_labels() {
    assert_eq!(copy_name(1, "Tournament"), "Copy of Tournament");
    assert_eq!(copy_name(2, "Tournament"), "Copy 2 of Tournament");
    assert_eq!(copy_name(12, "S7"), "Copy 12 of S7");
    assert_eq!(archive_entry_name(0), "P1");
    assert_eq!(archive_entry_name(14), "P15");
    assert_eq!(patch_file_filter(1), ("Ocarina of Time randomizer patch file", "zpf"));
    assert_eq!(patch_file_filter(2), ("Ocarina of Time randomizer patch file archive", "zpfz"));
    assert_eq!(save_patches_label(1), "Save patch file");
    assert_eq!(save_patches_label(3), "Save patch file archive");
    assert_eq!(rom_placeholder(true), "Using cached rom");
    assert_eq!(rom_placeholder(false), "Required");
}

#[test]
fn themes_from_color_scheme() {
    assert_eq!(theme_from_color_scheme(&String::from("prefer-dark")), Some(Theme::Dark));
    assert_eq!(theme_from_color_scheme(&String::from("prefer-light")), Some(Theme::Light));
    assert_eq!(theme_from_color_scheme(&String::from("default")), None);
}

#[test]
fn shown_settings_tabs() {
    let generator = vec![String::from("generator")];
    assert!(tab_shown(&String::from("main_tab"), false, false, &generator));
    assert!(tab_shown(&String::from("main_tab"), false, false, &vec![]));
    assert!(!tab_shown(&String::from("general_tab"), false, false, &generator));
    assert!(!tab_shown(&String::from("main_tab"), true, false, &generator));
    assert!(!tab_shown(&String::from("main_tab"), false, true, &generator));
    assert!(!tab_shown(&String::from("main_tab"), false, false, &vec![String::from("generator"), String::from("patcher")]));
}

#[test]
fn custom_preset_file_names() {
    let chars = |s: &str| s.chars().collect::<Vec<char>>();
    let text = |v: Vec<char>| v.into_iter().collect::<String>();
    assert_eq!(text(custom_preset_file_name(&chars("S7/Tournament"))), "S7_Tournament.custom.json");
    assert_eq!(preset_name_from_file(&chars("S7_Tournament.custom.json")).map(text), Some(String::from("S7/Tournament")));
    assert_eq!(preset_name_from_file(&chars(".custom.json")).map(text), Some(String::new()));
    assert_eq!(preset_name_from_file(&chars("presets_default.json")), None);
    assert_eq!(preset_name_from_file(&chars("json")), None);
}

#[test]
fn preset_questions_and_lookup() {
    assert_eq!(
        delete_preset_question("Mine"),
        "Are you sure you want to permanently delete the preset \u{201c}Mine\u{201d}?"
    );
    let mut gui = TestGui::new();
    let setting = |v: &str| vec![(String::from("s"), String::from(v))];
    gui.set_presets(
        vec![(String::from("Tournament"), setting("t")), (String::from("Beginner"), setting("b"))],
        vec![(String::from("Mine"), setting("m")), (String::from("Tournament"), setting("x"))],
    );
    assert_eq!(gui.preset_source(&String::from("Default / Beginner")), Some(PresetSource::Default));
    assert_eq!(gui.preset_source(&String::from("Tournament")), Some(PresetSource::Builtin(0)));
    assert_eq!(gui.preset_source(&String::from("Mine")), Some(PresetSource::Custom(0)));
    assert_eq!(gui.preset_source(&String::from("Nothing")), None);
    assert_eq!(gui.preset_at(PresetSource::Default), None);
    assert_eq!(gui.preset_at(PresetSource::Custom(0)), Some(&setting("m")));
}

#[test]
fn custom_presets_are_stored_and_deleted() {
    let mut gui = TestGui::new();
    let setting = |v: &str| vec![(String::from("s"), String::from(v))];
    gui.set_presets(vec![], vec![(String::from("Mine"), setting("m"))]);
    gui.add_custom_preset(String::from("Copy of Mine"), setting("m"));
    // the user's presets are kept in the order of names
    assert_eq!(gui.preset_source(&String::from("Copy of Mine")), Some(PresetSource::Custom(0)));
    assert_eq!(gui.preset_source(&String::from("Mine")), Some(PresetSource::Custom(1)));
    assert!(gui.update_custom_preset(&String::from("Mine"), setting("n")));
    assert_eq!(gui.preset_at(PresetSource::Custom(1)), Some(&setting("n")));
    assert!(!gui.update_custom_preset(&String::from("Absent"), setting("n")));
    gui.add_custom_preset(String::from("Mine"), setting("o"));
    assert_eq!(gui.preset_at(PresetSource::Custom(1)), Some(&setting("o")));
    gui.set_preset(String::from("Mine"));
    assert_eq!(gui.delete_preset(&String::from("Mine")), None);
    assert_eq!(gui.preset_source(&String::from("Mine")), None);
    assert_eq!(gui.preset_source(&String::from("Copy of Mine")), Some(PresetSource::Custom(0)));
    assert_eq!(gui.selected_preset().map(|s| s.as_str()), Some("Default / Beginner"));
}

#[test]
fn generation_starts_from_the_selected_preset() {
    let mut gui = TestGui::new();
    gui.set_presets(vec![(String::from("Beginner"), vec![])], vec![]);
    gui.set_preset(String::from("Beginner"));
    let rom = RomPath::Unicode(String::from("/r.z64"));
    let none = RomPath::Unicode(String::new());
    assert_eq!(
        gui.generate_settings(&rom, &none),
        Ok((PresetSource::Builtin(0), vec![(String::from("language"), String::from("english")), (String::from("rom"), String::from("/r.z64"))]))
    );
    assert_eq!(gui.generate_settings(&RomPath::NotUnicode, &none), Err(PathError::NotUnicode));
}

#[test]
fn marking_saved_continues_closing() {
    let mut gui = gui_with_seed(1);
    assert_eq!(gui.mark_patches_saved_and_continue_closing(1, 2), 1);
    assert_eq!(gui.mark_spoiler_saved_and_continue_closing(1, 2), 1);
    assert!(matches!(gui.close_requested(1), CloseAction::Exit));
}

#[test]
fn theme_falls_back_to_the_system() {
    let dark = String::from("prefer-dark");
    let light = String::from("prefer-light");
    let other = String::from("default");
    assert_eq!(choose_theme(Some(&dark), DetectedTheme::Light), Theme::Dark);
    assert_eq!(choose_theme(Some(&light), DetectedTheme::Dark), Theme::Light);
    assert_eq!(choose_theme(Some(&other), DetectedTheme::Dark), Theme::Dark);
    assert_eq!(choose_theme(None, DetectedTheme::Dark), Theme::Dark);
    assert_eq!(choose_theme(None, DetectedTheme::Unspecified), Theme::Light);
    assert_eq!(choose_theme(None, DetectedTheme::Failed), Theme::Light);
}

#[test]
fn presets_are_listed_default_builtin_then_own_by_name() {
    let mut gui = TestGui::new();
    gui.set_presets(vec![(String::from("Tournament"), vec![]), (String::from("Beginner"), vec![])], vec![]);
    gui.add_custom_preset(String::from("zeta"), vec![]);
    gui.add_custom_preset(String::from("Alpha"), vec![]);
    gui.add_custom_preset(String::from("Al"), vec![]);
    gui.add_custom_preset(String::from("beta"), vec![]);
    let listed: Vec<(String, bool)> = gui.list_presets();
    let expected = [
        ("Default / Beginner", false),
        ("Tournament", false),
        ("Beginner", false),
        ("Al", true),
        ("Alpha", true),
        ("beta", true),
        ("zeta", true),
    ];
    assert_eq!(listed.len(), expected.len());
    for ((name, own), (e_name, e_own)) in listed.iter().zip(expected.iter()) {
        assert_eq!(name, e_name);
        assert_eq!(own, e_own);
    }
}

#[test]
fn editing_a_setting_changes_only_that_setting() {
    let mut gui = TestGui::new();
    let mine = vec![(String::from("a"), String::from("1")), (String::from("b"), String::from("2"))];
    gui.set_presets(vec![(String::from("Beginner"), vec![])], vec![(String::from("Mine"), mine)]);
    gui.open_window(5, WindowState::Preset { preset_name: String::from("Mine"), active_tab: String::from("t") });
    gui.open_window(6, WindowState::Preset { preset_name: String::from("Gone"), active_tab: String::from("t") });
    assert!(gui.edit_preset_setting(5, String::from("b"), String::from("3")));
    assert!(gui.edit_preset_setting(5, String::from("c"), String::from("4")));
    assert_eq!(
        gui.preset_at(PresetSource::Custom(0)),
        Some(&vec![
            (String::from("a"), String::from("1")),
            (String::from("b"), String::from("3")),
            (String::from("c"), String::from("4")),
        ])
    );
    // an editor of a preset that is gone, or no editor at all, changes nothing
    assert!(!gui.edit_preset_setting(6, String::from("a"), String::from("9")));
    assert!(!gui.edit_preset_setting(1, String::from("a"), String::from("9")));
    assert!(!gui.edit_preset_setting(42, String::from("a"), String::from("9")));
    assert_eq!(gui.preset_at(PresetSource::Custom(0)).map(|p| p.len()), Some(3));
}
