use ootr::lang::Language;
use ootr::translate::{chosen_arm, parse_translation, translate, NonEnglishLanguage, TranslateError, TranslationItem};

fn arm(name: &str) -> TranslationItem {
    TranslationItem::Arm(String::from(name))
}

#[test]
fn language_names() {
    assert_eq!(NonEnglishLanguage::from_name(&String::from("French")), Some(NonEnglishLanguage::French));
    assert_eq!(NonEnglishLanguage::from_name(&String::from("German")), Some(NonEnglishLanguage::German));
    assert_eq!(NonEnglishLanguage::from_name(&String::from("Spanish")), None);
    assert_eq!(NonEnglishLanguage::French.name(), "French");
    assert_eq!(NonEnglishLanguage::German.language(), Language::German);
}

#[test]
fn well_formed_translations() {
    let items = vec![arm("French"), TranslationItem::IfGuard, TranslationItem::LetGuard, arm("German"), arm("English")];
    assert_eq!(
        parse_translation(&items),
        Ok(vec![(NonEnglishLanguage::French, vec![]), (NonEnglishLanguage::German, vec![true, false])])
    );
    assert_eq!(parse_translation(&vec![arm("English")]), Ok(vec![]));
}

#[test]
fn malformed_translations() {
    assert_eq!(parse_translation(&vec![TranslationItem::IfGuard, arm("English")]), Err(TranslateError::EnglishGuards));
    assert_eq!(parse_translation(&vec![arm("English"), arm("French")]), Err(TranslateError::TrailingInput));
    assert_eq!(parse_translation(&vec![arm("Klingon"), arm("English")]), Err(TranslateError::UnknownLanguage));
    assert_eq!(
        parse_translation(&vec![arm("French"), arm("French"), arm("English")]),
        Err(TranslateError::DuplicateLanguage)
    );
    assert_eq!(parse_translation(&vec![TranslationItem::Other]), Err(TranslateError::Unexpected));
    assert_eq!(parse_translation(&vec![arm("French")]), Err(TranslateError::MissingEnglish));
}

#[test]
fn chosen_texts_fall_back_to_english() {
    let arms = vec![(NonEnglishLanguage::French, vec![]), (NonEnglishLanguage::German, vec![true, false])];
    assert_eq!(chosen_arm(&arms, Language::French, &vec![]), Some(0));
    assert_eq!(chosen_arm(&arms, Language::English, &vec![]), None);
    assert_eq!(chosen_arm(&arms, Language::German, &vec![true]), Some(1));
    assert_eq!(chosen_arm(&arms, Language::German, &vec![false]), None);
    assert_eq!(chosen_arm(&arms, Language::German, &vec![]), None);
    assert_eq!(chosen_arm(&vec![], Language::French, &vec![]), None);
}

#[test]
fn translated_text_for_each_language() {
    let items = vec![arm("French"), TranslationItem::IfGuard, arm("German"), arm("English")];
    assert_eq!(translate(&items, Language::French, &vec![]), Ok(Some(0)));
    assert_eq!(translate(&items, Language::German, &vec![true]), Ok(Some(1)));
    assert_eq!(translate(&items, Language::German, &vec![false]), Ok(None));
    assert_eq!(translate(&items, Language::English, &vec![]), Ok(None));
    assert_eq!(translate(&vec![arm("French")], Language::French, &vec![]), Err(TranslateError::MissingEnglish));
}
