//! The grammar of translated texts: an arm for each language other than English, each after
//! the guards that must hold for it, and a final English arm that every other language falls
//! back to.

use vstd::prelude::*;
use crate::lang::Language;

verus! {

/// A language other than English that a text can be translated into.
#[derive(Debug, Clone, Copy, PartialEq, Eq, Structural)]
pub enum NonEnglishLanguage {
    French,
    German,
}

/// The language named `name`, if it is one a text can be translated into.
pub open spec fn language_named(name: Seq<char>) -> Option<NonEnglishLanguage> {
    if name == "French"@ {
        Some(NonEnglishLanguage::French)
    } else if name == "German"@ {
        Some(NonEnglishLanguage::German)
    } else {
        None
    }
}

impl NonEnglishLanguage {
    /// The language named `name` (`French` or `German`), if any.
    pub fn from_name(name: &String) -> (r: Option<NonEnglishLanguage>)
        ensures
            r == language_named(name@),
    {
        if *name == String::from_str("French") {
            Some(NonEnglishLanguage::French)
        } else if *name == String::from_str("German") {
            Some(NonEnglishLanguage::German)
        } else {
            None
        }
    }

    /// The name of the language.
    pub fn name(&self) -> (r: &'static str)
        ensures
            language_named(r@) == Some(*self),
    {
        proof {
            reveal_strlit("French");
            reveal_strlit("German");
            assert("French"@[0] != "German"@[0]);
        }
        match self {
            NonEnglishLanguage::French => "French",
            NonEnglishLanguage::German => "German",
        }
    }

    /// The interface language this is.
    pub fn language(&self) -> (r: Language)
        ensures
            r == match *self {
                NonEnglishLanguage::French => Language::French,
                NonEnglishLanguage::German => Language::German,
            },
    {
        match self {
            NonEnglishLanguage::French => Language::French,
            NonEnglishLanguage::German => Language::German,
        }
    }
}

/// One item of a translated text.
pub enum TranslationItem {
    /// `if <condition>;`: the next arm is used only if the condition holds.
    IfGuard,
    /// `let <pattern> = <value>;`: binds names for the next arm.
    LetGuard,
    /// `<language> => <text>;`
    Arm(String),
    /// Anything else.
    Other,
}

/// Why a translated text is not well formed.
#[derive(Debug, Clone, Copy, PartialEq, Eq, Structural)]
pub enum TranslateError {
    /// The English arm follows guards.
    EnglishGuards,
    /// Something follows the English arm.
    TrailingInput,
    /// An arm names no known language.
    UnknownLanguage,
    /// Two arms name the same language.
    DuplicateLanguage,
    /// An item is neither a guard nor an arm.
    Unexpected,
    /// There is no English arm.
    MissingEnglish,
}

/// An arm of a translated text: its language, and the kind of each of its guards (`true` for
/// `if`).
pub type ArmSpec = (NonEnglishLanguage, Seq<bool>);

/// Whether one of `arms` is for `l`.
pub open spec fn has_arm(arms: Seq<ArmSpec>, l: NonEnglishLanguage) -> bool {
    exists|k: int| 0 <= k < arms.len() && (#[trigger] arms[k]).0 == l
}

/// The arms of a translated text read from item `i` on, after `arms` and with `guards` waiting
/// for the next arm.
pub open spec fn parse_from(items: Seq<TranslationItem>, i: int, arms: Seq<ArmSpec>, guards: Seq<bool>) -> Result<
    Seq<ArmSpec>,
    TranslateError,
>
    decreases items.len() - i,
{
    if i < 0 || i >= items.len() {
        Err(TranslateError::MissingEnglish)
    } else {
        match items[i] {
            TranslationItem::IfGuard => parse_from(items, i + 1, arms, guards.push(true)),
            TranslationItem::LetGuard => parse_from(items, i + 1, arms, guards.push(false)),
            TranslationItem::Arm(name) => if name@ == "English"@ {
                if guards.len() > 0 {
                    Err(TranslateError::EnglishGuards)
                } else if i + 1 < items.len() {
                    Err(TranslateError::TrailingInput)
                } else {
                    Ok(arms)
                }
            } else {
                match language_named(name@) {
                    None => Err(TranslateError::UnknownLanguage),
                    Some(l) => if has_arm(arms, l) {
                        Err(TranslateError::DuplicateLanguage)
                    } else {
                        parse_from(items, i + 1, arms.push((l, guards)), Seq::empty())
                    },
                }
            },
            TranslationItem::Other => Err(TranslateError::Unexpected),
        }
    }
}

/// The arms of a translated text, in order, each with its guards.
pub open spec fn spec_parse_translation(items: Seq<TranslationItem>) -> Result<Seq<ArmSpec>, TranslateError> {
    parse_from(items, 0, Seq::empty(), Seq::empty())
}

/// The views of arms.
pub open spec fn arm_views(v: Seq<(NonEnglishLanguage, Vec<bool>)>) -> Seq<ArmSpec> {
    v.map_values(|a: (NonEnglishLanguage, Vec<bool>)| (a.0, a.1@))
}

/// Whether one of `arms` is for `l`.
fn has_arm_for(arms: &Vec<(NonEnglishLanguage, Vec<bool>)>, l: NonEnglishLanguage) -> (r: bool)
    ensures
        r == has_arm(arm_views(arms@), l),
{
    let ghost av = arm_views(arms@);
    let mut k: usize = 0;
    while k < arms.len()
        invariant
            k <= arms@.len(),
            av == arm_views(arms@),
            forall|m: int| 0 <= m < k ==> (#[trigger] av[m]).0 != l,
        decreases arms@.len() - k,
    {
        if arms[k].0 == l {
            proof {
                assert(av[k as int].0 == l);
            }
            return true;
        }
        k = k + 1;
    }
    false
}

/// Reads the arms of a translated text: the guards before each arm belong to it, and the text
/// ends with an English arm without guards.
pub fn parse_translation(items: &Vec<TranslationItem>) -> (r: Result<Vec<(NonEnglishLanguage, Vec<bool>)>, TranslateError>)
    ensures
        r matches Ok(arms) ==> spec_parse_translation(items@) == Ok::<Seq<ArmSpec>, TranslateError>(arm_views(arms@)),
        r matches Err(e) ==> spec_parse_translation(items@) == Err::<Seq<ArmSpec>, TranslateError>(e),
{
    let english = String::from_str("English");
    let mut arms: Vec<(NonEnglishLanguage, Vec<bool>)> = Vec::new();
    let mut guards: Vec<bool> = Vec::new();
    let mut i: usize = 0;
    proof {
        assert(arm_views(arms@) =~= Seq::<ArmSpec>::empty());
        assert(guards@ =~= Seq::<bool>::empty());
    }
    while i < items.len()
        invariant
            i <= items@.len(),
            english@ == "English"@,
            parse_from(items@, i as int, arm_views(arms@), guards@) == spec_parse_translation(items@),
        decreases items@.len() - i,
    {
        match &items[i] {
            TranslationItem::IfGuard => {
                guards.push(true);
            },
            TranslationItem::LetGuard => {
                guards.push(false);
            },
            TranslationItem::Arm(name) => {
                if *name == english {
                    if guards.len() > 0 {
                        return Err(TranslateError::EnglishGuards);
                    }
                    if i + 1 < items.len() {
                        return Err(TranslateError::TrailingInput);
                    }
                    return Ok(arms);
                }
                match NonEnglishLanguage::from_name(name) {
                    None => {
                        return Err(TranslateError::UnknownLanguage);
                    },
                    Some(l) => {
                        if has_arm_for(&arms, l) {
                            return Err(TranslateError::DuplicateLanguage);
                        }
                        let ghost before = arm_views(arms@);
                        let g = guards;
                        let ghost gv = g@;
                        arms.push((l, g));
                        guards = Vec::new();
                        proof {
                            assert(arm_views(arms@) =~= before.push((l, gv)));
                            assert(guards@ =~= Seq::<bool>::empty());
                        }
                    },
                }
            },
            TranslationItem::Other => {
                return Err(TranslateError::Unexpected);
            },
        }
        i = i + 1;
    }
    Err(TranslateError::MissingEnglish)
}

/// The text shown in `lang`: the arm for it if there is one and its `if` guards all hold
/// (`holds` gives their outcomes, in order), and the English text otherwise.
pub open spec fn spec_chosen_arm(arms: Seq<ArmSpec>, lang: Language, holds: Seq<bool>) -> Option<int> {
    if exists|k: int| 0 <= k < arms.len() && (#[trigger] arms[k]).0.to_language() == lang {
        let k = choose|k: int| 0 <= k < arms.len() && (#[trigger] arms[k]).0.to_language() == lang;
        if guards_hold(arms[k].1, holds) {
            Some(k)
        } else {
            None
        }
    } else {
        None
    }
}

impl NonEnglishLanguage {
    /// The interface language this is.
    pub open spec fn to_language(self) -> Language {
        match self {
            NonEnglishLanguage::French => Language::French,
            NonEnglishLanguage::German => Language::German,
        }
    }
}

/// No two arms are for the same language.
pub open spec fn arms_distinct(arms: Seq<ArmSpec>) -> bool {
    forall|a: int, b: int| 0 <= a < b < arms.len() ==> arms[a].0 != arms[b].0
}

/// Whether every `if` guard among `guards` holds, where `holds` gives their outcomes in order.
pub open spec fn guards_hold(guards: Seq<bool>, holds: Seq<bool>) -> bool {
    forall|g: int| 0 <= g < guards.len() && #[trigger] guards[g] ==> g < holds.len() && holds[g]
}

fn all_guards_hold(guards: &Vec<bool>, holds: &Vec<bool>) -> (r: bool)
    ensures
        r == guards_hold(guards@, holds@),
{
    let mut g: usize = 0;
    while g < guards.len()
        invariant
            g <= guards@.len(),
            forall|m: int| 0 <= m < g && #[trigger] guards@[m] ==> m < holds@.len() && holds@[m],
        decreases guards@.len() - g,
    {
        if guards[g] && !(g < holds.len() && holds[g]) {
            return false;
        }
        g = g + 1;
    }
    true
}

/// The arm whose text is shown in `lang`, or `None` for the English text: the arm for `lang`
/// if its `if` guards all hold, where `holds` gives their outcomes in order.
pub fn chosen_arm(arms: &Vec<(NonEnglishLanguage, Vec<bool>)>, lang: Language, holds: &Vec<bool>) -> (r: Option<usize>)
    requires
        arms_distinct(arm_views(arms@)),
    ensures
        r matches Some(k) ==> spec_chosen_arm(arm_views(arms@), lang, holds@) == Some(k as int),
        r is None <==> spec_chosen_arm(arm_views(arms@), lang, holds@) is None,
{
    let ghost av = arm_views(arms@);
    let mut k: usize = 0;
    while k < arms.len()
        invariant
            k <= arms@.len(),
            av == arm_views(arms@),
            forall|m: int| 0 <= m < k ==> (#[trigger] av[m]).0.to_language() != lang,
        ensures
            k <= arms@.len(),
            forall|m: int| 0 <= m < k ==> (#[trigger] av[m]).0.to_language() != lang,
            k < arms@.len() ==> av[k as int].0.to_language() == lang,
        decreases arms@.len() - k,
    {
        if arms[k].0.language() == lang {
            break;
        }
        k = k + 1;
    }
    if k == arms.len() {
        return None;
    }
    proof {
        assert(av[k as int].0.to_language() == lang);
        let c = choose|c: int| 0 <= c < av.len() && (#[trigger] av[c]).0.to_language() == lang;
        if c < k {
            assert(false);
        } else if c > k {
            assert(av[k as int].0 != av[c].0);
        }
        assert(av[k as int].1 == arms@[k as int].1@);
    }
    if all_guards_hold(&arms[k].1, holds) {
        Some(k)
    } else {
        None
    }
}

/// The arms read from a well-formed translated text name each language at most once, so each
/// language's text is well defined.
pub proof fn law_parsed_arms_distinct(items: Seq<TranslationItem>)
    ensures
        spec_parse_translation(items) matches Ok(arms) ==> arms_distinct(arms),
{
    lemma_parse_from_distinct(items, 0, Seq::empty(), Seq::empty());
}

proof fn lemma_parse_from_distinct(items: Seq<TranslationItem>, i: int, arms: Seq<ArmSpec>, guards: Seq<bool>)
    requires
        arms_distinct(arms),
    ensures
        parse_from(items, i, arms, guards) matches Ok(out) ==> arms_distinct(out),
    decreases items.len() - i,
{
    if 0 <= i < items.len() {
        match items[i] {
            TranslationItem::IfGuard => lemma_parse_from_distinct(items, i + 1, arms, guards.push(true)),
            TranslationItem::LetGuard => lemma_parse_from_distinct(items, i + 1, arms, guards.push(false)),
            TranslationItem::Arm(name) => {
                if name@ != "English"@ {
                    match language_named(name@) {
                        Some(l) => {
                            if !has_arm(arms, l) {
                                let next = arms.push((l, guards));
                                assert forall|a: int, b: int| 0 <= a < b < next.len() implies next[a].0 != next[b].0 by {
                                    if b == arms.len() {
                                        assert(next[a] == arms[a]);
                                        if arms[a].0 == l {
                                            assert(has_arm(arms, l));
                                        }
                                    } else {
                                        assert(next[a] == arms[a]);
                                        assert(next[b] == arms[b]);
                                    }
                                }
                                lemma_parse_from_distinct(items, i + 1, next, Seq::empty());
                            }
                        },
                        None => {},
                    }
                }
            },
            TranslationItem::Other => {},
        }
    }
}

/// A language without an arm of its own is shown the English text.
pub proof fn law_fallback_to_english(arms: Seq<ArmSpec>, lang: Language, holds: Seq<bool>)
    requires
        forall|k: int| 0 <= k < arms.len() ==> (#[trigger] arms[k]).0.to_language() != lang,
    ensures
        spec_chosen_arm(arms, lang, holds) is None,
{
}

/// The order of the arms does not matter: two arm lists with the same arms, each naming every
/// language at most once, show every language the same arm (or both the English text).
pub proof fn law_arm_order_irrelevant(arms1: Seq<ArmSpec>, arms2: Seq<ArmSpec>, lang: Language, holds: Seq<bool>)
    requires
        arms_distinct(arms1),
        arms_distinct(arms2),
        forall|a: ArmSpec| arms1.contains(a) <==> arms2.contains(a),
    ensures
        match (spec_chosen_arm(arms1, lang, holds), spec_chosen_arm(arms2, lang, holds)) {
            (Some(k1), Some(k2)) => arms1[k1] == arms2[k2],
            (None, None) => true,
            _ => false,
        },
{
    lemma_same_arm_for(arms1, arms2, lang);
    lemma_same_arm_for(arms2, arms1, lang);
}

proof fn lemma_same_arm_for(arms1: Seq<ArmSpec>, arms2: Seq<ArmSpec>, lang: Language)
    requires
        arms_distinct(arms2),
        forall|a: ArmSpec| arms1.contains(a) <==> arms2.contains(a),
    ensures
        (exists|k: int| 0 <= k < arms1.len() && (#[trigger] arms1[k]).0.to_language() == lang) ==> {
            &&& exists|k: int| 0 <= k < arms2.len() && (#[trigger] arms2[k]).0.to_language() == lang
            &&& arms1[choose|k: int| 0 <= k < arms1.len() && (#[trigger] arms1[k]).0.to_language() == lang]
                == arms2[choose|k: int| 0 <= k < arms2.len() && (#[trigger] arms2[k]).0.to_language() == lang]
        },
{
    if exists|k: int| 0 <= k < arms1.len() && (#[trigger] arms1[k]).0.to_language() == lang {
        let k1 = choose|k: int| 0 <= k < arms1.len() && (#[trigger] arms1[k]).0.to_language() == lang;
        assert(arms1.contains(arms1[k1]));
        assert(arms2.contains(arms1[k1]));
        let j = choose|j: int| 0 <= j < arms2.len() && arms2[j] == arms1[k1];
        assert(arms2[j].0.to_language() == lang);
        let k2 = choose|k: int| 0 <= k < arms2.len() && (#[trigger] arms2[k]).0.to_language() == lang;
        if k2 != j {
            assert(arms2[k2].0 == arms2[j].0) by {
                assert(arms2[k2].0.to_language() == arms2[j].0.to_language());
            }
            if k2 < j {
                assert(arms2[k2].0 != arms2[j].0);
            } else {
                assert(arms2[j].0 != arms2[k2].0);
            }
        }
    }
}

/// An arm with an `if` guard that does not hold (its outcome is `false`, or missing) is never
/// shown: its language sees the English text.
pub proof fn law_failed_guard_shows_english(arms: Seq<ArmSpec>, lang: Language, holds: Seq<bool>, k: int, g: int)
    requires
        arms_distinct(arms),
        0 <= k < arms.len(),
        arms[k].0.to_language() == lang,
        0 <= g < arms[k].1.len(),
        arms[k].1[g],
        !(g < holds.len() && holds[g]),
    ensures
        spec_chosen_arm(arms, lang, holds) is None,
{
    assert(arms[k].0.to_language() == lang);
    let c = choose|c: int| 0 <= c < arms.len() && (#[trigger] arms[c]).0.to_language() == lang;
    if c != k {
        assert(arms[c].0 == arms[k].0);
        if c < k {
            assert(arms[c].0 != arms[k].0);
        } else {
            assert(arms[k].0 != arms[c].0);
        }
    }
    assert(arms[k].1[g]);
}

/// An arm whose `if` guards all hold is shown in its language.
pub proof fn law_holding_guards_show_arm(arms: Seq<ArmSpec>, lang: Language, holds: Seq<bool>, k: int)
    requires
        arms_distinct(arms),
        0 <= k < arms.len(),
        arms[k].0.to_language() == lang,
        forall|g: int| 0 <= g < arms[k].1.len() && #[trigger] arms[k].1[g] ==> g < holds.len() && holds[g],
    ensures
        spec_chosen_arm(arms, lang, holds) == Some(k),
{
    assert(arms[k].0.to_language() == lang);
    let c = choose|c: int| 0 <= c < arms.len() && (#[trigger] arms[c]).0.to_language() == lang;
    if c != k {
        assert(arms[c].0 == arms[k].0);
        if c < k {
            assert(arms[c].0 != arms[k].0);
        } else {
            assert(arms[k].0 != arms[c].0);
        }
    }
    assert forall|g: int| 0 <= g < arms[k].1.len() && #[trigger] arms[k].1[g] implies g < holds.len() && holds[g] by {}
    assert(guards_hold(arms[k].1, holds));
}

/// Which text a translated text shows in `lang`: the index of the arm whose text it is, or
/// `None` for the English text; `holds` gives the outcomes of that arm's `if` guards in order.
/// Fails if the translated text is not well formed.
pub fn translate(items: &Vec<TranslationItem>, lang: Language, holds: &Vec<bool>) -> (r: Result<Option<usize>, TranslateError>)
    ensures
        match spec_parse_translation(items@) {
            Err(e) => r == Err::<Option<usize>, TranslateError>(e),
            Ok(arms) => match spec_chosen_arm(arms, lang, holds@) {
                Some(k) => r == Ok::<Option<usize>, TranslateError>(Some(k as usize)),
                None => r == Ok::<Option<usize>, TranslateError>(None),
            },
        },
{
    let arms = match parse_translation(items) {
        Ok(arms) => arms,
        Err(e) => {
            return Err(e);
        },
    };
    proof {
        law_parsed_arms_distinct(items@);
    }
    Ok(chosen_arm(&arms, lang, holds))
}

} // verus!
