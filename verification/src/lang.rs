//! User interface languages and the language-dependent ways of listing items.

use vstd::prelude::*;

verus! {

/// A language the user interface can be shown in.
#[derive(Debug, Clone, Copy, PartialEq, Eq, Structural)]
pub enum Language {
    English,
    French,
    German,
}

/// The value of the randomizer's `language` setting for a language.
pub open spec fn spec_setting_value(lang: Language) -> Seq<char> {
    match lang {
        Language::English => "english"@,
        Language::French => "french"@,
        Language::German => "german"@,
    }
}

impl Language {
    /// Whether generating a seed in this language needs a PAL base rom.
    pub fn requires_pal_rom(&self) -> (r: bool)
        ensures
            r == (*self != Language::English),
    {
        match self {
            Language::English => false,
            Language::French => true,
            Language::German => true,
        }
    }

    /// The value of the randomizer's `language` setting for this language.
    pub fn setting_value(&self) -> (s: &'static str)
        ensures
            s@ == spec_setting_value(*self),
    {
        match self {
            Language::English => "english",
            Language::French => "french",
            Language::German => "german",
        }
    }
}

/// The items, each preceded by `sep`, run together.
pub open spec fn prefixed(items: Seq<Seq<char>>, sep: Seq<char>) -> Seq<char>
    decreases items.len(),
{
    if items.len() == 0 {
        Seq::empty()
    } else {
        prefixed(items.drop_last(), sep) + sep + items.last()
    }
}

/// A list of items in prose: in English `a`, `a and b`, `a, b, and c`; in French `a`,
/// `a et b`, `a, b et c`; in German `a`, `a und b`, `a, b und c`.
pub open spec fn spec_join(lang: Language, items: Seq<Seq<char>>) -> Seq<char> {
    let n = items.len() as int;
    if n <= 1 {
        items[0]
    } else {
        match lang {
            Language::English => if n == 2 {
                items[0] + " and "@ + items[1]
            } else {
                items[0] + ", "@ + items[1] + prefixed(items.subrange(2, n - 1), ", "@) + ", and "@
                    + items[n - 1]
            },
            Language::French => items[0] + prefixed(items.subrange(1, n - 1), ", "@) + " et "@ + items[n
                - 1],
            Language::German => items[0] + prefixed(items.subrange(1, n - 1), ", "@) + " und "@ + items[n
                - 1],
        }
    }
}

/// The views of a list of strings.
pub open spec fn views(items: Seq<String>) -> Seq<Seq<char>> {
    items.map_values(|s: String| s@)
}

/// Appends `items[lo..hi]` to `out`, each preceded by `", "`.
fn append_prefixed(out: &mut String, items: &Vec<String>, lo: usize, hi: usize)
    requires
        lo <= hi <= items@.len(),
    ensures
        final(out)@ == old(out)@ + prefixed(views(items@).subrange(lo as int, hi as int), ", "@),
{
    let mut i = lo;
    while i < hi
        invariant
            lo <= i <= hi <= items@.len(),
            out@ == old(out)@ + prefixed(views(items@).subrange(lo as int, i as int), ", "@),
        decreases hi - i,
    {
        out.append(", ");
        out.append(items[i].as_str());
        proof {
            let s = views(items@).subrange(lo as int, i + 1);
            assert(s.drop_last() =~= views(items@).subrange(lo as int, i as int));
            assert(s.last() == items@[i as int]@);
            assert(out@ =~= old(out)@ + prefixed(s, ", "@));
        }
        i = i + 1;
    }
}

impl Language {
    /// Lists `elts` in prose in this language.
    pub fn join(&self, elts: &Vec<String>) -> (r: String)
        requires
            elts@.len() >= 1,
        ensures
            r@ == spec_join(*self, views(elts@)),
    {
        let n = elts.len();
        let mut out = String::from_str(elts[0].as_str());
        if n == 1 {
            return out;
        }
        match self {
            Language::English => {
                if n == 2 {
                    out.append(" and ");
                    out.append(elts[1].as_str());
                } else {
                    out.append(", ");
                    out.append(elts[1].as_str());
                    append_prefixed(&mut out, elts, 2, n - 1);
                    out.append(", and ");
                    out.append(elts[n - 1].as_str());
                }
            },
            Language::French => {
                append_prefixed(&mut out, elts, 1, n - 1);
                out.append(" et ");
                out.append(elts[n - 1].as_str());
            },
            Language::German => {
                append_prefixed(&mut out, elts, 1, n - 1);
                out.append(" und ");
                out.append(elts[n - 1].as_str());
            },
        }
        out
    }

    /// The name of this language, in this language.
    pub fn display_name(&self) -> (s: &'static str)
        ensures
            s@ == match *self {
                Language::English => "English"@,
                Language::French => "Fran\u{e7}ais"@,
                Language::German => "Deutsch"@,
            },
    {
        match self {
            Language::English => "English",
            Language::French => "Fran\u{e7}ais",
            Language::German => "Deutsch",
        }
    }

    /// Every language, in order.
    pub fn all() -> (r: Vec<Language>)
        ensures
            r@ == seq![Language::English, Language::French, Language::German],
    {
        let mut v: Vec<Language> = Vec::new();
        v.push(Language::English);
        v.push(Language::French);
        v.push(Language::German);
        proof {
            assert(v@ =~= seq![Language::English, Language::French, Language::German]);
        }
        v
    }
}

impl Default for Language {
    /// English.
    fn default() -> (r: Self)
        ensures
            r == Language::English,
    {
        Language::English
    }
}

} // verus!
