//! Display languages and their two-letter codes.

use vstd::prelude::*;
use crate::text::str_eq;

verus! {

/// A display language of the app.
#[derive(Clone, Copy, Debug, PartialEq, Eq, Structural)]
pub enum Lang {
    En,
    Ja,
}

/// The locale identifiers of the message catalogue.
#[allow(non_camel_case_types)]
#[derive(Clone, Copy, Debug, PartialEq, Eq, Structural)]
pub enum Locale {
    en,
    ja,
}

/// The code of a language, as it appears in a URL (`lang=..`).
pub open spec fn lang_code(lang: Lang) -> Seq<char> {
    match lang {
        Lang::En => seq!['e', 'n'],
        Lang::Ja => seq!['j', 'a'],
    }
}

/// The language whose code is `s`, if any.
pub open spec fn lang_of_code(s: Seq<char>) -> Option<Lang> {
    if s == lang_code(Lang::En) {
        Some(Lang::En)
    } else if s == lang_code(Lang::Ja) {
        Some(Lang::Ja)
    } else {
        None
    }
}

pub open spec fn lang_to_locale(lang: Lang) -> Locale {
    match lang {
        Lang::En => Locale::en,
        Lang::Ja => Locale::ja,
    }
}

pub open spec fn locale_to_lang(locale: Locale) -> Lang {
    match locale {
        Locale::en => Lang::En,
        Locale::ja => Lang::Ja,
    }
}

impl Lang {
    /// Every language, in display order.
    pub fn all() -> (r: [Lang; 2])
        ensures
            r@ == seq![Lang::En, Lang::Ja],
    {
        [Lang::En, Lang::Ja]
    }

    /// The language used when none is chosen.
    pub fn default_lang() -> (r: Lang)
        ensures
            r == Lang::En,
    {
        Lang::En
    }

    /// The two-letter code of the language.
    pub fn as_str(self) -> (r: &'static str)
        ensures
            r@ == lang_code(self),
    {
        match self {
            Lang::En => {
                let s = "en";
                proof {
                    reveal_strlit("en");
                }
                assert(s@ =~= lang_code(self));
                s
            },
            Lang::Ja => {
                let s = "ja";
                proof {
                    reveal_strlit("ja");
                }
                assert(s@ =~= lang_code(self));
                s
            },
        }
    }

    /// Reads a two-letter code; `Err(())` on any other text.
    pub fn from_code(s: &str) -> (r: Result<Lang, ()>)
        ensures
            r matches Ok(l) ==> lang_of_code(s@) == Some(l),
            r is Err <==> lang_of_code(s@) is None,
    {
        if str_eq(s, Lang::En.as_str()) {
            Ok(Lang::En)
        } else if str_eq(s, Lang::Ja.as_str()) {
            Ok(Lang::Ja)
        } else {
            Err(())
        }
    }

    /// The locale of the message catalogue for this language.
    pub fn to_locale(self) -> (r: Locale)
        ensures
            r == lang_to_locale(self),
    {
        match self {
            Lang::En => Locale::en,
            Lang::Ja => Locale::ja,
        }
    }

    /// The language of a catalogue locale.
    pub fn from_locale(locale: Locale) -> (r: Lang)
        ensures
            r == locale_to_lang(locale),
    {
        match locale {
            Locale::en => Lang::En,
            Locale::ja => Lang::Ja,
        }
    }
}

impl std::str::FromStr for Lang {
    type Err = ();

    fn from_str(s: &str) -> (r: Result<Lang, ()>)
        ensures
            r matches Ok(l) ==> lang_of_code(s@) == Some(l),
            r is Err <==> lang_of_code(s@) is None,
    {
        Lang::from_code(s)
    }
}

impl From<Locale> for Lang {
    fn from(locale: Locale) -> (r: Lang) {
        Lang::from_locale(locale)
    }
}

impl vstd::std_specs::convert::FromSpecImpl<Locale> for Lang {
    open spec fn obeys_from_spec() -> bool {
        true
    }

    open spec fn from_spec(locale: Locale) -> Lang {
        locale_to_lang(locale)
    }
}

impl From<Lang> for Locale {
    fn from(lang: Lang) -> (r: Locale) {
        lang.to_locale()
    }
}

impl vstd::std_specs::convert::FromSpecImpl<Lang> for Locale {
    open spec fn obeys_from_spec() -> bool {
        true
    }

    open spec fn from_spec(lang: Lang) -> Locale {
        lang_to_locale(lang)
    }
}

/// Reading back the code of a language gives the language.
pub proof fn lemma_code_round_trip(lang: Lang)
    ensures
        lang_of_code(lang_code(lang)) == Some(lang),
{
    assert(lang_code(Lang::En) != lang_code(Lang::Ja)) by {
        assert(lang_code(Lang::En)[0] != lang_code(Lang::Ja)[0]);
    }
}

/// Going to the catalogue locale and back gives the same language, and the
/// other way round.
pub proof fn lemma_locale_round_trip(lang: Lang, locale: Locale)
    ensures
        locale_to_lang(lang_to_locale(lang)) == lang,
        lang_to_locale(locale_to_lang(locale)) == locale,
{
}

} // verus!
