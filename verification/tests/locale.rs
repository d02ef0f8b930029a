use cumulo_web::locale::{Lang, Locale};

#[test]
fn code_round_trips() {
    for lang in Lang::all() {
        assert_eq!(lang.as_str().parse(), Ok(lang));
    }
}

#[test]
fn converts_through_i18n_locale() {
    for lang in Lang::all() {
        assert_eq!(Lang::from(Locale::from(lang)), lang);
    }
}

#[test]
fn lang_codes_are_two_letters() {
    assert_eq!(Lang::En.as_str(), "en");
    assert_eq!(Lang::Ja.as_str(), "ja");
    assert_eq!(Lang::default_lang(), Lang::En);
}

#[test]
fn unknown_lang_code_is_rejected() {
    assert_eq!("fr".parse::<Lang>(), Err(()));
    assert_eq!("".parse::<Lang>(), Err(()));
    assert_eq!("EN".parse::<Lang>(), Err(()));
}

#[test]
fn locale_maps_each_language() {
    assert_eq!(Locale::from(Lang::Ja), Locale::ja);
    assert_eq!(Lang::from(Locale::en), Lang::En);
}
