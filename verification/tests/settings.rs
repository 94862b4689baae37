use zenmanager::settings::{languages, Settings, Theme};

#[test]
fn defaults_are_auto_theme_and_system_language() {
    let settings = Settings::default();
    assert_eq!(settings.theme, Theme::Auto);
    assert_eq!(settings.language, "");
    assert_eq!(settings.language_index(), 0);
}

#[test]
fn settings_survive_a_save_and_load_round_trip() {
    let original = Settings {
        theme: Theme::Dark,
        language: "hr".into(),
    };

    let restored = Settings::parse(&original.serialise());

    assert_eq!(restored, original);
}

#[test]
fn an_unreadable_config_falls_back_to_defaults_rather_than_failing() {
    assert_eq!(Settings::parse("total nonsense"), Settings::default());
    assert_eq!(Settings::parse(""), Settings::default());
}

#[test]
fn unknown_keys_and_comments_are_ignored() {
    let settings = Settings::parse("# a comment\nfavourite=pizza\ntheme=light\n");

    assert_eq!(settings.theme, Theme::Light);
}

#[test]
fn an_unknown_theme_value_falls_back_to_auto() {
    assert_eq!(Settings::parse("theme=chartreuse").theme, Theme::Auto);
}

#[test]
fn theme_codes_round_trip_through_the_ui_representation() {
    for theme in [Theme::Auto, Theme::Light, Theme::Dark] {
        assert_eq!(Theme::from_code(theme.code()), theme);
    }
    // Anything the UI could not produce is treated as auto.
    assert_eq!(Theme::from_code(99), Theme::Auto);
}

#[test]
fn language_index_maps_both_ways() {
    let settings = Settings {
        language: "hr".into(),
        ..Default::default()
    };
    let index = settings.language_index();

    assert_eq!(Settings::language_from_index(index), "hr");
    assert_eq!(Settings::language_from_index(0), "");
    // Out of range cannot panic; the picker is driven by this same list.
    assert_eq!(Settings::language_from_index(999), "");
}

#[test]
fn a_language_no_longer_shipped_falls_back_to_system_default() {
    let settings = Settings {
        language: "tlh".into(),
        ..Default::default()
    };

    assert_eq!(settings.language_index(), 0);
}

#[test]
fn every_theme_round_trips_through_the_file() {
    for theme in [Theme::Auto, Theme::Light, Theme::Dark] {
        for language in ["", "en", "hr", "pt-BR"] {
            let original = Settings { theme, language: language.into() };
            assert_eq!(Settings::parse(&original.serialise()), original);
        }
    }
}

#[test]
fn the_saved_text_is_one_line_per_key() {
    let settings = Settings { theme: Theme::Light, language: "en".into() };
    assert_eq!(settings.serialise(), "theme=light\nlanguage=en\n");
}

#[test]
fn whitespace_crlf_and_later_lines_are_handled() {
    let s = Settings::parse("  theme = dark \r\nlanguage=  hr\r\n\n theme=light\nlanguage x\n=dark\n");
    assert_eq!(s.theme, Theme::Light);
    assert_eq!(s.language, "hr");
    let s = Settings::parse("language=a=b");
    assert_eq!(s.language, "a=b");
    let s = Settings::parse("#theme=dark");
    assert_eq!(s.theme, Theme::Auto);
}

#[test]
fn theme_names_and_codes() {
    assert_eq!(Theme::Dark.as_str(), "dark");
    assert_eq!(Theme::parse("light"), Theme::Light);
    assert_eq!(Theme::parse("Light"), Theme::Auto);
    assert_eq!(Theme::Light.code(), 1);
    assert_eq!(Theme::from_code(-1), Theme::Auto);
    assert_eq!(Theme::default(), Theme::Auto);
}

#[test]
fn negative_picker_indices_read_as_system_default() {
    assert_eq!(Settings::language_from_index(-3), "");
    assert_eq!(Settings::language_from_index(1), "en");
    let all = languages();
    assert_eq!(all.len(), 3);
    assert_eq!(all[2].code, "hr");
    assert_eq!(all[2].name, "Hrvatski");
    let en = Settings { language: "en".into(), ..Default::default() };
    assert_eq!(en.language_index(), 1);
}
