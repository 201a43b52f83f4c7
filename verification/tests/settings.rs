use accessibility_daemon::settings::{AppSettings, FontFace, SETTINGS_FILE};

#[test]
fn defaults_are_sans_with_the_furigana_filter_off() {
    let settings = AppSettings::default();
    assert_eq!(settings.overlay_font, FontFace::Sans);
    assert!(!settings.furigana_filter);
    assert_eq!(FontFace::default(), FontFace::Sans);
    assert_eq!(SETTINGS_FILE, "settings.json");
}

#[test]
fn face_names_read_back_and_unknown_names_are_sans() {
    assert_eq!(FontFace::from_name("serif"), FontFace::Serif);
    assert_eq!(FontFace::from_name("sans"), FontFace::Sans);
    assert_eq!(FontFace::from_name("comic"), FontFace::Sans);
    assert_eq!(FontFace::from_name("Serif"), FontFace::Sans);
    assert_eq!(FontFace::Serif.name(), "serif");
    assert_eq!(FontFace::from_name(&FontFace::Sans.name()), FontFace::Sans);
}
