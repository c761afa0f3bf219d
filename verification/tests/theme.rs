use forge_core::theme::{theme_mode_or_dark, ThemeMode};

#[test]
fn light_terminal_is_light() {
    assert_eq!(theme_mode_or_dark(Some(ThemeMode::Light)), ThemeMode::Light);
}

#[test]
fn dark_terminal_is_dark() {
    assert_eq!(theme_mode_or_dark(Some(ThemeMode::Dark)), ThemeMode::Dark);
}

#[test]
fn unknown_terminal_is_dark() {
    assert_eq!(theme_mode_or_dark(None), ThemeMode::Dark);
}
