//! The theme of the terminal that text is rendered for.

use vstd::prelude::*;

verus! {

/// Terminal theme mode (dark or light).
#[derive(Debug, Clone, Copy, PartialEq, Eq, Structural)]
pub enum ThemeMode {
    /// Dark terminal background.
    Dark,
    /// Light terminal background.
    Light,
}

/// The theme mode to render for, given what was found out about the terminal:
/// light where it was found to be light, and dark where it was found to be dark
/// or where nothing was found out.
pub fn theme_mode_or_dark(detected: Option<ThemeMode>) -> (mode: ThemeMode)
    ensures
        mode == (match detected {
            Some(found) => found,
            None => ThemeMode::Dark,
        }),
{
    match detected {
        Some(ThemeMode::Light) => ThemeMode::Light,
        Some(ThemeMode::Dark) | None => ThemeMode::Dark,
    }
}

} // verus!
