//! The light and dark colour themes and the button that switches them.

use vstd::prelude::*;
use vstd::string::*;

use crate::text::same_text;

verus! {

/// The theme the system asks for: dark when it prefers a dark colour scheme.
pub open spec fn system_theme_spec(prefers_dark: bool) -> Seq<char> {
    if prefers_dark {
        "dark"@
    } else {
        "light"@
    }
}

/// The theme a click on the toggle switches to: light after dark, dark after
/// anything else.
pub open spec fn next_theme_spec(theme: Seq<char>) -> Seq<char> {
    if theme == "dark"@ {
        "light"@
    } else {
        "dark"@
    }
}

/// The theme named by the system's colour-scheme preference.
pub fn system_theme(prefers_dark: bool) -> (r: String)
    ensures
        r@ == system_theme_spec(prefers_dark),
{
    if prefers_dark {
        String::from_str("dark")
    } else {
        String::from_str("light")
    }
}

/// The theme that follows `theme` when the toggle is clicked.
pub fn next_theme(theme: &str) -> (r: String)
    ensures
        r@ == next_theme_spec(theme@),
{
    if same_text(theme, "dark") {
        String::from_str("light")
    } else {
        String::from_str("dark")
    }
}

/// Clicking the toggle twice brings back the theme one started from, when
/// that theme is light or dark.
pub proof fn lemma_toggle_twice(theme: Seq<char>)
    requires
        theme == "dark"@ || theme == "light"@,
    ensures
        next_theme_spec(next_theme_spec(theme)) == theme,
{
    reveal_strlit("dark");
    reveal_strlit("light");
    assert("dark"@.len() != "light"@.len());
}

/// A click leads to light exactly from dark; the system theme is dark
/// exactly when the system prefers a dark colour scheme.
pub proof fn lemma_theme_choice(theme: Seq<char>, prefers_dark: bool)
    ensures
        (next_theme_spec(theme) == "light"@) <==> theme == "dark"@,
        (next_theme_spec(theme) == "dark"@) <==> theme != "dark"@,
        (system_theme_spec(prefers_dark) == "dark"@) <==> prefers_dark,
        (system_theme_spec(prefers_dark) == "light"@) <==> !prefers_dark,
{
    reveal_strlit("dark");
    reveal_strlit("light");
    assert("dark"@.len() != "light"@.len());
}

/// Whatever theme is current, a click leads to light or dark, never back to
/// the same theme.
pub proof fn lemma_toggle_changes_theme(theme: Seq<char>)
    ensures
        next_theme_spec(theme) == "dark"@ || next_theme_spec(theme) == "light"@,
        next_theme_spec(theme) != theme,
{
    reveal_strlit("dark");
    reveal_strlit("light");
    assert("dark"@.len() != "light"@.len());
}

/// What the page shows for a theme: the root element's `data-theme`, and the
/// toggle's caption, `aria-pressed` and `aria-label`.
pub struct ThemeControls {
    pub root_theme: String,
    pub toggle_caption: String,
    pub aria_pressed: String,
    pub aria_label: String,
}

/// The page's attributes while `theme` is applied.
pub fn theme_controls(theme: &str) -> (r: ThemeControls)
    ensures
        r.root_theme@ == theme@,
        r.toggle_caption@ == if theme@ == "dark"@ {
            "Dark"@
        } else {
            "Light"@
        },
        r.aria_pressed@ == if theme@ == "dark"@ {
            "true"@
        } else {
            "false"@
        },
        r.aria_label@ == "Switch to "@ + next_theme_spec(theme@) + " theme"@,
{
    let dark = same_text(theme, "dark");
    let next = next_theme(theme);
    let mut aria_label = String::from_str("Switch to ");
    aria_label.append(next.as_str());
    aria_label.append(" theme");
    ThemeControls {
        root_theme: String::from_str(theme),
        toggle_caption: String::from_str(if dark { "Dark" } else { "Light" }),
        aria_pressed: String::from_str(if dark { "true" } else { "false" }),
        aria_label,
    }
}

} // verus!
