//! What the user can set about the window.

use vstd::prelude::*;

verus! {

/// Which appearance the window uses. `System` follows the desktop setting and
/// keeps following it when the user changes it.
#[derive(Debug, Clone, Copy, PartialEq, Eq, Structural)]
pub enum ThemePref {
    System,
    Light,
    Dark,
}

impl Default for ThemePref {
    fn default() -> (pref: ThemePref)
        ensures
            pref == ThemePref::System,
    {
        ThemePref::System
    }
}

impl ThemePref {
    /// The preference that the toggle button steps to.
    pub open spec fn spec_next(self) -> ThemePref {
        match self {
            ThemePref::System => ThemePref::Light,
            ThemePref::Light => ThemePref::Dark,
            ThemePref::Dark => ThemePref::System,
        }
    }

    /// Cycles in the order the toggle button steps through.
    pub fn next(self) -> (pref: ThemePref)
        ensures
            pref == self.spec_next(),
    {
        match self {
            ThemePref::System => ThemePref::Light,
            ThemePref::Light => ThemePref::Dark,
            ThemePref::Dark => ThemePref::System,
        }
    }

    /// A half-filled circle, a sun or a moon, and a word.
    pub fn label(self) -> (label: &'static str)
        ensures
            label@ == (match self {
                ThemePref::System => "\u{25d0} Auto"@,
                ThemePref::Light => "\u{2600} Light"@,
                ThemePref::Dark => "\u{263e} Dark"@,
            }),
    {
        match self {
            ThemePref::System => "\u{25d0} Auto",
            ThemePref::Light => "\u{2600} Light",
            ThemePref::Dark => "\u{263e} Dark",
        }
    }
}

/// How opening a connection affects the wall.
#[derive(Debug, Clone, Copy, PartialEq, Eq, Structural)]
pub enum LayoutMode {
    /// Opening a stream replaces whatever is playing.
    Single,
    /// Opening a stream adds another tile to the grid.
    Multi,
}

impl Default for LayoutMode {
    fn default() -> (mode: LayoutMode)
        ensures
            mode == LayoutMode::Single,
    {
        LayoutMode::Single
    }
}

impl LayoutMode {
    /// The other mode.
    pub open spec fn spec_toggled(self) -> LayoutMode {
        match self {
            LayoutMode::Single => LayoutMode::Multi,
            LayoutMode::Multi => LayoutMode::Single,
        }
    }

    pub fn toggled(self) -> (mode: LayoutMode)
        ensures
            mode == self.spec_toggled(),
    {
        match self {
            LayoutMode::Single => LayoutMode::Multi,
            LayoutMode::Multi => LayoutMode::Single,
        }
    }

    pub fn label(self) -> (label: &'static str)
        ensures
            label@ == (match self {
                LayoutMode::Single => "One"@,
                LayoutMode::Multi => "Many"@,
            }),
    {
        match self {
            LayoutMode::Single => "One",
            LayoutMode::Multi => "Many",
        }
    }

    /// What the layout button says when the pointer rests on it.
    pub fn tooltip(self) -> (text: &'static str)
        ensures
            text@ == (match self {
                LayoutMode::Single => "One at a time \u{2014} opening replaces"@,
                LayoutMode::Multi => "Many \u{2014} opening adds a tile"@,
            }),
    {
        match self {
            LayoutMode::Single => "One at a time \u{2014} opening replaces",
            LayoutMode::Multi => "Many \u{2014} opening adds a tile",
        }
    }
}

/// Three steps of the theme button lead back to where it was, and no fewer do.
pub proof fn law_theme_cycle(pref: ThemePref)
    ensures
        pref.spec_next().spec_next().spec_next() == pref,
        pref.spec_next() != pref,
        pref.spec_next().spec_next() != pref,
{
}

/// Toggling the layout twice changes nothing, and once always does.
pub proof fn law_layout_toggle(mode: LayoutMode)
    ensures
        mode.spec_toggled().spec_toggled() == mode,
        mode.spec_toggled() != mode,
{
}

/// The value of `expanded` where a file leaves it out.
pub fn default_true() -> (value: bool)
    ensures
        value,
{
    true
}

/// The value of a span where a file leaves it out.
pub fn one() -> (value: usize)
    ensures
        value == 1,
{
    1
}

/// Whether a span is left out of a file.
pub fn is_one(n: &usize) -> (yes: bool)
    ensures
        yes == (*n == 1),
{
    *n == 1
}

} // verus!
