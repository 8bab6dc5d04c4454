//! What the window does as time passes.

use vstd::prelude::*;

verus! {

/// A colour theme of the system.
#[derive(Clone, Copy, Debug, PartialEq, Eq, Structural)]
pub enum Theme {
    Dark,
    Light,
}

/// What was last seen of the system's theme and of the window's focus.
#[derive(Clone, Copy, Debug, PartialEq, Eq, Structural)]
pub struct TitleBar {
    pub last_os_theme: Option<Theme>,
    pub was_focused: bool,
}

/// Whether the title bar has to be darkened again: where the system's theme
/// has changed, or the window has regained its focus.
pub fn keep_titlebar_dark(bar: TitleBar, os_theme: Option<Theme>, focused: Option<bool>) -> (seen: (
    TitleBar,
    bool,
))
    ensures
        ({
            let now = match focused {
                Some(focused) => focused,
                None => bar.was_focused,
            };
            &&& seen.0 == (TitleBar { last_os_theme: os_theme, was_focused: now })
            &&& seen.1 == (os_theme != bar.last_os_theme || (now && !bar.was_focused))
        }),
{
    let now: bool = match focused {
        Some(focused) => focused,
        None => bar.was_focused,
    };
    let same: bool = match (os_theme, bar.last_os_theme) {
        (Some(a), Some(b)) => a == b,
        (None, None) => true,
        _ => false,
    };
    (TitleBar { last_os_theme: os_theme, was_focused: now }, !same || (now && !bar.was_focused))
}

/// How long typing has to rest before a search begins, in nanoseconds.
pub const SEARCH_DELAY: u64 = 150_000_000;

/// Whether a search begins.
#[derive(Clone, Copy, Debug, PartialEq, Eq, Structural)]
pub enum Debounce {
    Apply,
    /// Not before this many nanoseconds have passed.
    Wait(u64),
}

/// Whether a search begins, `elapsed` nanoseconds after the text was changed.
pub fn debounce(elapsed: u64) -> (next: Debounce)
    ensures
        next == (if elapsed >= SEARCH_DELAY {
            Debounce::Apply
        } else {
            Debounce::Wait((SEARCH_DELAY - elapsed) as u64)
        }),
{
    if elapsed >= SEARCH_DELAY {
        Debounce::Apply
    } else {
        Debounce::Wait(SEARCH_DELAY - elapsed)
    }
}

/// How long a list of volumes is good for, in seconds.
pub const VOLUMES_AGE: u64 = 5;

/// Whether to list the volumes again, this many seconds after the last time.
pub fn volumes_outdated(age: Option<u64>) -> (outdated: bool)
    ensures
        outdated == (match age {
            Some(age) => age >= VOLUMES_AGE,
            None => true,
        }),
{
    match age {
        Some(age) => age >= VOLUMES_AGE,
        None => true,
    }
}

/// A search waits until typing has rested for 150 thousandths of a second, and no longer.
pub proof fn lemma_debounce(elapsed: u64, next: Debounce)
    requires
        call_ensures(debounce, (elapsed,), next),
    ensures
        next == Debounce::Apply <==> elapsed >= 150_000_000,
        next is Wait ==> elapsed + next->Wait_0 == 150_000_000,
{
}

/// Where neither the theme nor the focus has changed since the last look, the title bar is
/// left alone; what was seen is kept.
pub proof fn lemma_titlebar(
    bar: TitleBar,
    theme: Option<Theme>,
    focused: Option<bool>,
    seen: (TitleBar, bool),
    again: (TitleBar, bool),
)
    requires
        call_ensures(keep_titlebar_dark, (bar, theme, focused), seen),
        call_ensures(keep_titlebar_dark, (seen.0, theme, focused), again),
    ensures
        !again.1,
        again.0 == seen.0,
        theme != bar.last_os_theme ==> seen.1,
        focused == Some(true) && !bar.was_focused ==> seen.1,
        focused == Some(false) && theme == bar.last_os_theme ==> !seen.1,
{
}

/// A list of volumes is good for five seconds.
pub proof fn lemma_outdated(age: Option<u64>, outdated: bool)
    requires
        call_ensures(volumes_outdated, (age,), outdated),
    ensures
        age is None ==> outdated,
        age is Some ==> (outdated <==> age->0 >= 5),
{
}

} // verus!
