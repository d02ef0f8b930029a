//! The settings modal: which tab shows, the name of an export file, and the
//! hand-over between the settings and the resource editor.

use vstd::prelude::*;
use crate::text::{concat_str, str_eq, take_chars};

verus! {

/// Whether the resource editor is open, whether the settings modal is open,
/// and whether closing the editor should bring the settings back.
#[derive(Debug, Clone, Copy, PartialEq, Eq, Structural)]
pub struct SettingsEditFlow {
    pub editing: bool,
    pub settings_open: bool,
    pub return_to_settings: bool,
}

/// The flow after the editor is opened from the settings.
pub open spec fn spec_open_editor(s: SettingsEditFlow) -> SettingsEditFlow {
    SettingsEditFlow { editing: true, settings_open: false, return_to_settings: true }
}

/// The flow after the editor's state is checked: a closed editor that was
/// opened from the settings gives way to the settings again.
pub open spec fn spec_return_from_editor(s: SettingsEditFlow) -> SettingsEditFlow {
    if !s.editing && s.return_to_settings {
        SettingsEditFlow { editing: false, settings_open: true, return_to_settings: false }
    } else {
        s
    }
}

impl SettingsEditFlow {
    /// Opens the resource editor from the settings: the settings close and
    /// will come back when the editor closes.
    pub fn open_editor(&mut self)
        ensures
            *final(self) == spec_open_editor(*old(self)),
    {
        self.return_to_settings = true;
        self.editing = true;
        self.settings_open = false;
    }

    /// Runs when the editor's state changes: once the editor is closed, the
    /// settings it was opened from open again.
    pub fn return_from_editor(&mut self)
        ensures
            *final(self) == spec_return_from_editor(*old(self)),
    {
        if !self.editing && self.return_to_settings {
            self.return_to_settings = false;
            self.settings_open = true;
        }
    }
}

/// Opening the editor from the settings keeps the settings closed while the
/// editor is open; once the editor closes, the settings come back, and a
/// second check changes nothing more.
pub proof fn lemma_editor_returns_to_settings(s: SettingsEditFlow)
    ensures
        spec_return_from_editor(spec_open_editor(s)) == spec_open_editor(s),
        ({
            let closed = SettingsEditFlow { editing: false, ..spec_open_editor(s) };
            let back = spec_return_from_editor(closed);
            &&& back.settings_open
            &&& !back.return_to_settings
            &&& spec_return_from_editor(back) == back
        }),
{
}

/// The tabs of the settings modal.
#[derive(Debug, Clone, Copy, PartialEq, Eq, Structural)]
pub enum SettingsTab {
    Data,
    Resource,
    Category,
}

/// The code of a tab.
pub open spec fn tab_code(t: SettingsTab) -> Seq<char> {
    match t {
        SettingsTab::Data => "data"@,
        SettingsTab::Resource => "resource"@,
        SettingsTab::Category => "dim"@,
    }
}

impl SettingsTab {
    /// The tab's code.
    pub fn code(self) -> (r: &'static str)
        ensures
            r@ == tab_code(self),
    {
        match self {
            SettingsTab::Data => "data",
            SettingsTab::Resource => "resource",
            SettingsTab::Category => "dim",
        }
    }

    /// The tab with code `s`, if any.
    pub fn from_code(s: &str) -> (r: Option<SettingsTab>)
        ensures
            r matches Some(t) ==> tab_code(t) == s@,
            r is None ==> (forall|t: SettingsTab| tab_code(t) != s@),
    {
        if str_eq(s, "data") {
            Some(SettingsTab::Data)
        } else if str_eq(s, "resource") {
            Some(SettingsTab::Resource)
        } else if str_eq(s, "dim") {
            Some(SettingsTab::Category)
        } else {
            proof {
                assert forall|t: SettingsTab| tab_code(t) != s@ by {
                    match t {
                        SettingsTab::Data => {},
                        SettingsTab::Resource => {},
                        SettingsTab::Category => {},
                    }
                }
            }
            None
        }
    }
}

/// Distinct tabs have distinct codes, so a code names one tab.
pub proof fn lemma_tab_code_round_trip(t: SettingsTab, u: SettingsTab)
    ensures
        tab_code(t) == tab_code(u) ==> t == u,
{
    reveal_strlit("data");
    reveal_strlit("resource");
    reveal_strlit("dim");
    if t != u {
        assert(tab_code(t).len() != tab_code(u).len());
    }
}

/// The name of an export file made at time `now_iso` (ISO 8601): `cumulo-`,
/// the first ten chars of the time (its date), `.json`.
pub fn export_file_name(now_iso: &str) -> (r: String)
    ensures
        r@ == "cumulo-"@ + (if 10 <= now_iso@.len() { now_iso@.subrange(0, 10) } else { now_iso@ }) + ".json"@,
{
    let date = take_chars(now_iso, 10);
    let a = concat_str("cumulo-", date.as_str());
    concat_str(a.as_str(), ".json")
}

/// A press and release on a dialog's overlay: a click closes the dialog only
/// when it both began and ended on the overlay itself (not inside the
/// dialog).
#[derive(Debug, Clone, Copy, PartialEq, Eq, Structural)]
pub struct OverlayPress {
    pub armed: bool,
}

impl OverlayPress {
    /// The mouse goes down; `on_overlay` tells whether on the overlay itself.
    pub fn press(&mut self, on_overlay: bool)
        ensures
            final(self).armed == on_overlay,
    {
        self.armed = on_overlay;
    }

    /// The click ends; returns whether the dialog is cancelled.
    pub fn release(&mut self, on_overlay: bool) -> (cancel: bool)
        ensures
            cancel == (old(self).armed && on_overlay),
            !final(self).armed,
    {
        let cancel = self.armed && on_overlay;
        self.armed = false;
        cancel
    }
}

} // verus!
