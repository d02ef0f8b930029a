//! Keyboard focus of the command palette: the text input, one of the filter
//! pills before it, or one of the suggested candidates below it.

use vstd::prelude::*;
use crate::text::str_eq;

verus! {

/// Where the palette's keyboard focus is.
#[derive(Clone, Copy, Debug, PartialEq, Eq, Structural)]
pub enum PaletteFocus {
    Input,
    Pill(usize),
    Candidate(usize),
}

/// A key that the palette reacts to; any other key is `Other`.
#[derive(Clone, Copy, Debug, PartialEq, Eq, Structural)]
pub enum PaletteKey {
    ArrowDown,
    ArrowUp,
    ArrowLeft,
    ArrowRight,
    Backspace,
    Delete,
    Enter,
    Escape,
    Other,
}

/// What a key press does: whether the browser's default is prevented, the
/// new focus (if it changes), the pill to remove and the candidate to commit.
#[derive(Clone, Copy, Debug, PartialEq, Eq, Structural)]
pub struct KeyOutcome {
    pub prevent_default: bool,
    pub focus: Option<PaletteFocus>,
    pub remove_pill: Option<usize>,
    pub commit_candidate: Option<usize>,
}

pub open spec fn spec_down(f: PaletteFocus, candidate_count: usize) -> PaletteFocus {
    match f {
        PaletteFocus::Candidate(_) => f,
        _ => if candidate_count > 0 {
            PaletteFocus::Candidate(0)
        } else {
            f
        },
    }
}

pub open spec fn spec_up(f: PaletteFocus) -> PaletteFocus {
    match f {
        PaletteFocus::Candidate(_) => PaletteFocus::Input,
        other => other,
    }
}

pub open spec fn spec_left(f: PaletteFocus, pill_count: usize) -> PaletteFocus {
    match f {
        PaletteFocus::Input => if pill_count > 0 {
            PaletteFocus::Pill((pill_count - 1) as usize)
        } else {
            PaletteFocus::Input
        },
        PaletteFocus::Pill(i) => PaletteFocus::Pill(if i > 0 { (i - 1) as usize } else { 0 }),
        PaletteFocus::Candidate(i) => PaletteFocus::Candidate(if i > 0 { (i - 1) as usize } else { 0 }),
    }
}

pub open spec fn spec_right(f: PaletteFocus, pill_count: usize, candidate_count: usize) -> PaletteFocus {
    match f {
        PaletteFocus::Pill(i) => if i + 1 < pill_count {
            PaletteFocus::Pill((i + 1) as usize)
        } else {
            PaletteFocus::Input
        },
        PaletteFocus::Candidate(i) => if i + 1 < candidate_count {
            PaletteFocus::Candidate((i + 1) as usize)
        } else {
            PaletteFocus::Candidate(i)
        },
        PaletteFocus::Input => PaletteFocus::Input,
    }
}

pub open spec fn spec_after_removal(f: PaletteFocus, remaining: usize) -> PaletteFocus {
    match f {
        PaletteFocus::Pill(i) => if remaining > 0 {
            PaletteFocus::Pill(if i < remaining { i } else { (remaining - 1) as usize })
        } else {
            PaletteFocus::Input
        },
        _ => PaletteFocus::Input,
    }
}

/// The focus is on the input, an existing pill or an existing candidate.
pub open spec fn focus_in_range(f: PaletteFocus, pill_count: usize, candidate_count: usize) -> bool {
    match f {
        PaletteFocus::Input => true,
        PaletteFocus::Pill(i) => i < pill_count,
        PaletteFocus::Candidate(i) => i < candidate_count,
    }
}

pub open spec fn moved(prevent: bool, f: PaletteFocus) -> KeyOutcome {
    KeyOutcome { prevent_default: prevent, focus: Some(f), remove_pill: None, commit_candidate: None }
}

pub open spec fn nothing() -> KeyOutcome {
    KeyOutcome { prevent_default: false, focus: None, remove_pill: None, commit_candidate: None }
}

/// What a key press does in the palette, given the number of pills, the
/// number of candidates and whether the input is empty. The first matching
/// rule applies:
/// - Down from the input or a pill enters the candidates (when there are any);
/// - Left from an empty input enters the last pill (when there is one);
/// - Left / Right move within pills and candidates, Up leaves the candidates;
/// - Backspace, Delete or Enter on a pill removes it;
/// - Enter on an existing candidate commits it and returns to the input;
/// - Escape returns to the input.
pub open spec fn spec_key(
    cur: PaletteFocus,
    key: PaletteKey,
    pill_count: usize,
    candidate_count: usize,
    empty_input: bool,
) -> KeyOutcome {
    match (cur, key) {
        (PaletteFocus::Input, PaletteKey::ArrowDown) if candidate_count > 0 => moved(true, spec_down(cur, candidate_count)),
        (PaletteFocus::Input, PaletteKey::ArrowLeft) if empty_input && pill_count > 0 => moved(true, spec_left(cur, pill_count)),
        (PaletteFocus::Pill(_), PaletteKey::ArrowLeft) => moved(true, spec_left(cur, pill_count)),
        (PaletteFocus::Pill(_), PaletteKey::ArrowRight) => moved(true, spec_right(cur, pill_count, candidate_count)),
        (PaletteFocus::Pill(_), PaletteKey::ArrowDown) if candidate_count > 0 => moved(true, spec_down(cur, candidate_count)),
        (PaletteFocus::Pill(i), PaletteKey::Backspace)
        | (PaletteFocus::Pill(i), PaletteKey::Delete)
        | (PaletteFocus::Pill(i), PaletteKey::Enter) => KeyOutcome {
            prevent_default: true,
            focus: Some(spec_after_removal(cur, if pill_count > 0 { (pill_count - 1) as usize } else { 0 })),
            remove_pill: Some(i),
            commit_candidate: None,
        },
        (PaletteFocus::Candidate(_), PaletteKey::ArrowLeft) => moved(true, spec_left(cur, pill_count)),
        (PaletteFocus::Candidate(_), PaletteKey::ArrowRight) => moved(true, spec_right(cur, pill_count, candidate_count)),
        (PaletteFocus::Candidate(_), PaletteKey::ArrowUp) => moved(true, spec_up(cur)),
        (PaletteFocus::Candidate(i), PaletteKey::Enter) => if i < candidate_count {
            KeyOutcome {
                prevent_default: true,
                focus: Some(PaletteFocus::Input),
                remove_pill: None,
                commit_candidate: Some(i),
            }
        } else {
            nothing()
        },
        (_, PaletteKey::Escape) => moved(true, PaletteFocus::Input),
        _ => nothing(),
    }
}

impl PaletteFocus {
    /// Down: from the input or a pill to the first candidate, if any.
    pub fn down(self, candidate_count: usize) -> (r: PaletteFocus)
        ensures
            r == spec_down(self, candidate_count),
    {
        match self {
            PaletteFocus::Candidate(_) => self,
            _ => if candidate_count > 0 {
                PaletteFocus::Candidate(0)
            } else {
                self
            },
        }
    }

    /// Up: from a candidate back to the input.
    pub fn up(self) -> (r: PaletteFocus)
        ensures
            r == spec_up(self),
    {
        match self {
            PaletteFocus::Candidate(_) => PaletteFocus::Input,
            other => other,
        }
    }

    /// Left: from the input to the last pill; within pills or candidates one
    /// step back, stopping at the first.
    pub fn left(self, pill_count: usize) -> (r: PaletteFocus)
        ensures
            r == spec_left(self, pill_count),
    {
        match self {
            PaletteFocus::Input => if pill_count > 0 {
                PaletteFocus::Pill(pill_count - 1)
            } else {
                PaletteFocus::Input
            },
            PaletteFocus::Pill(i) => PaletteFocus::Pill(i.saturating_sub(1)),
            PaletteFocus::Candidate(i) => PaletteFocus::Candidate(i.saturating_sub(1)),
        }
    }

    /// Right: within pills one step on, past the last back to the input;
    /// within candidates one step on, stopping at the last.
    pub fn right(self, pill_count: usize, candidate_count: usize) -> (r: PaletteFocus)
        ensures
            r == spec_right(self, pill_count, candidate_count),
    {
        match self {
            PaletteFocus::Pill(i) => if i < pill_count && pill_count - i > 1 {
                PaletteFocus::Pill(i + 1)
            } else {
                PaletteFocus::Input
            },
            PaletteFocus::Candidate(i) => if i < candidate_count && candidate_count - i > 1 {
                PaletteFocus::Candidate(i + 1)
            } else {
                PaletteFocus::Candidate(i)
            },
            PaletteFocus::Input => PaletteFocus::Input,
        }
    }

    /// The focus after the focused pill was removed and `remaining` pills are
    /// left: the same position clamped to the last pill, or the input when
    /// none is left.
    pub fn after_removal(self, remaining: usize) -> (r: PaletteFocus)
        ensures
            r == spec_after_removal(self, remaining),
    {
        match self {
            PaletteFocus::Pill(i) => if remaining > 0 {
                PaletteFocus::Pill(if i < remaining { i } else { remaining - 1 })
            } else {
                PaletteFocus::Input
            },
            _ => PaletteFocus::Input,
        }
    }

    /// The index of the focused pill, if a pill has the focus.
    pub fn pill(self) -> (r: Option<usize>)
        ensures
            r == (match self {
                PaletteFocus::Pill(i) => Some(i),
                _ => None,
            }),
    {
        match self {
            PaletteFocus::Pill(i) => Some(i),
            _ => None,
        }
    }

    /// The index of the focused candidate, if a candidate has the focus.
    pub fn candidate(self) -> (r: Option<usize>)
        ensures
            r == (match self {
                PaletteFocus::Candidate(i) => Some(i),
                _ => None,
            }),
    {
        match self {
            PaletteFocus::Candidate(i) => Some(i),
            _ => None,
        }
    }

    /// What a key press does (see `spec_key`).
    pub fn on_key(
        self,
        key: PaletteKey,
        pill_count: usize,
        candidate_count: usize,
        empty_input: bool,
    ) -> (r: KeyOutcome)
        ensures
            r == spec_key(self, key, pill_count, candidate_count, empty_input),
    {
        let none = KeyOutcome { prevent_default: false, focus: None, remove_pill: None, commit_candidate: None };
        match (self, key) {
            (PaletteFocus::Input, PaletteKey::ArrowDown) if candidate_count > 0 => KeyOutcome {
                prevent_default: true,
                focus: Some(self.down(candidate_count)),
                remove_pill: None,
                commit_candidate: None,
            },
            (PaletteFocus::Input, PaletteKey::ArrowLeft) if empty_input && pill_count > 0 => KeyOutcome {
                prevent_default: true,
                focus: Some(self.left(pill_count)),
                remove_pill: None,
                commit_candidate: None,
            },
            (PaletteFocus::Pill(_), PaletteKey::ArrowLeft) => KeyOutcome {
                prevent_default: true,
                focus: Some(self.left(pill_count)),
                remove_pill: None,
                commit_candidate: None,
            },
            (PaletteFocus::Pill(_), PaletteKey::ArrowRight) => KeyOutcome {
                prevent_default: true,
                focus: Some(self.right(pill_count, candidate_count)),
                remove_pill: None,
                commit_candidate: None,
            },
            (PaletteFocus::Pill(_), PaletteKey::ArrowDown) if candidate_count > 0 => KeyOutcome {
                prevent_default: true,
                focus: Some(self.down(candidate_count)),
                remove_pill: None,
                commit_candidate: None,
            },
            (PaletteFocus::Pill(i), PaletteKey::Backspace)
            | (PaletteFocus::Pill(i), PaletteKey::Delete)
            | (PaletteFocus::Pill(i), PaletteKey::Enter) => KeyOutcome {
                prevent_default: true,
                focus: Some(self.after_removal(pill_count.saturating_sub(1))),
                remove_pill: Some(i),
                commit_candidate: None,
            },
            (PaletteFocus::Candidate(_), PaletteKey::ArrowLeft) => KeyOutcome {
                prevent_default: true,
                focus: Some(self.left(pill_count)),
                remove_pill: None,
                commit_candidate: None,
            },
            (PaletteFocus::Candidate(_), PaletteKey::ArrowRight) => KeyOutcome {
                prevent_default: true,
                focus: Some(self.right(pill_count, candidate_count)),
                remove_pill: None,
                commit_candidate: None,
            },
            (PaletteFocus::Candidate(_), PaletteKey::ArrowUp) => KeyOutcome {
                prevent_default: true,
                focus: Some(self.up()),
                remove_pill: None,
                commit_candidate: None,
            },
            (PaletteFocus::Candidate(i), PaletteKey::Enter) => if i < candidate_count {
                KeyOutcome {
                    prevent_default: true,
                    focus: Some(PaletteFocus::Input),
                    remove_pill: None,
                    commit_candidate: Some(i),
                }
            } else {
                none
            },
            (_, PaletteKey::Escape) => KeyOutcome {
                prevent_default: true,
                focus: Some(PaletteFocus::Input),
                remove_pill: None,
                commit_candidate: None,
            },
            _ => none,
        }
    }
}

/// Moving with the arrow keys keeps the focus on the input, an existing pill
/// or an existing candidate.
pub proof fn lemma_moves_stay_in_range(f: PaletteFocus, pill_count: usize, candidate_count: usize)
    requires
        focus_in_range(f, pill_count, candidate_count),
    ensures
        focus_in_range(spec_down(f, candidate_count), pill_count, candidate_count),
        focus_in_range(spec_up(f), pill_count, candidate_count),
        focus_in_range(spec_left(f, pill_count), pill_count, candidate_count),
        focus_in_range(spec_right(f, pill_count, candidate_count), pill_count, candidate_count),
{
}

/// After a removal the focus is on the input or on one of the pills left.
pub proof fn lemma_after_removal_in_range(f: PaletteFocus, remaining: usize, candidate_count: usize)
    ensures
        focus_in_range(spec_after_removal(f, remaining), remaining, candidate_count),
{
}

/// Every key press leaves the focus in range of the pills and candidates that
/// are there afterwards (one pill fewer when a pill is removed), removes only
/// the focused pill and commits only the focused, existing candidate.
pub proof fn lemma_key_keeps_focus_in_range(
    cur: PaletteFocus,
    key: PaletteKey,
    pill_count: usize,
    candidate_count: usize,
    empty_input: bool,
)
    requires
        focus_in_range(cur, pill_count, candidate_count),
    ensures
        ({
            let o = spec_key(cur, key, pill_count, candidate_count, empty_input);
            let pills_after = if o.remove_pill is Some && pill_count > 0 {
                (pill_count - 1) as usize
            } else {
                pill_count
            };
            &&& (o.focus matches Some(f) ==> focus_in_range(f, pills_after, candidate_count))
            &&& (o.remove_pill matches Some(i) ==> cur == PaletteFocus::Pill(i) && i < pill_count)
            &&& (o.commit_candidate matches Some(i) ==> cur == PaletteFocus::Candidate(i) && i < candidate_count)
        }),
{
}

/// A key that removes a focused pill: Backspace, Delete or Enter.
pub open spec fn is_removal_key(key: PaletteKey) -> bool {
    key == PaletteKey::Backspace || key == PaletteKey::Delete || key == PaletteKey::Enter
}

/// Backspace, Delete and Enter on a pill all remove that pill, with the same
/// outcome: the default is prevented, nothing is committed, and the focus
/// stays at the same position among the pills left (on the new last pill
/// when the removed one was last, on the input when none is left).
pub proof fn lemma_removal_keys_remove_the_focused_pill(
    i: usize,
    key: PaletteKey,
    pill_count: usize,
    candidate_count: usize,
    empty_input: bool,
)
    requires
        i < pill_count,
        is_removal_key(key),
    ensures
        ({
            let o = spec_key(PaletteFocus::Pill(i), key, pill_count, candidate_count, empty_input);
            &&& o.prevent_default
            &&& o.remove_pill == Some(i)
            &&& o.commit_candidate is None
            &&& o.focus == Some(
                if pill_count == 1 {
                    PaletteFocus::Input
                } else if i + 1 < pill_count {
                    PaletteFocus::Pill(i)
                } else {
                    PaletteFocus::Pill((pill_count - 2) as usize)
                },
            )
            &&& o == spec_key(PaletteFocus::Pill(i), PaletteKey::Backspace, pill_count, candidate_count, empty_input)
            &&& o == spec_key(PaletteFocus::Pill(i), PaletteKey::Delete, pill_count, candidate_count, empty_input)
            &&& o == spec_key(PaletteFocus::Pill(i), PaletteKey::Enter, pill_count, candidate_count, empty_input)
        }),
{
}

/// A pill is removed only by Backspace, Delete or Enter with the focus on
/// it; a candidate is committed only by Enter with the focus on it, and the
/// focus then returns to the input.
pub proof fn lemma_only_focused_items_change(
    cur: PaletteFocus,
    key: PaletteKey,
    pill_count: usize,
    candidate_count: usize,
    empty_input: bool,
)
    ensures
        ({
            let o = spec_key(cur, key, pill_count, candidate_count, empty_input);
            &&& (o.remove_pill matches Some(i) ==> cur == PaletteFocus::Pill(i) && is_removal_key(key))
            &&& (o.commit_candidate matches Some(i) ==> cur == PaletteFocus::Candidate(i) && key
                == PaletteKey::Enter && o.focus == Some(PaletteFocus::Input) && o.remove_pill is None)
            &&& (o.remove_pill is Some || o.commit_candidate is Some || o.focus is Some) == o.prevent_default
        }),
{
}

/// Enter on an existing candidate commits it, prevents the default and
/// returns the focus to the input; on a candidate index past the list it
/// does nothing.
pub proof fn lemma_enter_commits_the_focused_candidate(
    i: usize,
    pill_count: usize,
    candidate_count: usize,
    empty_input: bool,
)
    ensures
        ({
            let o = spec_key(PaletteFocus::Candidate(i), PaletteKey::Enter, pill_count, candidate_count, empty_input);
            &&& i < candidate_count ==> o == (KeyOutcome {
                prevent_default: true,
                focus: Some(PaletteFocus::Input),
                remove_pill: None,
                commit_candidate: Some(i),
            })
            &&& i >= candidate_count ==> !o.prevent_default && o.focus is None && o.remove_pill is None
                && o.commit_candidate is None
        }),
{
}

/// Escape returns the focus to the input from anywhere, preventing the
/// default and changing nothing else; a key the palette does not know does
/// nothing at all.
pub proof fn lemma_escape_and_other_keys(
    cur: PaletteFocus,
    pill_count: usize,
    candidate_count: usize,
    empty_input: bool,
)
    ensures
        spec_key(cur, PaletteKey::Escape, pill_count, candidate_count, empty_input) == (KeyOutcome {
            prevent_default: true,
            focus: Some(PaletteFocus::Input),
            remove_pill: None,
            commit_candidate: None,
        }),
        ({
            let o = spec_key(cur, PaletteKey::Other, pill_count, candidate_count, empty_input);
            !o.prevent_default && o.focus is None && o.remove_pill is None && o.commit_candidate is None
        }),
{
}

/// Keys with no rule where the focus is do nothing at all: Enter,
/// Backspace and Delete on the input, Backspace and Delete on a candidate.
pub proof fn lemma_keys_without_a_rule_do_nothing(
    cur: PaletteFocus,
    key: PaletteKey,
    pill_count: usize,
    candidate_count: usize,
    empty_input: bool,
)
    requires
        (cur is Input && (key == PaletteKey::Enter || key == PaletteKey::Backspace || key == PaletteKey::Delete)) || (
        cur is Candidate && (key == PaletteKey::Backspace || key == PaletteKey::Delete)),
    ensures
        !spec_key(cur, key, pill_count, candidate_count, empty_input).prevent_default,
        spec_key(cur, key, pill_count, candidate_count, empty_input).focus is None,
        spec_key(cur, key, pill_count, candidate_count, empty_input).remove_pill is None,
        spec_key(cur, key, pill_count, candidate_count, empty_input).commit_candidate is None,
{
}

/// The arrow keys remove and commit nothing, and prevent the default
/// whenever they move the focus.
pub proof fn lemma_arrows_only_move(
    cur: PaletteFocus,
    key: PaletteKey,
    pill_count: usize,
    candidate_count: usize,
    empty_input: bool,
)
    requires
        key == PaletteKey::ArrowLeft || key == PaletteKey::ArrowRight || key == PaletteKey::ArrowUp || key
            == PaletteKey::ArrowDown,
    ensures
        spec_key(cur, key, pill_count, candidate_count, empty_input).remove_pill is None,
        spec_key(cur, key, pill_count, candidate_count, empty_input).commit_candidate is None,
        spec_key(cur, key, pill_count, candidate_count, empty_input).focus is Some ==> spec_key(
            cur,
            key,
            pill_count,
            candidate_count,
            empty_input,
        ).prevent_default,
{
}

/// Left and Right step through the pills one at a time: Left stops at the
/// first pill, Right past the last pill reaches the input.
pub proof fn lemma_arrows_step_through_pills(i: usize, pill_count: usize, candidate_count: usize, empty_input: bool)
    ensures
        spec_key(PaletteFocus::Pill(i), PaletteKey::ArrowLeft, pill_count, candidate_count, empty_input).focus
            == Some(PaletteFocus::Pill(if i > 0 { (i - 1) as usize } else { 0 })),
        i + 1 < pill_count ==> spec_key(
            PaletteFocus::Pill(i),
            PaletteKey::ArrowRight,
            pill_count,
            candidate_count,
            empty_input,
        ).focus == Some(PaletteFocus::Pill((i + 1) as usize)),
        i + 1 >= pill_count ==> spec_key(
            PaletteFocus::Pill(i),
            PaletteKey::ArrowRight,
            pill_count,
            candidate_count,
            empty_input,
        ).focus == Some(PaletteFocus::Input),
{
}

/// Left and Right step through the candidates one at a time, stopping at
/// either end; Up leaves them for the input, Down stays put.
pub proof fn lemma_arrows_step_through_candidates(
    i: usize,
    pill_count: usize,
    candidate_count: usize,
    empty_input: bool,
)
    ensures
        spec_key(PaletteFocus::Candidate(i), PaletteKey::ArrowLeft, pill_count, candidate_count, empty_input).focus
            == Some(PaletteFocus::Candidate(if i > 0 { (i - 1) as usize } else { 0 })),
        spec_key(PaletteFocus::Candidate(i), PaletteKey::ArrowRight, pill_count, candidate_count, empty_input).focus
            == Some(PaletteFocus::Candidate(if i + 1 < candidate_count { (i + 1) as usize } else { i })),
        spec_key(PaletteFocus::Candidate(i), PaletteKey::ArrowUp, pill_count, candidate_count, empty_input).focus
            == Some(PaletteFocus::Input),
        spec_key(PaletteFocus::Candidate(i), PaletteKey::ArrowDown, pill_count, candidate_count, empty_input).focus
            is None,
{
}

/// From the input: Down enters the first candidate (when there is one),
/// Left on an empty input enters the last pill (when there is one), Right
/// and Up do nothing. From a pill, Down enters the first candidate too and
/// Up does nothing.
pub proof fn lemma_arrows_from_input_and_pills(
    i: usize,
    pill_count: usize,
    candidate_count: usize,
    empty_input: bool,
)
    ensures
        candidate_count > 0 ==> spec_key(PaletteFocus::Input, PaletteKey::ArrowDown, pill_count, candidate_count, empty_input).focus
            == Some(PaletteFocus::Candidate(0)),
        candidate_count > 0 ==> spec_key(PaletteFocus::Pill(i), PaletteKey::ArrowDown, pill_count, candidate_count, empty_input).focus
            == Some(PaletteFocus::Candidate(0)),
        candidate_count == 0 ==> spec_key(PaletteFocus::Input, PaletteKey::ArrowDown, pill_count, candidate_count, empty_input).focus
            is None,
        candidate_count == 0 ==> spec_key(PaletteFocus::Pill(i), PaletteKey::ArrowDown, pill_count, candidate_count, empty_input).focus
            is None,
        empty_input && pill_count > 0 ==> spec_key(PaletteFocus::Input, PaletteKey::ArrowLeft, pill_count, candidate_count, empty_input).focus
            == Some(PaletteFocus::Pill((pill_count - 1) as usize)),
        !(empty_input && pill_count > 0) ==> spec_key(PaletteFocus::Input, PaletteKey::ArrowLeft, pill_count, candidate_count, empty_input).focus
            is None,
        spec_key(PaletteFocus::Input, PaletteKey::ArrowRight, pill_count, candidate_count, empty_input).focus is None,
        spec_key(PaletteFocus::Input, PaletteKey::ArrowUp, pill_count, candidate_count, empty_input).focus is None,
        spec_key(PaletteFocus::Pill(i), PaletteKey::ArrowUp, pill_count, candidate_count, empty_input).focus is None,
{
}

/// The key a DOM key name (`KeyboardEvent.key`) stands for.
pub open spec fn spec_key_named(name: Seq<char>) -> PaletteKey {
    if name == "ArrowDown"@ {
        PaletteKey::ArrowDown
    } else if name == "ArrowUp"@ {
        PaletteKey::ArrowUp
    } else if name == "ArrowLeft"@ {
        PaletteKey::ArrowLeft
    } else if name == "ArrowRight"@ {
        PaletteKey::ArrowRight
    } else if name == "Backspace"@ {
        PaletteKey::Backspace
    } else if name == "Delete"@ {
        PaletteKey::Delete
    } else if name == "Enter"@ {
        PaletteKey::Enter
    } else if name == "Escape"@ {
        PaletteKey::Escape
    } else {
        PaletteKey::Other
    }
}

impl PaletteKey {
    /// The key named `name` (see `spec_key_named`).
    pub fn named(name: &str) -> (r: PaletteKey)
        ensures
            r == spec_key_named(name@),
    {
        if str_eq(name, "ArrowDown") {
            PaletteKey::ArrowDown
        } else if str_eq(name, "ArrowUp") {
            PaletteKey::ArrowUp
        } else if str_eq(name, "ArrowLeft") {
            PaletteKey::ArrowLeft
        } else if str_eq(name, "ArrowRight") {
            PaletteKey::ArrowRight
        } else if str_eq(name, "Backspace") {
            PaletteKey::Backspace
        } else if str_eq(name, "Delete") {
            PaletteKey::Delete
        } else if str_eq(name, "Enter") {
            PaletteKey::Enter
        } else if str_eq(name, "Escape") {
            PaletteKey::Escape
        } else {
            PaletteKey::Other
        }
    }
}

} // verus!
