use cumulo_web::palette::PaletteFocus::{self, Candidate, Input, Pill};
use cumulo_web::palette::{KeyOutcome, PaletteKey};

#[test]
fn down_enters_candidates_from_input_and_pill() {
    assert_eq!(Input.down(3), Candidate(0));
    assert_eq!(Pill(1).down(3), Candidate(0));
    assert_eq!(Input.down(0), Input);
    assert_eq!(Candidate(1).down(3), Candidate(1));
}

#[test]
fn up_returns_to_input_from_candidates() {
    assert_eq!(Candidate(2).up(), Input);
    assert_eq!(Pill(1).up(), Pill(1));
    assert_eq!(Input.up(), Input);
}

#[test]
fn left_enters_last_pill_from_input() {
    assert_eq!(Input.left(3), Pill(2));
    assert_eq!(Input.left(0), Input);
}

#[test]
fn left_moves_within_zone_and_stops_at_head() {
    assert_eq!(Pill(2).left(3), Pill(1));
    assert_eq!(Pill(0).left(3), Pill(0));
    assert_eq!(Candidate(2).left(3), Candidate(1));
    assert_eq!(Candidate(0).left(3), Candidate(0));
}

#[test]
fn right_moves_within_zone_then_pills_return_to_input() {
    assert_eq!(Pill(0).right(3, 5), Pill(1));
    assert_eq!(Pill(2).right(3, 5), Input);
    assert_eq!(Candidate(0).right(3, 5), Candidate(1));
    assert_eq!(Candidate(4).right(3, 5), Candidate(4));
    assert_eq!(Input.right(3, 5), Input);
}

#[test]
fn after_removal_clamps_or_returns_to_input() {
    assert_eq!(Pill(1).after_removal(2), Pill(1));
    assert_eq!(Pill(2).after_removal(2), Pill(1));
    assert_eq!(Pill(0).after_removal(0), Input);
}

#[test]
fn pill_and_candidate_report_selected_index() {
    assert_eq!(Pill(1).pill(), Some(1));
    assert_eq!(Candidate(2).pill(), None);
    assert_eq!(Candidate(2).candidate(), Some(2));
    assert_eq!(Pill(1).candidate(), None);
    assert_eq!(PaletteFocus::Input.pill(), None);
}

fn moved(f: PaletteFocus) -> KeyOutcome {
    KeyOutcome { prevent_default: true, focus: Some(f), remove_pill: None, commit_candidate: None }
}

const NOTHING: KeyOutcome = KeyOutcome { prevent_default: false, focus: None, remove_pill: None, commit_candidate: None };

#[test]
fn keys_move_focus() {
    assert_eq!(Input.on_key(PaletteKey::ArrowDown, 2, 3, true), moved(Candidate(0)));
    assert_eq!(Input.on_key(PaletteKey::ArrowDown, 2, 0, true), NOTHING);
    assert_eq!(Input.on_key(PaletteKey::ArrowLeft, 2, 3, true), moved(Pill(1)));
    assert_eq!(Input.on_key(PaletteKey::ArrowLeft, 2, 3, false), NOTHING);
    assert_eq!(Pill(1).on_key(PaletteKey::ArrowRight, 2, 3, true), moved(Input));
    assert_eq!(Candidate(1).on_key(PaletteKey::ArrowUp, 2, 3, true), moved(Input));
    assert_eq!(Pill(0).on_key(PaletteKey::Escape, 2, 3, true), moved(Input));
    assert_eq!(Input.on_key(PaletteKey::Other, 2, 3, true), NOTHING);
}

#[test]
fn keys_remove_pill_and_commit_candidate() {
    assert_eq!(
        Pill(1).on_key(PaletteKey::Backspace, 2, 0, true),
        KeyOutcome { prevent_default: true, focus: Some(Pill(0)), remove_pill: Some(1), commit_candidate: None }
    );
    assert_eq!(
        Pill(0).on_key(PaletteKey::Delete, 1, 0, true),
        KeyOutcome { prevent_default: true, focus: Some(Input), remove_pill: Some(0), commit_candidate: None }
    );
    assert_eq!(
        Candidate(2).on_key(PaletteKey::Enter, 0, 3, false),
        KeyOutcome { prevent_default: true, focus: Some(Input), remove_pill: None, commit_candidate: Some(2) }
    );
    assert_eq!(Candidate(3).on_key(PaletteKey::Enter, 0, 3, false), NOTHING);
}

#[test]
fn key_names_map_to_keys() {
    assert_eq!(PaletteKey::named("ArrowDown"), PaletteKey::ArrowDown);
    assert_eq!(PaletteKey::named("Escape"), PaletteKey::Escape);
    assert_eq!(PaletteKey::named("Delete"), PaletteKey::Delete);
    assert_eq!(PaletteKey::named("a"), PaletteKey::Other);
    assert_eq!(PaletteKey::named("arrowdown"), PaletteKey::Other);
}
