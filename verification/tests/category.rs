use cumulo_web::category::{
    category_default_color, chip_style, color_of_text, color_text, commit_before_switch,
    decide_node_edit, delete_impact, display_label, drop_action, is_abandoned_draft,
    preview_names, row_color, swatch_color, CategoryAttribute, DeleteImpact, DropAction,
    NodeEditOutcome,
};
use cumulo_web::color::Color;
use cumulo_web::ids::Id;

fn cid(s: &str) -> Id {
    Id::new(s).unwrap()
}

#[test]
fn color_text_writes_hex_or_nothing() {
    assert_eq!(color_text(Some(Color::rgb(0x22, 0xaa, 0x22))), "#22aa22");
    assert_eq!(color_text(None), "");
    assert_eq!(color_of_text("#22aa22"), Some(Color::rgb(0x22, 0xaa, 0x22)));
    assert_eq!(color_of_text(""), None);
    assert_eq!(color_of_text("nope"), None);
}

#[test]
fn color_text_round_trips() {
    for c in [None, Some(Color::rgb(1, 2, 3)), Some(Color::rgba(0x22, 0xaa, 0x22, 0x80))] {
        assert_eq!(color_of_text(&color_text(c)), c);
    }
}

#[test]
fn default_attribute_has_no_colour() {
    assert_eq!(CategoryAttribute::default(), CategoryAttribute { color: None });
    assert_eq!(swatch_color(None), "#8899aa");
    assert_eq!(category_default_color(), Color::rgb(0x88, 0x99, 0xaa));
    assert_eq!(swatch_color(Some(Color::rgb(0x11, 0x11, 0x11))), "#111111");
}

#[test]
fn labels_fall_back_to_the_identifier() {
    assert_eq!(display_label("", &cid("gcp")), "gcp");
    assert_eq!(display_label("GCP", &cid("gcp")), "GCP");
}

#[test]
fn chip_style_uses_the_colour_twice() {
    assert_eq!(chip_style("#22aa22"), "border-color:#22aa22;background:#22aa221a");
    assert_eq!(chip_style(""), "");
}

#[test]
fn row_color_previews_only_the_edited_row() {
    let editing = Some(cid("gcp"));
    assert_eq!(row_color(&editing, &cid("gcp"), "#000000", "#22aa22"), "#000000");
    assert_eq!(row_color(&editing, &cid("gcp"), "", "#22aa22"), "#22aa22");
    assert_eq!(row_color(&editing, &cid("aws"), "#000000", "#ff9900"), "#ff9900");
    assert_eq!(row_color(&None, &cid("aws"), "#000000", "#ff9900"), "#ff9900");
}

#[test]
fn node_edit_without_editing_does_nothing() {
    let r = decide_node_edit(None, "x".to_string(), String::new(), "", false, 0);
    assert!(matches!(r, NodeEditOutcome::NotEditing));
}

#[test]
fn node_edit_with_blank_id_commits_nothing() {
    let r = decide_node_edit(Some(cid("gcp")), "  \t".to_string(), "GCP".to_string(), "", false, 0);
    assert!(matches!(r, NodeEditOutcome::BlankId));
}

#[test]
fn node_edit_refuses_a_taken_id() {
    let r = decide_node_edit(Some(cid("gcp")), "aws".to_string(), "GCP".to_string(), "", true, 3);
    assert!(matches!(r, NodeEditOutcome::IdTaken));
}

#[test]
fn node_edit_asks_before_renaming_a_used_id() {
    let r = decide_node_edit(Some(cid("gcp")), "google".to_string(), "GCP".to_string(), "#22aa22", false, 2);
    match r {
        NodeEditOutcome::Confirm(p) => {
            assert_eq!(p.old_id, cid("gcp"));
            assert_eq!(p.new_id, cid("google"));
            assert_eq!(p.label, "GCP");
            assert_eq!(p.attribute.color, Some(Color::rgb(0x22, 0xaa, 0x22)));
        }
        other => panic!("unexpected {other:?}"),
    }
}

#[test]
fn node_edit_applies_when_nothing_is_affected() {
    let same = decide_node_edit(Some(cid("gcp")), "gcp".to_string(), "G".to_string(), "", true, 5);
    match same {
        NodeEditOutcome::Apply(p) => {
            assert_eq!(p.new_id, cid("gcp"));
            assert_eq!(p.attribute.color, None);
        }
        other => panic!("unexpected {other:?}"),
    }
    let unused = decide_node_edit(Some(cid("gcp")), "google".to_string(), "G".to_string(), "", false, 0);
    assert!(matches!(unused, NodeEditOutcome::Apply(_)));
}

#[test]
fn switching_rows_commits_the_edited_one() {
    assert!(commit_before_switch(&Some(cid("a")), &cid("b")));
    assert!(!commit_before_switch(&Some(cid("a")), &cid("a")));
    assert!(!commit_before_switch(&None, &cid("a")));
}

#[test]
fn unnamed_new_nodes_are_discarded_on_cancel() {
    assert!(is_abandoned_draft("", &cid("node-1f3a")));
    assert!(!is_abandoned_draft("Named", &cid("node-1f3a")));
    assert!(!is_abandoned_draft("", &cid("gcp")));
}

#[test]
fn drop_zones_map_to_actions() {
    assert_eq!(drop_action(0), DropAction::Before);
    assert_eq!(drop_action(1), DropAction::Inside);
    assert_eq!(drop_action(2), DropAction::After);
    assert_eq!(drop_action(7), DropAction::Inside);
}

#[test]
fn preview_lists_at_most_eight_names() {
    let names: Vec<String> = (0..11).map(|i| format!("r{i}")).collect();
    let (shown, overflow) = preview_names(names);
    assert_eq!(shown.len(), 8);
    assert_eq!(shown[0], "r0");
    assert_eq!(shown[7], "r7");
    assert_eq!(overflow, 3);
    let (few, none) = preview_names(vec!["a".to_string()]);
    assert_eq!(few, vec!["a".to_string()]);
    assert_eq!(none, 0);
}

#[test]
fn delete_impact_covers_the_four_cases() {
    assert_eq!(
        delete_impact(Some("GCP".to_string()), true, 2, 5),
        DeleteImpact::PromoteToParent { promote: 2, parent: "GCP".to_string(), total: 5 }
    );
    assert_eq!(
        delete_impact(Some("GCP".to_string()), false, 0, 5),
        DeleteImpact::ReparentToParent { parent: "GCP".to_string(), total: 5 }
    );
    assert_eq!(delete_impact(None, true, 1, 4), DeleteImpact::PromoteToRoot { promote: 1, total: 4 });
    assert_eq!(delete_impact(None, false, 0, 4), DeleteImpact::Untag { total: 4 });
}
