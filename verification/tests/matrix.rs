use cumulo_web::filters::Filters;
use cumulo_web::ids::Id;
use cumulo_web::matrix::{choose_axes, max_count, toggle_expanded, CellSel};

fn cid(s: &str) -> Id {
    Id::new(s).unwrap()
}

fn cell(row: (&str, &str), col: (&str, &str)) -> CellSel {
    CellSel {
        row: Some((cid(row.0), cid(row.1))),
        col: Some((cid(col.0), cid(col.1))),
    }
}

fn filters(pairs: &[(&str, &str)]) -> Filters {
    let mut f = Filters::new();
    for (r, v) in pairs {
        f.set(cid(r), cid(v));
    }
    f
}

#[test]
fn is_cell_matches_only_when_both_values_equal() {
    let sel = cell(("env", "prod"), ("platform", "gcp"));
    assert!(sel.is_cell(&cid("prod"), &cid("gcp")));
    assert!(!sel.is_cell(&cid("prod"), &cid("aws")));
    assert!(!sel.is_cell(&cid("stg"), &cid("gcp")));
}

#[test]
fn is_cell_is_false_for_row_or_column_only_selection() {
    let row_only = CellSel {
        row: Some((cid("env"), cid("prod"))),
        col: None,
    };
    assert!(!row_only.is_cell(&cid("prod"), &cid("gcp")));
}

#[test]
fn compose_sets_both_axes_for_a_cell_and_keeps_unrelated_base() {
    let axes = (cid("env"), cid("platform"));
    let base = filters(&[("team", "data")]);
    let f = cell(("env", "prod"), ("platform", "gcp")).compose(&base, Some(&axes));
    assert_eq!(f.get(&cid("team")), Some(&cid("data")));
    assert_eq!(f.get(&cid("env")), Some(&cid("prod")));
    assert_eq!(f.get(&cid("platform")), Some(&cid("gcp")));
}

#[test]
fn compose_row_only_selection_clears_the_column_axis() {
    let axes = (cid("env"), cid("platform"));
    let base = filters(&[("platform", "aws")]);
    let sel = CellSel {
        row: Some((cid("env"), cid("prod"))),
        col: None,
    };
    let f = sel.compose(&base, Some(&axes));
    assert_eq!(f.get(&cid("env")), Some(&cid("prod")));
    assert_eq!(f.get(&cid("platform")), None);
}

#[test]
fn compose_total_selection_clears_both_axes() {
    let axes = (cid("env"), cid("platform"));
    let base = filters(&[("env", "prod"), ("platform", "gcp")]);
    let sel = CellSel { row: None, col: None };
    let f = sel.compose(&base, Some(&axes));
    assert_eq!(f.get(&cid("env")), None);
    assert_eq!(f.get(&cid("platform")), None);
    assert!(f.is_empty());
}

#[test]
fn compose_without_axes_keeps_base() {
    let base = filters(&[("env", "prod")]);
    let sel = CellSel { row: None, col: Some((cid("platform"), cid("gcp"))) };
    let f = sel.compose(&base, None);
    assert_eq!(f.get(&cid("env")), Some(&cid("prod")));
    assert_eq!(f.get(&cid("platform")), Some(&cid("gcp")));
}

#[test]
fn toggle_opens_and_closes() {
    assert_eq!(toggle_expanded(&None, &cid("a")), Some(cid("a")));
    assert_eq!(toggle_expanded(&Some(cid("a")), &cid("a")), None);
    assert_eq!(toggle_expanded(&Some(cid("a")), &cid("b")), Some(cid("b")));
}

#[test]
fn axes_default_to_first_two_roots() {
    let roots = vec![cid("env"), cid("platform"), cid("team")];
    assert_eq!(choose_axes(&roots, &None, &None), Some((cid("env"), cid("platform"))));
    assert_eq!(
        choose_axes(&roots, &Some((cid("team"), true)), &Some((cid("bogus"), false))),
        Some((cid("team"), cid("platform")))
    );
    assert_eq!(choose_axes(&vec![cid("env")], &None, &None), Some((cid("env"), cid("env"))));
    assert_eq!(choose_axes(&vec![], &None, &None), None);
}

#[test]
fn max_count_scans_every_cell() {
    assert_eq!(max_count(&vec![vec![1, 4, 2], vec![3, 0, 7], vec![]]), 7);
    assert_eq!(max_count(&vec![vec![0, 0]]), 0);
    assert_eq!(max_count(&Vec::new()), 0);
}
