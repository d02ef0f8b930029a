use cumulo_web::filters::Filters;
use cumulo_web::ids::Id;

fn cid(s: &str) -> Id {
    Id::new(s).unwrap()
}

#[test]
fn set_then_get() {
    let mut f = Filters::new();
    f.set(cid("env"), cid("prod"));
    f.set(cid("platform"), cid("gcp"));
    assert_eq!(f.get(&cid("env")).map(|v| v.as_str()), Some("prod"));
    assert_eq!(f.get(&cid("team")), None);
    assert_eq!(f.len(), 2);
}

#[test]
fn set_existing_root_keeps_position() {
    let mut f = Filters::new();
    f.set(cid("env"), cid("prod"));
    f.set(cid("platform"), cid("gcp"));
    f.set(cid("env"), cid("stg"));
    assert_eq!(f.entry(0).0.as_str(), "env");
    assert_eq!(f.entry(0).1.as_str(), "stg");
    assert_eq!(f.len(), 2);
}

#[test]
fn remove_root_and_clear() {
    let mut f = Filters::new();
    f.set(cid("env"), cid("prod"));
    f.set(cid("platform"), cid("gcp"));
    f.remove_root(&cid("env"));
    assert_eq!(f.get(&cid("env")), None);
    assert_eq!(f.get(&cid("platform")).map(|v| v.as_str()), Some("gcp"));
    f.clear();
    assert!(f.is_empty());
}

#[test]
fn empty_id_is_rejected() {
    assert!(Id::new("").is_none());
    assert_eq!(Id::new("a").unwrap().as_str(), "a");
}

#[test]
fn toggle_adds_then_removes() {
    let mut f = Filters::new();
    f.set(cid("env"), cid("prod"));
    f.toggle(cid("platform"), cid("gcp"));
    assert_eq!(f.get(&cid("platform")).map(|v| v.as_str()), Some("gcp"));
    f.toggle(cid("platform"), cid("gcp"));
    assert_eq!(f.get(&cid("platform")), None);
    assert_eq!(f.len(), 1);
}

#[test]
fn toggle_other_value_replaces() {
    let mut f = Filters::new();
    f.set(cid("platform"), cid("gcp"));
    f.toggle(cid("platform"), cid("aws"));
    assert_eq!(f.get(&cid("platform")).map(|v| v.as_str()), Some("aws"));
}

#[test]
fn without_root_leaves_the_filters_intact() {
    let mut f = Filters::new();
    f.set(cid("env"), cid("prod"));
    f.set(cid("platform"), cid("gcp"));
    let g = f.without_root(&cid("env"));
    assert_eq!(g.len(), 1);
    assert_eq!(g.get(&cid("env")), None);
    assert_eq!(f.len(), 2);
}
