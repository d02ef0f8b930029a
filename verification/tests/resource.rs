use cumulo_web::ids::Id;
use cumulo_web::resource::{parse_freq, resource_label, rows, upsert_position, DimTreeItem, FlatNode, ResourceAttribute};

fn cid(s: &str) -> Id {
    Id::new(s).unwrap()
}

fn node(id: &str, depth: usize, has_children: bool, parent: &str) -> FlatNode {
    FlatNode {
        id: cid(id),
        label: id.to_uppercase(),
        color: String::new(),
        depth,
        has_children,
        parent: cid(parent),
    }
}

#[test]
fn sibling_leaves_share_a_row() {
    let flat = vec![
        node("gcp", 0, true, "platform"),
        node("bigquery", 1, false, "gcp"),
        node("bigtable", 1, false, "gcp"),
        node("aws", 0, true, "platform"),
        node("s3", 1, false, "aws"),
        node("onprem", 0, false, "platform"),
    ];
    let r = rows(&flat);
    assert_eq!(r.len(), 5);
    match &r[0] {
        DimTreeItem::Branch { id, label, depth, .. } => {
            assert_eq!(id, &cid("gcp"));
            assert_eq!(label, "GCP");
            assert_eq!(*depth, 0);
        }
        other => panic!("unexpected {other:?}"),
    }
    match &r[1] {
        DimTreeItem::Leaves { depth, nodes } => {
            assert_eq!(*depth, 1);
            let ids: Vec<&str> = nodes.iter().map(|n| n.0.as_str()).collect();
            assert_eq!(ids, vec!["bigquery", "bigtable"]);
        }
        other => panic!("unexpected {other:?}"),
    }
    match &r[4] {
        DimTreeItem::Leaves { nodes, .. } => assert_eq!(nodes.len(), 1),
        other => panic!("unexpected {other:?}"),
    }
}

#[test]
fn leaves_of_different_parents_split_rows() {
    let flat = vec![node("a", 1, false, "p"), node("b", 1, false, "q"), node("c", 1, false, "q")];
    let r = rows(&flat);
    assert_eq!(r.len(), 2);
    assert!(rows(&Vec::new()).is_empty());
}

#[test]
fn blank_labels_are_not_saved() {
    assert_eq!(resource_label("   ".to_string()), None);
    assert_eq!(resource_label(String::new()), None);
    assert_eq!(resource_label(" db ".to_string()), Some(" db ".to_string()));
}

#[test]
fn frequency_reads_like_u32() {
    assert_eq!(parse_freq("42"), Some(42));
    assert_eq!(parse_freq("+7"), Some(7));
    assert_eq!(parse_freq("0"), Some(0));
    assert_eq!(parse_freq("4294967295"), Some(u32::MAX));
    assert_eq!(parse_freq("4294967296"), None);
    assert_eq!(parse_freq("99999999999x"), None);
    assert_eq!(parse_freq(""), None);
    assert_eq!(parse_freq("+"), None);
    assert_eq!(parse_freq("-1"), None);
    assert_eq!(parse_freq("1 2"), None);
    for s in ["42", "+7", "", "-1", "4294967296", "007"] {
        assert_eq!(parse_freq(s), s.parse::<u32>().ok());
    }
}

#[test]
fn default_attribute_is_empty() {
    let a = ResourceAttribute::default();
    assert_eq!(a.console_url, "");
    assert_eq!(a.created_at, None);
    assert_eq!(a.freq, 0);
}

#[test]
fn upsert_position_finds_the_first_same_id_or_none() {
    let id = |s: &str| Id::new(s).unwrap();
    let ids = vec![id("a"), id("b"), id("c"), id("b")];
    assert_eq!(upsert_position(&ids, &id("b")), Some(1));
    assert_eq!(upsert_position(&ids, &id("a")), Some(0));
    assert_eq!(upsert_position(&ids, &id("z")), None);
    assert_eq!(upsert_position(&Vec::new(), &id("a")), None);
}
