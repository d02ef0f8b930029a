use cumulo_web::color::Color;
use cumulo_web::ids::Id;
use cumulo_web::filters::Filters;
use cumulo_web::layout::{build_tree, max_depth, truncate_label, zoom_path, CategoryInfo, Item, MapNode, PathSeg};

fn cid(s: &str) -> Id {
    Id::new(s).unwrap()
}

/// (id, label, parent, colour) of the test taxonomy.
const NODES: [(&str, &str, Option<&str>, &str); 6] = [
    ("platform", "Platform", None, "#111111"),
    ("gcp", "GCP", Some("platform"), "#22aa22"),
    ("bigquery", "BigQuery", Some("gcp"), "#3333ff"),
    ("bigtable", "Bigtable", Some("gcp"), "#33ccff"),
    ("aws", "AWS", Some("platform"), "#ff9900"),
    ("s3", "S3", Some("aws"), "#ee5555"),
];

fn taxonomy() -> Vec<CategoryInfo> {
    NODES
        .iter()
        .map(|(id, label, _, color)| CategoryInfo {
            id: cid(id),
            label: label.to_string(),
            color: Color::from_hex(color),
        })
        .collect()
}

/// The category and its ancestors, the category first.
fn ancestry(leaf: &str) -> Vec<Id> {
    let mut out = vec![cid(leaf)];
    let mut cur = leaf;
    while let Some((_, _, Some(parent), _)) = NODES.iter().find(|n| n.0 == cur) {
        out.push(cid(parent));
        cur = parent;
    }
    out
}

fn res(tax: &Vec<CategoryInfo>, id: &str, categories: &[&str], freq: u32) -> Item {
    let chain = categories.first().map(|c| ancestry(c));
    Item::new(tax, cid(id), None, &chain, freq)
}

fn first_cluster(tree: &[MapNode]) -> &cumulo_web::layout::Cluster {
    match &tree[0] {
        MapNode::Cluster(c) => c,
        MapNode::Resource(_) => panic!("expected cluster"),
    }
}

#[test]
fn zoom_path_excludes_axis_root_and_orders_top_down() {
    let chain = Some(ancestry("bigquery"));
    assert_eq!(
        zoom_path(&chain),
        vec![PathSeg::Category(cid("gcp")), PathSeg::Category(cid("bigquery"))]
    );
}

#[test]
fn zoom_path_without_value_is_other() {
    assert_eq!(zoom_path(&None), vec![PathSeg::Other]);
}

#[test]
fn build_groups_resources_under_shared_ancestors() {
    let tax = taxonomy();
    let items = vec![
        res(&tax, "r1", &["bigquery"], 1),
        res(&tax, "r2", &["bigtable"], 1),
        res(&tax, "r3", &["s3"], 1),
    ];
    let tree = build_tree(&tax, &cid("platform"), items);
    let top_keys: Vec<&PathSeg> = tree
        .iter()
        .filter_map(|n| match n {
            MapNode::Cluster(c) => Some(&c.key),
            _ => None,
        })
        .collect();
    assert!(top_keys.contains(&&PathSeg::Category(cid("gcp"))));
    assert!(top_keys.contains(&&PathSeg::Category(cid("aws"))));
    assert_eq!(top_keys.len(), 2);
}

#[test]
fn cluster_carries_label_and_color() {
    let tax = taxonomy();
    let tree = build_tree(&tax, &cid("platform"), vec![res(&tax, "r1", &["bigquery"], 1)]);
    let gcp = first_cluster(&tree);
    assert_eq!(gcp.label, "GCP");
    assert_eq!(gcp.color, "#22aa22");
    assert_eq!(gcp.leaf_count, 1);
}

#[test]
fn cluster_drill_target_is_axis_and_value() {
    let tax = taxonomy();
    let tree = build_tree(&tax, &cid("platform"), vec![res(&tax, "r1", &["bigquery"], 1)]);
    let gcp = first_cluster(&tree);
    assert_eq!(gcp.drill_target(), Some((cid("platform"), cid("gcp"))));
}

#[test]
fn other_cluster_has_no_drill_target() {
    let tax = taxonomy();
    let tree = build_tree(&tax, &cid("platform"), vec![res(&tax, "r1", &[], 1)]);
    let other = first_cluster(&tree);
    assert_eq!(other.key, PathSeg::Other);
    assert_eq!(other.drill_target(), None);
    assert!(!other.is_drillable());
}

#[test]
fn category_cluster_is_drillable() {
    let tax = taxonomy();
    let tree = build_tree(&tax, &cid("platform"), vec![res(&tax, "r1", &["bigquery"], 1)]);
    assert!(first_cluster(&tree).is_drillable());
}

#[test]
fn empty_resources_produce_empty_tree() {
    let tax = taxonomy();
    let tree = build_tree(&tax, &cid("platform"), Vec::new());
    assert!(tree.is_empty());
}

#[test]
fn tree_nests_leaf_clusters_and_counts_weights() {
    let tax = taxonomy();
    let items = vec![
        res(&tax, "r1", &["bigquery"], 3),
        res(&tax, "r2", &["bigquery"], 0),
        res(&tax, "r3", &["bigtable"], 2),
        res(&tax, "r4", &[], 5),
    ];
    assert_eq!(max_depth(&items), 2);
    let tree = build_tree(&tax, &cid("platform"), items);
    assert_eq!(tree.len(), 2);
    let gcp = first_cluster(&tree);
    assert_eq!(gcp.total_freq, 6);
    assert_eq!(gcp.leaf_count, 3);
    assert_eq!(gcp.depth, 0);
    assert_eq!(gcp.sub_nodes.len(), 2);
    let bigquery = first_cluster(&gcp.sub_nodes);
    assert_eq!(bigquery.label, "BigQuery");
    assert_eq!(bigquery.color, "#3333ff");
    assert_eq!(bigquery.depth, 1);
    assert_eq!(bigquery.leaf_count, 2);
    assert_eq!(tree[0].max_resource_child_count(), 2);
    let mut ids = Vec::new();
    tree[0].collect_resource_ids(&mut ids);
    assert_eq!(ids, vec![cid("r1"), cid("r2"), cid("r3")]);
    match &tree[1] {
        MapNode::Cluster(c) => {
            assert_eq!(c.key, PathSeg::Other);
            assert_eq!(c.label, "");
            assert_eq!(c.color, "#6b8099");
            assert_eq!(c.total_freq, 5);
        }
        MapNode::Resource(_) => panic!("expected cluster"),
    }
}

#[test]
fn item_falls_back_to_identifier_and_default_colour() {
    let tax = taxonomy();
    let it = Item::new(&tax, cid("r9"), None, &None, 0);
    assert_eq!(it.label, "r9");
    assert_eq!(it.color, "#6b8099");
    assert_eq!(it.freq, 1);
    let labelled = Item::new(&tax, cid("r9"), Some("Nine".to_string()), &Some(ancestry("s3")), 4);
    assert_eq!(labelled.label, "Nine");
    assert_eq!(labelled.color, "#ee5555");
    assert_eq!(labelled.freq, 4);
}

#[test]
fn long_labels_are_cut_with_an_ellipsis() {
    assert_eq!(truncate_label("short"), "short");
    assert_eq!(truncate_label("exactly12chr"), "exactly12chr");
    assert_eq!(truncate_label("thirteen-char"), "thirteen-ch\u{2026}");
    assert_eq!(truncate_label("ベクトル検索のインデックス"), "ベクトル検索のインデッ\u{2026}");
}

#[test]
fn drilling_into_a_cluster_sets_its_filter() {
    let tax = taxonomy();
    let tree = build_tree(&tax, &cid("platform"), vec![res(&tax, "r1", &["bigquery"], 1), res(&tax, "r2", &[], 1)]);
    let mut f = Filters::new();
    first_cluster(&tree).drill_into(&mut f);
    assert_eq!(f.get(&cid("platform")), Some(&cid("gcp")));
    let other = match &tree[1] {
        MapNode::Cluster(c) => c,
        MapNode::Resource(_) => panic!("expected cluster"),
    };
    other.drill_into(&mut f);
    assert_eq!(f.len(), 1);
}
