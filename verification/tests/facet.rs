use cumulo_web::facet::{count_of, facet_counts};
use cumulo_web::ids::Id;

fn cid(s: &str) -> Id {
    Id::new(s).unwrap()
}

fn chain(ids: &[&str]) -> Option<Vec<Id>> {
    Some(ids.iter().map(|s| cid(s)).collect())
}

#[test]
fn counts_reach_every_ancestor() {
    let chains = vec![
        chain(&["bigquery", "gcp", "platform"]),
        chain(&["bigtable", "gcp", "platform"]),
        chain(&["s3", "aws", "platform"]),
        None,
    ];
    let counts = facet_counts(&chains);
    assert_eq!(count_of(&counts, &cid("platform")), 3);
    assert_eq!(count_of(&counts, &cid("gcp")), 2);
    assert_eq!(count_of(&counts, &cid("bigquery")), 1);
    assert_eq!(count_of(&counts, &cid("aws")), 1);
    assert_eq!(count_of(&counts, &cid("azure")), 0);
    assert_eq!(counts.len(), 6);
}

#[test]
fn no_resource_on_the_axis_gives_no_counts() {
    assert!(facet_counts(&vec![None, None]).is_empty());
    assert!(facet_counts(&Vec::new()).is_empty());
}

#[test]
fn a_leaf_repeated_in_its_chain_counts_once() {
    let counts = facet_counts(&vec![chain(&["x", "x", "root"])]);
    assert_eq!(count_of(&counts, &cid("x")), 1);
    assert_eq!(count_of(&counts, &cid("root")), 1);
}

#[test]
fn axis_count_is_the_number_of_resources_with_a_value() {
    let chains = vec![
        chain(&["platform"]),
        chain(&["s3", "aws", "platform"]),
        None,
        chain(&["gcp", "platform"]),
    ];
    let counts = facet_counts(&chains);
    assert_eq!(count_of(&counts, &cid("platform")), 3);
}
