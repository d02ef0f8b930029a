use cumulo_web::platform::Platform;

#[test]
fn normalize_base_strips_trailing_slash() {
    assert_eq!(Platform::normalize_base(Some("/cumulo/")), "/cumulo");
}

#[test]
fn normalize_base_keeps_path_without_slash() {
    assert_eq!(Platform::normalize_base(Some("/cumulo")), "/cumulo");
}

#[test]
fn normalize_base_is_empty_for_local_unset_or_root() {
    assert_eq!(Platform::normalize_base(None), "");
    assert_eq!(Platform::normalize_base(Some("")), "");
    assert_eq!(Platform::normalize_base(Some("/")), "");
}

#[test]
fn join_base_prefixes_base_onto_absolute_path() {
    assert_eq!(Platform::join_base("/cumulo", "/facet"), "/cumulo/facet");
    assert_eq!(Platform::join_base("/cumulo", "/"), "/cumulo/");
}

#[test]
fn join_base_keeps_route_without_base() {
    assert_eq!(Platform::join_base("", "/facet"), "/facet");
    assert_eq!(Platform::join_base("", "/"), "/");
}

#[test]
fn normalize_base_strips_every_trailing_slash() {
    assert_eq!(Platform::normalize_base(Some("/a//")), "/a");
    assert_eq!(Platform::normalize_base(Some("//")), "");
}

#[test]
fn href_joins_the_configured_base() {
    assert_eq!(Platform::href(Some("/cumulo/"), "/map"), "/cumulo/map");
    assert_eq!(Platform::href(None, "/map"), "/map");
    assert_eq!(Platform::router_base(Some("/x/")), "/x");
}

#[test]
fn fresh_ids_are_prefixed_hex() {
    assert_eq!(Platform::node_id_from(255).as_str(), "nodeff");
    assert_eq!(Platform::node_id_from(0).as_str(), "node0");
    assert_eq!(Platform::resource_id_from(0x1a2b).as_str(), "r1a2b");
}

#[test]
fn palette_colour_clamps_index() {
    assert_eq!(Platform::palette_color(0).to_hex(), "#ef4444");
    assert_eq!(Platform::palette_color(15).to_hex(), "#f43f5e");
    assert_eq!(Platform::palette_color(99).to_hex(), "#f43f5e");
}
