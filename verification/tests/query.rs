use cumulo_web::filters::Filters;
use cumulo_web::ids::Id;
use cumulo_web::query::state::{QueryState, View};
use leptos_router::params::ParamsMap;

fn cid(s: &str) -> Id {
    Id::new(s).unwrap()
}

fn filters(pairs: &[(&str, &str)]) -> Filters {
    let mut f = Filters::new();
    for (r, v) in pairs {
        f.set(cid(r), cid(v));
    }
    f
}

fn params(pairs: &[(&str, &str)]) -> ParamsMap {
    let mut m = ParamsMap::new();
    for (k, v) in pairs {
        m.insert(k.to_string(), v.to_string());
    }
    m
}

fn state(pairs: &[(&str, &str)]) -> QueryState {
    let mut s = QueryState::default();
    s.filters = filters(pairs);
    s
}

fn filter_keys(s: &QueryState) -> Vec<String> {
    (0..s.filters.len())
        .map(|i| s.filters.entry(i).0.as_str().to_string())
        .collect()
}

#[test]
fn mod_round_trips_preserving_order() {
    let s = state(&[("platform", "gcp"), ("env", "prod")]);
    let restored = QueryState::from_params(&s.to_params());
    assert!(restored.same(&s));
    assert_eq!(filter_keys(&restored), vec!["platform", "env"]);
}

#[test]
fn round_trips_view() {
    let mut s = state(&[("platform", "gcp")]);
    s.view = View::MapPage;
    let q = s.to_params();
    assert_eq!(q.get("view").as_deref(), Some("map"));
    assert!(QueryState::from_params(&q).same(&s));
}

#[test]
fn shows_view_even_when_default() {
    let q = QueryState::default().to_params();
    assert_eq!(q.get("view").as_deref(), Some("facet"));
}

#[test]
fn round_trips_zoom_axis() {
    let mut s = state(&[("platform", "gcp")]);
    s.zoom_axis = Some(cid("platform"));
    let q = s.to_params();
    assert_eq!(q.get("zoom_axis").as_deref(), Some("platform"));
    assert!(QueryState::from_params(&q).same(&s));
}

#[test]
fn omits_zoom_axis_when_none() {
    let q = state(&[("platform", "gcp")]).to_params();
    assert_eq!(q.get("zoom_axis"), None);
}

#[test]
fn round_trips_lang() {
    let mut s = QueryState::default();
    s.lang = Some("ja".to_string());
    let q = s.to_params();
    assert_eq!(q.get("lang").as_deref(), Some("ja"));
    assert!(QueryState::from_params(&q).same(&s));
}

#[test]
fn omits_lang_when_none() {
    let q = state(&[("platform", "gcp")]).to_params();
    assert_eq!(q.get("lang"), None);
}

#[test]
fn to_params_uses_field_name_namespace() {
    let q = state(&[("platform", "gcp")]).to_params();
    assert_eq!(q.get("filters.platform").as_deref(), Some("gcp"));
    assert_eq!(q.get("platform"), None);
}

#[test]
fn mod_unprefixed_keys_do_not_become_filters() {
    let q = params(&[("zoom", "region"), ("filters.platform", "gcp")]);
    assert!(QueryState::from_params(&q)
        .filters
        .same(&filters(&[("platform", "gcp")])));
}

#[test]
fn mod_preserves_foreign_params() {
    let q = params(&[("utm_source", "tw"), ("filters.platform", "gcp")]);
    let out = QueryState::from_params(&q).to_params();
    assert_eq!(out.get("utm_source").as_deref(), Some("tw"));
    assert_eq!(out.get("filters.platform").as_deref(), Some("gcp"));
}

#[test]
fn mod_handles_dotted_category_id() {
    let s = state(&[("a.b.c", "x.y")]);
    let q = s.to_params();
    assert_eq!(q.get("filters.a.b.c").as_deref(), Some("x.y"));
    assert!(QueryState::from_params(&q).same(&s));
}

#[test]
fn url_update_is_none_when_url_already_canonical() {
    let mut desired = QueryState::default();
    desired.zoom_axis = Some(cid("platform"));
    assert_eq!(desired.url_update(&desired.to_params(), "/base"), None);
}

#[test]
fn url_update_canonicalizes_bare_url() {
    let mut desired = QueryState::default();
    desired.zoom_axis = Some(cid("platform"));
    let (url, push) = desired
        .url_update(&ParamsMap::new(), "/base")
        .expect("bare URL is rewritten");
    assert_eq!(url, format!("/base{}", desired.to_params().to_query_string()));
    assert!(!push, "view unchanged, so replace (push=false)");
}

#[test]
fn url_update_pushes_when_view_changes() {
    let mut desired = QueryState::default();
    desired.view = View::MapPage;
    let (url, push) = desired.url_update(&ParamsMap::new(), "/b").unwrap();
    assert_eq!(url, "/b?view=map");
    assert!(push);
}

#[test]
fn invalid_query_reads_as_default() {
    let dup = params(&[("view", "map"), ("view", "facet")]);
    assert!(QueryState::from_params(&dup).same(&QueryState::default()));
    let bad_view = params(&[("view", "grid"), ("filters.a", "b")]);
    assert!(QueryState::from_params(&bad_view).same(&QueryState::default()));
    let empty_id = params(&[("filters.a", ""), ("filters.b", "c")]);
    assert!(QueryState::from_params(&empty_id).same(&QueryState::default()));
    let nested_foreign = params(&[("utm.source", "x")]);
    assert!(QueryState::from_params(&nested_foreign).same(&QueryState::default()));
    let scalar_filters = params(&[("filters", "x")]);
    assert!(QueryState::from_params(&scalar_filters).same(&QueryState::default()));
    let empty_axis = params(&[("zoom_axis", "")]);
    assert!(QueryState::from_params(&empty_axis).same(&QueryState::default()));
}

#[test]
fn foreign_keys_come_back_sorted() {
    let q = params(&[("z", "1"), ("a", "2"), ("view", "map")]);
    let out = QueryState::from_params(&q).to_params();
    assert_eq!(out.to_query_string(), "?view=map&a=2&z=1");
}

#[test]
fn resolved_from_fills_default_axis() {
    let q = params(&[("filters.platform", "gcp")]);
    let r = QueryState::resolved_from(&q, &cid("env"));
    assert_eq!(r.zoom_axis.as_ref().map(|z| z.as_str()), Some("env"));
    let q2 = params(&[("zoom_axis", "platform")]);
    let r2 = QueryState::resolved_from(&q2, &cid("env"));
    assert_eq!(r2.zoom_axis.as_ref().map(|z| z.as_str()), Some("platform"));
}

#[test]
fn adopt_url_only_when_state_differs() {
    let q = params(&[("zoom_axis", "platform")]);
    let current = QueryState::resolved_from(&q, &cid("env"));
    assert!(current.adopt_url(&q, &cid("env")).is_none());
    let other = params(&[("zoom_axis", "platform"), ("view", "map")]);
    let next = current.adopt_url(&other, &cid("env")).unwrap();
    assert_eq!(next.view, View::MapPage);
}

#[test]
fn later_filter_value_overwrites_in_place() {
    let q = params(&[("filters.a", "1"), ("filters.b", "2")]);
    let mut m = q.clone();
    m.insert("filters.a".to_string(), "3".to_string());
    let s = QueryState::from_params(&m);
    assert_eq!(filter_keys(&s), vec!["a", "b"]);
    assert_eq!(s.filters.get(&cid("a")).map(|v| v.as_str()), Some("3"));
}

#[test]
fn round_trips_reports_states_that_survive_the_query() {
    assert!(QueryState::default().round_trips());
    let mut s = state(&[("platform", "gcp"), ("env", "prod")]);
    s.view = View::MapPage;
    s.zoom_axis = Some(cid("platform"));
    s.lang = Some("ja".to_string());
    assert!(s.round_trips());
    assert!(state(&[("a.b.c", "x.y")]).round_trips());
}

#[test]
fn round_trips_is_false_when_decoding_changes_a_value() {
    let mut s = QueryState::default();
    s.lang = Some("a%41".to_string());
    assert!(!s.round_trips());
}
