use swarm::config::HttpMethod;
use swarm::config::Url as TaskUrl;
use swarm::cookies::CookieStore;
use swarm::request::build_request;
use swarm::user::default_request_data;

#[test]
fn same_set_cookie_twice_keeps_one_entry() {
    let mut cs = CookieStore::new();
    cs.store_cookie("sid=abc");
    cs.store_cookie("sid=abc");
    assert_eq!(cs.entries.len(), 1);
    assert_eq!(cs.cookie_header(), "sid=abc");
}

#[test]
fn same_name_overwrites() {
    let mut cs = CookieStore::new();
    cs.store_cookie("sid=abc");
    cs.store_cookie("sid=xyz");
    assert_eq!(cs.entries.len(), 1);
    assert_eq!(cs.cookie_header(), "sid=xyz");
}

#[test]
fn different_names_accumulate_in_order() {
    let mut cs = CookieStore::new();
    cs.store_cookies(&vec!["a=1".to_string(), "b=2".to_string()]);
    assert_eq!(cs.entries.len(), 2);
    assert_eq!(cs.cookie_header(), "a=1; b=2");
}

#[test]
fn value_without_equals_is_filed_under_itself() {
    let mut cs = CookieStore::new();
    cs.store_cookie("bare");
    assert_eq!(cs.entries.len(), 1);
    assert_eq!(cs.entries[0].0, "bare");
    assert_eq!(cs.cookie_header(), "bare");
}

#[test]
fn cookie_name_stops_at_first_equals() {
    let mut cs = CookieStore::new();
    cs.store_cookie("k=v=w");
    assert_eq!(cs.entries[0].0, "k");
    assert_eq!(cs.entries[0].1, "k=v=w");
}

#[test]
fn second_request_carries_the_stored_cookie() {
    // A stub set "sid=abc" on its first response: the next request must
    // synthesise a cookie header carrying it.
    let mut cs = CookieStore::new();
    assert!(cs.is_empty());
    cs.store_cookies(&vec!["sid=abc".to_string()]);
    assert!(!cs.is_empty());
    let built = build_request(
        &TaskUrl { url: "http://host/x".to_string(), args: Vec::new() },
        &HttpMethod::GET,
        &default_request_data(),
        &cs,
    )
    .unwrap();
    assert_eq!(
        built.headers,
        vec![("cookie".to_string(), "sid=abc".to_string())]
    );
}
