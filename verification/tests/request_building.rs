use swarm::config::{Body, HttpMethod, RequestData, Url as TaskUrl};
use swarm::cookies::CookieStore;
use swarm::request::build_request;
use swarm::strutil::replace_all;
use swarm::user::default_request_data;

fn plain_url(url: &str) -> TaskUrl {
    TaskUrl { url: url.to_string(), args: Vec::new() }
}

#[test]
fn replace_all_substitutes_every_occurrence() {
    let out = replace_all("a{x}b{x}c", "{x}", "YY");
    assert_eq!(out, "aYYbYYc");
    let none = replace_all("abc", "{x}", "YY");
    assert_eq!(none, "abc");
}

#[test]
fn simple_get_keeps_its_url() {
    let built = build_request(
        &plain_url("http://host/x"),
        &HttpMethod::GET,
        &default_request_data(),
        &CookieStore::new(),
    )
    .unwrap();
    assert_eq!(built.method, HttpMethod::GET);
    assert_eq!(built.url, "http://host/x");
    assert!(built.headers.is_empty());
    assert!(built.body.is_none());
}

#[test]
fn placeholders_are_filled_from_params() {
    let url = TaskUrl {
        url: "http://host/items/{id}/{kind}".to_string(),
        args: vec!["id".to_string(), "kind".to_string()],
    };
    let data = RequestData {
        params: Some(vec![
            ("id".to_string(), "42".to_string()),
            ("kind".to_string(), "blue".to_string()),
        ]),
        query: None,
        body: None,
        headers: None,
    };
    let built = build_request(&url, &HttpMethod::GET, &data, &CookieStore::new()).unwrap();
    assert_eq!(built.url, "http://host/items/42/blue");
}

#[test]
fn missing_placeholder_values_become_empty() {
    let url = TaskUrl {
        url: "http://host/items/{id}".to_string(),
        args: vec!["id".to_string()],
    };
    let built = build_request(
        &url,
        &HttpMethod::GET,
        &default_request_data(),
        &CookieStore::new(),
    )
    .unwrap();
    assert_eq!(built.url, "http://host/items/");
}

#[test]
fn built_uri_round_trips_to_path_and_query() {
    let url = TaskUrl {
        url: "http://host/items/{id}".to_string(),
        args: vec!["id".to_string()],
    };
    let data = RequestData {
        params: Some(vec![("id".to_string(), "42".to_string())]),
        query: Some(vec![
            ("q".to_string(), "a b".to_string()),
            ("x".to_string(), "1".to_string()),
        ]),
        body: None,
        headers: None,
    };
    let built = build_request(&url, &HttpMethod::GET, &data, &CookieStore::new()).unwrap();
    let parsed = url::Url::parse(&built.url).unwrap();
    assert_eq!(parsed.path(), "/items/42");
    let mut pairs: Vec<(String, String)> = parsed
        .query_pairs()
        .map(|(k, v)| (k.into_owned(), v.into_owned()))
        .collect();
    pairs.sort();
    assert_eq!(
        pairs,
        vec![
            ("q".to_string(), "a b".to_string()),
            ("x".to_string(), "1".to_string()),
        ]
    );
}

#[test]
fn parsing_normalizes_the_url() {
    // The URL parser does real work: scheme and host fold to lower case and
    // the empty path becomes "/".
    let built = build_request(
        &plain_url("HTTP://EXAMPLE.COM"),
        &HttpMethod::GET,
        &default_request_data(),
        &CookieStore::new(),
    )
    .unwrap();
    assert_eq!(built.url, "http://example.com/");
}

#[test]
fn query_pairs_are_form_urlencoded() {
    let data = RequestData {
        params: None,
        query: Some(vec![("q".to_string(), "a b&c".to_string())]),
        body: None,
        headers: None,
    };
    let built = build_request(
        &plain_url("http://host/x"),
        &HttpMethod::GET,
        &data,
        &CookieStore::new(),
    )
    .unwrap();
    assert_eq!(built.url, "http://host/x?q=a+b%26c");
}

#[test]
fn unparsable_template_is_an_error() {
    let r = build_request(
        &plain_url("not a url"),
        &HttpMethod::GET,
        &default_request_data(),
        &CookieStore::new(),
    );
    assert!(r.is_err());
}

#[test]
fn json_body_sets_content_type() {
    let data = RequestData {
        params: None,
        query: None,
        body: Some(Body::Json("{\"k\":1}".to_string())),
        headers: None,
    };
    let built = build_request(
        &plain_url("http://host/x"),
        &HttpMethod::POST,
        &data,
        &CookieStore::new(),
    )
    .unwrap();
    assert_eq!(built.method, HttpMethod::POST);
    assert_eq!(built.body.as_deref(), Some("{\"k\":1}"));
    assert_eq!(
        built.headers,
        vec![("content-type".to_string(), "application/json".to_string())]
    );
}

#[test]
fn text_body_sets_content_type() {
    let data = RequestData {
        params: None,
        query: None,
        body: Some(Body::Text("hello".to_string())),
        headers: None,
    };
    let built = build_request(
        &plain_url("http://host/x"),
        &HttpMethod::PUT,
        &data,
        &CookieStore::new(),
    )
    .unwrap();
    assert_eq!(built.body.as_deref(), Some("hello"));
    assert_eq!(
        built.headers,
        vec![("content-type".to_string(), "text/plain".to_string())]
    );
}

#[test]
fn declared_headers_come_first_in_order() {
    let data = RequestData {
        params: None,
        query: None,
        body: Some(Body::Text("x".to_string())),
        headers: Some(vec![
            ("user-agent".to_string(), "swarm".to_string()),
            ("x-custom".to_string(), "v".to_string()),
        ]),
    };
    let mut cookies = CookieStore::new();
    cookies.store_cookie("sid=abc");
    let built = build_request(
        &plain_url("http://host/x"),
        &HttpMethod::POST,
        &data,
        &cookies,
    )
    .unwrap();
    assert_eq!(
        built.headers,
        vec![
            ("user-agent".to_string(), "swarm".to_string()),
            ("x-custom".to_string(), "v".to_string()),
            ("cookie".to_string(), "sid=abc".to_string()),
            ("content-type".to_string(), "text/plain".to_string()),
        ]
    );
}
