use vstd::prelude::*;

use crate::config::{Body, HttpMethod, RequestData, Url};
use crate::cookies::{cookie_wf, join_values, store_view, CookieStore};
use crate::strutil::{pairs_view, spec_interpolate};

verus! {

/// What url::Url::parse makes of an input string: `None` when the string is
/// no URL, otherwise the parsed URL reserialized to its normalized form.
pub uninterp spec fn url_normalize(s: Seq<char>) -> Option<Seq<char>>;

/// What url::Url::parse_with_params makes of an input string and ordered
/// query pairs: `None` when the string is no URL, otherwise the normalized
/// URL with the pairs appended to its query, form-urlencoded.
pub uninterp spec fn url_with_query(s: Seq<char>, q: Seq<(Seq<char>, Seq<char>)>) -> Option<
    Seq<char>,
>;

/// Relies on url::Url::parse: parsing is a pure function of the input
/// string, and a parsed URL reserializes through Display to its normalized
/// form.
#[verifier::external_body]
fn parse_url(s: &str) -> (r: Option<String>)
    ensures
        r is Some <==> url_normalize(s@) is Some,
        r is Some ==> r.unwrap()@ == url_normalize(s@).unwrap(),
{
    match url::Url::parse(s) {
        Ok(u) => Some(u.to_string()),
        Err(_) => None,
    }
}

/// Relies on url::Url::parse_with_params: parsing and then appending the
/// given query pairs in their order is a pure function of the inputs.
#[verifier::external_body]
fn parse_url_with_params(s: &str, q: &Vec<(String, String)>) -> (r: Option<String>)
    ensures
        r is Some <==> url_with_query(s@, pairs_view(q@)) is Some,
        r is Some ==> r.unwrap()@ == url_with_query(s@, pairs_view(q@)).unwrap(),
{
    match url::Url::parse_with_params(s, q.iter().map(|p| (&p.0, &p.1))) {
        Ok(u) => Some(u.to_string()),
        Err(_) => None,
    }
}

/// A fully assembled request, ready for a client to dispatch: the concrete
/// URL, the ordered header list and the body, as plain strings.
pub struct BuiltRequest {
    pub method: HttpMethod,
    pub url: String,
    pub headers: Vec<(String, String)>,
    pub body: Option<String>,
}

/// The placeholder values a parameter set supplies (none means an empty
/// mapping).
pub open spec fn params_view(data: RequestData) -> Seq<(Seq<char>, Seq<char>)> {
    match data.params {
        Some(ps) => pairs_view(ps@),
        None => Seq::empty(),
    }
}

/// The concrete URL a request resolves to: the interpolated template,
/// parsed, with the query pairs appended when a query mapping is supplied.
/// `None` when the interpolated template is no URL.
pub open spec fn spec_final_url(url_details: Url, data: RequestData) -> Option<Seq<char>> {
    let interp = spec_interpolate(
        url_details.url@,
        crate::cookies::strs_view(url_details.args@),
        params_view(data),
    );
    match data.query {
        Some(q) => url_with_query(interp, pairs_view(q@)),
        None => url_normalize(interp),
    }
}

/// The headers a request carries: the supplied headers in order, then a
/// synthesised `cookie` header when the jar is non-empty, then the
/// `content-type` the body implies.
pub open spec fn spec_headers(data: RequestData, cookies: CookieStore) -> Seq<
    (Seq<char>, Seq<char>),
> {
    let base = match data.headers {
        Some(h) => pairs_view(h@),
        None => Seq::<(Seq<char>, Seq<char>)>::empty(),
    };
    let with_cookie = if store_view(cookies).len() > 0 {
        base.push(("cookie"@, join_values(store_view(cookies), "; "@)))
    } else {
        base
    };
    match data.body {
        Some(Body::Json(_)) => with_cookie.push(("content-type"@, "application/json"@)),
        Some(Body::Text(_)) => with_cookie.push(("content-type"@, "text/plain"@)),
        None => with_cookie,
    }
}

/// The body a request carries, when the parameter set supplies one.
pub open spec fn spec_body(data: RequestData) -> Option<Seq<char>> {
    match data.body {
        Some(Body::Json(s)) => Some(s@),
        Some(Body::Text(s)) => Some(s@),
        None => None,
    }
}

/// The view of an optional owned string.
pub open spec fn opt_str_view(o: Option<String>) -> Option<Seq<char>> {
    match o {
        Some(s) => Some(s@),
        None => None,
    }
}

/// Assemble one request from its template, parameter set and cookie jar:
/// interpolate the URL template, append the query, and collect headers and
/// body. Fails exactly when the interpolated template does not parse as a
/// URL.
pub fn build_request(
    url_details: &Url,
    method: &HttpMethod,
    data: &RequestData,
    cookies_store: &CookieStore,
) -> (r: Result<BuiltRequest, String>)
    requires
        cookie_wf(*cookies_store),
    ensures
        r is Ok <==> spec_final_url(*url_details, *data) is Some,
        r is Ok ==> {
            let b = r.unwrap();
            &&& b.method == *method
            &&& b.url@ == spec_final_url(*url_details, *data).unwrap()
            &&& pairs_view(b.headers@) == spec_headers(*data, *cookies_store)
            &&& opt_str_view(b.body) == spec_body(*data)
        },
{
    let interpolated = crate::strutil::interpolate(
        url_details.url.as_str(),
        &url_details.args,
        &data.params,
    );
    let parsed: Option<String> = match &data.query {
        Some(q) => parse_url_with_params(interpolated.as_str(), q),
        None => parse_url(interpolated.as_str()),
    };
    match parsed {
        None => Err(String::new().concat("request url does not parse")),
        Some(final_url) => {
            let mut headers: Vec<(String, String)> = Vec::new();
            match &data.headers {
                Some(hs) => {
                    let n = hs.len();
                    proof {
                        assert(pairs_view(headers@) =~= pairs_view(hs@).take(0));
                    }
                    let mut l: usize = 0;
                    while l < n
                        invariant
                            n == hs@.len(),
                            0 <= l <= n,
                            headers@.len() == l,
                            pairs_view(headers@) == pairs_view(hs@).take(l as int),
                        decreases n - l,
                    {
                        let key = hs[l].0.clone();
                        let value = hs[l].1.clone();
                        headers.push((key, value));
                        proof {
                            assert(pairs_view(headers@) =~~= pairs_view(hs@).take(l as int + 1));
                        }
                        l = l + 1;
                    }
                    proof {
                        assert(pairs_view(hs@).take(n as int) =~= pairs_view(hs@));
                    }
                },
                None => {
                    proof {
                        assert(pairs_view(headers@) =~= Seq::<(Seq<char>, Seq<char>)>::empty());
                    }
                },
            }
            let ghost base = pairs_view(headers@);
            if !cookies_store.is_empty() {
                let cookie_value = cookies_store.cookie_header();
                let mut cookie_key = String::new();
                cookie_key.append("cookie");
                headers.push((cookie_key, cookie_value));
                proof {
                    assert(pairs_view(headers@) =~= base.push(
                        ("cookie"@, join_values(store_view(*cookies_store), "; "@)),
                    ));
                }
            }
            let ghost with_cookie = pairs_view(headers@);
            let body: Option<String> = match &data.body {
                Some(b) => {
                    match b {
                        Body::Json(content) => {
                            let mut k = String::new();
                            k.append("content-type");
                            let mut v = String::new();
                            v.append("application/json");
                            headers.push((k, v));
                            proof {
                                assert(pairs_view(headers@) =~= with_cookie.push(
                                    ("content-type"@, "application/json"@),
                                ));
                            }
                            Some(content.clone())
                        },
                        Body::Text(content) => {
                            let mut k = String::new();
                            k.append("content-type");
                            let mut v = String::new();
                            v.append("text/plain");
                            headers.push((k, v));
                            proof {
                                assert(pairs_view(headers@) =~= with_cookie.push(
                                    ("content-type"@, "text/plain"@),
                                ));
                            }
                            Some(content.clone())
                        },
                    }
                },
                None => None,
            };
            Ok(BuiltRequest { method: *method, url: final_url, headers, body })
        },
    }
}

} // verus!
