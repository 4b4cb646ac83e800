//! The request routing of the query server: which operation a request's
//! method and path select.
use vstd::prelude::*;
use crate::lexical::starts_with_text;
use crate::text::{chars_of, decimal, push_decimal, push_str, string_of};

verus! {

/// The HTTP methods the server tells apart.
#[derive(Debug, Clone, Copy, PartialEq, Eq, Structural)]
pub enum HttpMethod {
    /// `GET`.
    Get,
    /// `POST`.
    Post,
    /// `OPTIONS`, a CORS preflight.
    Options,
    /// Any other method.
    Other,
}

/// What the server does with a request.
#[derive(Debug, Clone, Copy, PartialEq, Eq, Structural)]
pub enum Route {
    /// Answer a CORS preflight with an empty body.
    Preflight,
    /// Load Turtle from the body (`POST /load`).
    Load,
    /// Run an ASK query from the body (`POST /ask`).
    Ask,
    /// Run a SELECT query from the body (`POST /select`).
    Select,
    /// Report the store's size (`GET` or `POST /stats`).
    Stats,
    /// Empty the store (`POST /clear`).
    Clear,
    /// Report health (`GET /health`).
    Health,
    /// Not found.
    NotFound,
}

/// The route of a request: any `OPTIONS` request is a preflight; otherwise
/// the method and the exact path decide, and anything else is not found.
pub open spec fn route_spec(method: HttpMethod, path: Seq<char>) -> Route {
    if method == HttpMethod::Options {
        Route::Preflight
    } else if method == HttpMethod::Post && path == "/load"@ {
        Route::Load
    } else if method == HttpMethod::Post && path == "/ask"@ {
        Route::Ask
    } else if method == HttpMethod::Post && path == "/select"@ {
        Route::Select
    } else if (method == HttpMethod::Get || method == HttpMethod::Post) && path == "/stats"@ {
        Route::Stats
    } else if method == HttpMethod::Post && path == "/clear"@ {
        Route::Clear
    } else if method == HttpMethod::Get && path == "/health"@ {
        Route::Health
    } else {
        Route::NotFound
    }
}

/// Whether the text `s` is exactly `lit`.
fn is_text(s: &[char], lit: &str) -> (r: bool)
    ensures
        r == (s@ == lit@),
{
    let l = chars_of(lit);
    if l.len() != s.len() {
        return false;
    }
    let r = starts_with_text(s, lit);
    assert(r ==> s@ =~= lit@);
    r
}

/// Selects the operation for a request from its method and path.
pub fn route(method: HttpMethod, path: &str) -> (r: Route)
    ensures
        r == route_spec(method, path@),
{
    let p = chars_of(path);
    let p = p.as_slice();
    match method {
        HttpMethod::Options => Route::Preflight,
        HttpMethod::Post => {
            if is_text(p, "/load") {
                Route::Load
            } else if is_text(p, "/ask") {
                Route::Ask
            } else if is_text(p, "/select") {
                Route::Select
            } else if is_text(p, "/stats") {
                Route::Stats
            } else if is_text(p, "/clear") {
                Route::Clear
            } else {
                Route::NotFound
            }
        },
        HttpMethod::Get => {
            if is_text(p, "/stats") {
                Route::Stats
            } else if is_text(p, "/health") {
                Route::Health
            } else {
                Route::NotFound
            }
        },
        HttpMethod::Other => Route::NotFound,
    }
}

/// The CORS headers every response carries: any origin, the methods `GET`,
/// `POST` and `OPTIONS`, and the `Content-Type` request header.
pub open spec fn cors_spec() -> Seq<(Seq<char>, Seq<char>)> {
    seq![
        ("Access-Control-Allow-Origin"@, "*"@),
        ("Access-Control-Allow-Methods"@, "GET, POST, OPTIONS"@),
        ("Access-Control-Allow-Headers"@, "Content-Type"@),
    ]
}

/// The CORS headers, as name and value.
pub fn cors_headers() -> (r: Vec<(String, String)>)
    ensures
        r@.map_values(|h: (String, String)| (h.0@, h.1@)) == cors_spec(),
{
    let mut r: Vec<(String, String)> = Vec::new();
    r.push(("Access-Control-Allow-Origin".to_owned(), "*".to_owned()));
    r.push(("Access-Control-Allow-Methods".to_owned(), "GET, POST, OPTIONS".to_owned()));
    r.push(("Access-Control-Allow-Headers".to_owned(), "Content-Type".to_owned()));
    assert(r@.map_values(|h: (String, String)| (h.0@, h.1@)) =~= cors_spec());
    r
}

/// How a response is made, besides the CORS headers it always carries: its
/// status, whether it declares a JSON body (`Content-Type:
/// application/json`), and its body where the route fixes it (`None` where
/// the operation's result is the body).
pub struct ResponsePlan {
    /// The HTTP status code.
    pub status: u16,
    /// Whether the response declares a JSON body.
    pub json: bool,
    /// The body, where the route fixes it.
    pub body: Option<String>,
}

/// The body a route fixes, if any.
pub open spec fn plan_body(p: ResponsePlan) -> Option<Seq<char>> {
    match p.body {
        Some(b) => Some(b@),
        None => None,
    }
}

/// The query server's response to each route: a preflight is 200 with an
/// empty body; the operations are 200 with their JSON result as the body;
/// health is 200 with a fixed status text; anything else is 404 with a
/// fixed error text.
pub open spec fn plan_spec(r: Route) -> (u16, bool, Option<Seq<char>>) {
    match r {
        Route::Preflight => (200, false, Some(""@)),
        Route::Health => (200, false, Some("{\"status\":\"healthy\",\"backend\":\"rust-kgdb\"}"@)),
        Route::NotFound => (404, false, Some("{\"error\":\"Not found\"}"@)),
        _ => (200, true, None),
    }
}

/// How the query server answers a route.
pub fn response_plan(r: Route) -> (p: ResponsePlan)
    ensures
        (p.status, p.json, plan_body(p)) == plan_spec(r),
{
    match r {
        Route::Preflight => ResponsePlan { status: 200, json: false, body: Some("".to_owned()) },
        Route::Health => ResponsePlan {
            status: 200,
            json: false,
            body: Some("{\"status\":\"healthy\",\"backend\":\"rust-kgdb\"}".to_owned()),
        },
        Route::NotFound => ResponsePlan { status: 404, json: false, body: Some("{\"error\":\"Not found\"}".to_owned()) },
        _ => ResponsePlan { status: 200, json: true, body: None },
    }
}

/// What the browser-facing server does with a request.
#[derive(Debug, Clone, Copy, PartialEq, Eq, Structural)]
pub enum ApiRoute {
    /// Answer a CORS preflight with an empty body.
    Preflight,
    /// Report health and the store's size (`GET /health`).
    Health,
    /// Report the store's size (`GET /api/stats`).
    Stats,
    /// Empty the store (`POST /api/clear`).
    Clear,
    /// Load Turtle from the body (`POST /api/load`).
    Load,
    /// Run an ASK query from the body (`POST /api/ask`).
    Ask,
    /// Run a SELECT query from the body (`POST /api/select`).
    Select,
    /// Not found.
    NotFound,
}

/// The route of a request to the browser-facing server: any `OPTIONS`
/// request is a preflight; otherwise the method and the exact path decide.
pub open spec fn api_route_spec(method: HttpMethod, path: Seq<char>) -> ApiRoute {
    if method == HttpMethod::Options {
        ApiRoute::Preflight
    } else if method == HttpMethod::Get && path == "/health"@ {
        ApiRoute::Health
    } else if method == HttpMethod::Get && path == "/api/stats"@ {
        ApiRoute::Stats
    } else if method == HttpMethod::Post && path == "/api/clear"@ {
        ApiRoute::Clear
    } else if method == HttpMethod::Post && path == "/api/load"@ {
        ApiRoute::Load
    } else if method == HttpMethod::Post && path == "/api/ask"@ {
        ApiRoute::Ask
    } else if method == HttpMethod::Post && path == "/api/select"@ {
        ApiRoute::Select
    } else {
        ApiRoute::NotFound
    }
}

/// Selects the operation of the browser-facing server for a request.
pub fn api_route(method: HttpMethod, path: &str) -> (r: ApiRoute)
    ensures
        r == api_route_spec(method, path@),
{
    let p = chars_of(path);
    let p = p.as_slice();
    match method {
        HttpMethod::Options => ApiRoute::Preflight,
        HttpMethod::Get => {
            if is_text(p, "/health") {
                ApiRoute::Health
            } else if is_text(p, "/api/stats") {
                ApiRoute::Stats
            } else {
                ApiRoute::NotFound
            }
        },
        HttpMethod::Post => {
            if is_text(p, "/api/clear") {
                ApiRoute::Clear
            } else if is_text(p, "/api/load") {
                ApiRoute::Load
            } else if is_text(p, "/api/ask") {
                ApiRoute::Ask
            } else if is_text(p, "/api/select") {
                ApiRoute::Select
            } else {
                ApiRoute::NotFound
            }
        },
        HttpMethod::Other => ApiRoute::NotFound,
    }
}

/// The browser-facing server's response to each route, for a store holding
/// `triples` quads: a preflight is 200 with an empty body and no content
/// type; every other response declares JSON; health and stats report the
/// store's size; anything else is 404 with a fixed error object; the other
/// operations are 200 with their result as the body.
pub open spec fn api_plan_spec(r: ApiRoute, triples: nat) -> (u16, bool, Option<Seq<char>>) {
    match r {
        ApiRoute::Preflight => (200, false, Some(""@)),
        ApiRoute::Health => (
            200,
            true,
            Some("{\"status\":\"healthy\",\"backend\":\"rust-kgdb InMemory\",\"triples\":"@ + decimal(triples)
                + "}"@),
        ),
        ApiRoute::Stats => (200, true, Some("{\"triples\":"@ + decimal(triples) + ",\"backend\":\"rust-kgdb InMemory\"}"@)),
        ApiRoute::NotFound => (404, true, Some("{\"success\":false,\"error\":\"Not found\"}"@)),
        _ => (200, true, None),
    }
}

/// How the browser-facing server answers a route, for a store holding
/// `triples` quads.
pub fn api_response_plan(r: ApiRoute, triples: usize) -> (p: ResponsePlan)
    ensures
        (p.status, p.json, plan_body(p)) == api_plan_spec(r, triples as nat),
{
    match r {
        ApiRoute::Preflight => ResponsePlan { status: 200, json: false, body: Some("".to_owned()) },
        ApiRoute::Health => {
            let mut out: Vec<char> = Vec::new();
            push_str(&mut out, "{\"status\":\"healthy\",\"backend\":\"rust-kgdb InMemory\",\"triples\":");
            push_decimal(&mut out, triples as u64);
            push_str(&mut out, "}");
            ResponsePlan { status: 200, json: true, body: Some(string_of(out.as_slice())) }
        },
        ApiRoute::Stats => {
            let mut out: Vec<char> = Vec::new();
            push_str(&mut out, "{\"triples\":");
            push_decimal(&mut out, triples as u64);
            push_str(&mut out, ",\"backend\":\"rust-kgdb InMemory\"}");
            ResponsePlan { status: 200, json: true, body: Some(string_of(out.as_slice())) }
        },
        ApiRoute::NotFound => ResponsePlan {
            status: 404,
            json: true,
            body: Some("{\"success\":false,\"error\":\"Not found\"}".to_owned()),
        },
        _ => ResponsePlan { status: 200, json: true, body: None },
    }
}

} // verus!
