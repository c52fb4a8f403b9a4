use pingcrm::inertia::{HttpResponse, Inertia, Method, RenderError, Request};
use pingcrm::vite::{Manifest, ManifestEntry, Vite};

fn entry(file: &str, css: &[&str]) -> ManifestEntry {
    ManifestEntry {
        file: file.to_string(),
        css: css.iter().map(|c| c.to_string()).collect(),
    }
}

fn production() -> (Vite, String) {
    let m = Manifest::from_entries(vec![("src/index.tsx".to_string(), entry(
        "assets/index-abc.js",
        &["assets/index.css"],
    ))]);
    let fp = m.fingerprint();
    (Vite::Production { manifest: m }, fp)
}

fn header<'a>(resp: &'a HttpResponse, name: &str) -> Option<&'a str> {
    resp.headers.iter().find(|(n, _)| n == name).map(|(_, v)| v.as_str())
}

fn request(path: &str, is_xhr: bool, version: Option<&str>) -> Request {
    Request {
        path: path.to_string(),
        is_xhr,
        version: version.map(|v| v.to_string()),
    }
}

fn unescape_attr(s: &str) -> String {
    s.replace("&lt;", "<")
        .replace("&gt;", ">")
        .replace("&quot;", "\"")
        .replace("&#x27;", "'")
        .replace("&amp;", "&")
}

fn data_page(body: &str) -> serde_json::Value {
    let start = body.find("data-page='").expect("mount element present") + "data-page='".len();
    let rest = &body[start..];
    let end = rest.find('\'').expect("attribute closed");
    serde_json::from_str(&unescape_attr(&rest[..end])).expect("page JSON parses")
}

#[test]
fn get_without_version_yields_conflict() {
    let (vite, _fp) = production();
    let adapter = Inertia::new(vite);
    let req = request("/contacts", false, None);
    let resp = adapter.negotiate(Method::Get, req).expect_err("stale client must be redirected");
    assert_eq!(resp.status, 409);
    assert_eq!(header(&resp, "X-Inertia-Location"), Some("/contacts"));
    assert_eq!(resp.body, "");
}

#[test]
fn get_with_stale_version_yields_conflict() {
    let (vite, _fp) = production();
    let adapter = Inertia::new(vite);
    let req = request("/", true, Some("outdated"));
    let resp = adapter.negotiate(Method::Get, req).expect_err("stale client must be redirected");
    assert_eq!(resp.status, 409);
    assert_eq!(header(&resp, "X-Inertia-Location"), Some("/"));
}

#[test]
fn get_with_matching_version_renders_html() {
    let (vite, fp) = production();
    let adapter = Inertia::new(vite);
    let req = request("/", false, Some(&fp));
    let bound = adapter.negotiate(Method::Get, req).expect("matching version proceeds");
    let resp = bound
        .render("Auth/Login".to_string(), "{}".to_string())
        .expect("bound adapter renders")
        .into_http();
    assert_eq!(resp.status, 200);
    assert_eq!(header(&resp, "content-type"), Some("text/html; charset=utf-8"));
    let page = data_page(&resp.body);
    assert_eq!(page["version"], serde_json::Value::String(fp));
    assert_eq!(page["component"], serde_json::Value::String("Auth/Login".to_string()));
    assert_eq!(page["url"], serde_json::Value::String("/".to_string()));
}

#[test]
fn protocol_aware_request_gets_json_page_object() {
    let (vite, fp) = production();
    let adapter = Inertia::new(vite);
    let req = request("/contacts", true, Some(&fp));
    let bound = adapter.negotiate(Method::Get, req).expect("matching version proceeds");
    let resp = bound
        .render("Contacts/Index".to_string(), r#"{"page":2}"#.to_string())
        .expect("bound adapter renders")
        .into_http();
    assert_eq!(resp.status, 200);
    assert_eq!(header(&resp, "content-type"), Some("application/json"));

    let got: serde_json::Value = serde_json::from_str(&resp.body).expect("body is JSON");
    let mut expected = serde_json::Map::new();
    expected.insert("url".to_string(), serde_json::Value::String("/contacts".to_string()));
    expected.insert(
        "component".to_string(),
        serde_json::Value::String("Contacts/Index".to_string()),
    );
    let mut props = serde_json::Map::new();
    props.insert("page".to_string(), serde_json::Value::from(2));
    expected.insert("props".to_string(), serde_json::Value::Object(props));
    expected.insert("version".to_string(), serde_json::Value::String(fp));
    assert_eq!(got, serde_json::Value::Object(expected));
}

#[test]
fn post_with_stale_version_proceeds() {
    let (vite, _fp) = production();
    let adapter = Inertia::new(vite);
    let req = request("/contacts", true, Some("outdated"));
    let bound = adapter
        .negotiate(Method::Post, req)
        .expect("mutation requests bypass version enforcement");
    let resp = bound
        .render("Contacts/Index".to_string(), "{}".to_string())
        .expect("bound adapter renders")
        .into_http();
    assert_eq!(resp.status, 200);
}

#[test]
fn development_negotiation_never_redirects() {
    let vite = Vite::Development { dev_server: "http://localhost:5173".to_string() };
    let adapter = Inertia::new(vite);
    let req = request("/", false, None);
    assert!(adapter.negotiate(Method::Get, req).is_ok());
}

#[test]
fn development_html_contains_bootstrap_and_dev_asset() {
    let vite = Vite::Development { dev_server: "http://localhost:5173".to_string() };
    let adapter = Inertia::new(vite);
    let req = request("/", false, None);
    let bound = adapter.negotiate(Method::Get, req).expect("no version in development");
    let resp = bound
        .render("Auth/Login".to_string(), "{}".to_string())
        .expect("bound adapter renders")
        .into_http();
    assert_eq!(resp.status, 200);
    assert!(resp.body.contains(
        r#"<script type="module" src="http://localhost:5173/@vite/client"></script>"#
    ));
    assert!(resp.body.contains(
        r#"<script type="module" src="http://localhost:5173/src/index.tsx"></script>"#
    ));
    let page = data_page(&resp.body);
    assert_eq!(page["version"], serde_json::Value::Null);
}

#[test]
fn missing_entry_point_is_a_server_error() {
    let vite = Vite::Production { manifest: Manifest::from_entries(vec![]) };
    let adapter = Inertia::new(vite);
    let req = request("/", false, None);
    let resp = adapter.redirect("/".to_string());
    assert_eq!(resp.status, 409);
    // A render against a manifest without the entry point surfaces a 500.
    let bound = match adapter.negotiate(Method::Post, req) {
        Ok(b) => b,
        Err(_) => panic!("POST always proceeds"),
    };
    let resp = bound
        .render("Auth/Login".to_string(), "{}".to_string())
        .expect("bound adapter renders")
        .into_http();
    assert_eq!(resp.status, 500);
    assert_eq!(resp.body, "unresolved frontend entry point");
}

#[test]
fn render_before_negotiation_fails_fast() {
    let (vite, _fp) = production();
    let adapter = Inertia::new(vite);
    match adapter.render("Auth/Login".to_string(), "{}".to_string()) {
        Ok(_) => panic!("render before negotiation must fail"),
        Err(err) => assert_eq!(err, RenderError::InvalidState),
    }
}

#[test]
fn from_headers_interprets_protocol_flag() {
    let r = Request::from_headers("/x".to_string(), Some("true".to_string()), None);
    assert!(r.is_xhr);
    let r = Request::from_headers("/x".to_string(), Some("false".to_string()), None);
    assert!(!r.is_xhr);
    let r = Request::from_headers("/x".to_string(), None, Some("abc".to_string()));
    assert!(!r.is_xhr);
    assert_eq!(r.version, Some("abc".to_string()));
    assert_eq!(r.path, "/x");
}

#[test]
fn html_page_escapes_props_in_attribute() {
    let (vite, fp) = production();
    let adapter = Inertia::new(vite);
    let req = request("/", false, Some(&fp));
    let bound = adapter.negotiate(Method::Get, req).expect("matching version proceeds");
    let resp = bound
        .render("Auth/Login".to_string(), r#"{"msg":"<b>&'quoted'</b>"}"#.to_string())
        .expect("bound adapter renders")
        .into_http();
    assert!(!resp.body.contains("<b>"));
    let page = data_page(&resp.body);
    assert_eq!(
        page["props"]["msg"],
        serde_json::Value::String("<b>&'quoted'</b>".to_string())
    );
}
