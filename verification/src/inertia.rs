//! The request/response protocol: header interpretation, version negotiation,
//! and rendering of the page object as JSON or as a full HTML document.

use vstd::prelude::*;
use vstd::string::*;
use crate::text::{json_quote, append_json_quoted, html_escape, html_escape_str, str_eq};
use crate::vite::Vite;
use crate::vite::dev_bootstrap;

verus! {

/// HTTP method of the inbound request; only `Get` is subject to version
/// enforcement.
#[derive(Debug, Clone, Copy, PartialEq, Eq, Structural)]
pub enum Method {
    Get,
    Head,
    Post,
    Put,
    Delete,
    Patch,
    Options,
    /// Any other method; never subject to version enforcement.
    Other,
}

/// Mathematical model of the per-request negotiation context.
pub ghost struct RequestModel {
    pub path: Seq<char>,
    pub is_xhr: bool,
    pub version: Option<Seq<char>>,
}

/// Per-request negotiation context, derived fresh from the headers and the
/// original request URL of every inbound request.
#[derive(Debug, Clone)]
pub struct Request {
    pub path: String,
    pub is_xhr: bool,
    pub version: Option<String>,
}

impl View for Request {
    type V = RequestModel;

    open spec fn view(&self) -> RequestModel {
        RequestModel {
            path: self.path@,
            is_xhr: self.is_xhr,
            version: match self.version {
                Some(v) => Some(v@),
                None => None,
            },
        }
    }
}

impl Request {
    /// Interprets the raw negotiation headers: the request is protocol-aware
    /// exactly when the dedicated header carries the value `true`, and the
    /// client version is the dedicated header's value when sent. A header
    /// whose value could not be read as text counts as not sent.
    pub fn from_headers(path: String, x_inertia: Option<String>, x_inertia_version: Option<
        String,
    >) -> (r: Request)
        ensures
            r@.path == path@,
            r@.is_xhr == (x_inertia matches Some(v) && v@ == "true"@),
            r@.version == (match x_inertia_version {
                Some(v) => Some(v@),
                None => None::<Seq<char>>,
            }),
    {
        let is_xhr = match &x_inertia {
            Some(v) => str_eq(v.as_str(), "true"),
            None => false,
        };
        Request { path, is_xhr, version: x_inertia_version }
    }
}

/// Mathematical model of a page object.
pub ghost struct PageModel {
    pub url: Seq<char>,
    pub component: Seq<char>,
    pub props: Seq<char>,
    pub version: Option<Seq<char>>,
}

/// The page object exchanged between server and client: component identifier,
/// request URL, props, and the server version. `props` holds an
/// already-serialized JSON value and is embedded verbatim in the page JSON.
#[derive(Debug, Clone)]
pub struct Page {
    pub url: String,
    pub component: String,
    pub props: String,
    pub version: Option<String>,
}

impl View for Page {
    type V = PageModel;

    open spec fn view(&self) -> PageModel {
        PageModel {
            url: self.url@,
            component: self.component@,
            props: self.props@,
            version: match self.version {
                Some(v) => Some(v@),
                None => None,
            },
        }
    }
}

/// The JSON body of a page object; `props` is embedded verbatim.
pub open spec fn page_json(p: PageModel) -> Seq<char> {
    "{\"url\":"@ + json_quote(p.url) + ",\"component\":"@ + json_quote(p.component)
        + ",\"props\":"@ + p.props + ",\"version\":"@ + (match p.version {
        Some(v) => json_quote(v),
        None => "null"@,
    }) + "}"@
}

fn page_json_string(p: &Page) -> (r: String)
    ensures
        r@ == page_json(p@),
{
    let mut out = String::from_str("{\"url\":");
    append_json_quoted(&mut out, p.url.as_str());
    out.append(",\"component\":");
    append_json_quoted(&mut out, p.component.as_str());
    out.append(",\"props\":");
    out.append(p.props.as_str());
    out.append(",\"version\":");
    match &p.version {
        Some(v) => append_json_quoted(&mut out, v.as_str()),
        None => out.append("null"),
    }
    out.append("}");
    out
}

/// A protocol-level response: status, headers, body. The host HTTP server
/// turns it into a real response without further decisions.
#[derive(Debug, Clone)]
pub struct HttpResponse {
    pub status: u16,
    pub headers: Vec<(String, String)>,
    pub body: String,
}

impl HttpResponse {
    /// The header list as name/value character sequences.
    pub open spec fn headers_model(self) -> Seq<(Seq<char>, Seq<char>)> {
        Seq::new(self.headers@.len(), |i: int| (self.headers@[i].0@, self.headers@[i].1@))
    }
}

/// The version-conflict response: status 409 with the reload target in the
/// dedicated header and no body.
pub open spec fn is_conflict_redirect(r: HttpResponse, url: Seq<char>) -> bool {
    &&& r.status == 409
    &&& r.headers_model() == seq![("X-Inertia-Location"@, url)]
    &&& r.body@ == Seq::<char>::empty()
}

/// The negotiation rule: only GET navigations are subject to version
/// enforcement, and only when the server has a version the client did not
/// present. Non-GET requests always proceed.
pub open spec fn should_redirect(
    method: Method,
    server_version: Option<Seq<char>>,
    client_version: Option<Seq<char>>,
) -> bool {
    method == Method::Get && server_version is Some && server_version != client_version
}

/// Mutation requests bypass version enforcement: a non-GET request is never
/// redirected, however stale the client's version is.
pub proof fn lemma_non_get_never_redirects(
    method: Method,
    server_version: Option<Seq<char>>,
    client_version: Option<Seq<char>>,
)
    requires
        method != Method::Get,
    ensures
        !should_redirect(method, server_version, client_version),
{
}

/// A GET without a client version is redirected whenever the server has a
/// version.
pub proof fn lemma_missing_version_redirects(server_version: Option<Seq<char>>)
    requires
        server_version is Some,
    ensures
        should_redirect(Method::Get, server_version, None::<Seq<char>>),
{
}

/// A client that presents the server's own version always proceeds.
pub proof fn lemma_matching_version_proceeds(method: Method, v: Option<Seq<char>>)
    ensures
        !should_redirect(method, v, v),
{
}

/// Failure of `render`: the adapter was not bound to a request context.
#[derive(Debug, Clone, Copy, PartialEq, Eq, Structural)]
pub enum RenderError {
    InvalidState,
}

/// The adapter: the process-wide mode and version fingerprint plus, once
/// negotiation has bound it, the context of the request being handled.
#[derive(Debug, Clone)]
pub struct Inertia {
    vite: Vite,
    version: Option<String>,
    request: Option<Request>,
}

impl Inertia {
    pub closed spec fn vite_of(self) -> Vite {
        self.vite
    }

    /// The process version: the manifest fingerprint in production, absent in
    /// development.
    pub closed spec fn version_view(self) -> Option<Seq<char>> {
        match self.version {
            Some(v) => Some(v@),
            None => None,
        }
    }

    pub closed spec fn request_of(self) -> Option<Request> {
        self.request
    }

    pub open spec fn wf(self) -> bool {
        self.vite_of().wf() && self.version_view() == self.vite_of().version_spec()
    }

    /// Builds the process-wide adapter state. The version fingerprint is
    /// computed here, once at startup, from the production manifest; it is
    /// never recomputed per request. Development mode has no version.
    pub fn new(vite: Vite) -> (r: Inertia)
        requires
            vite.wf(),
        ensures
            r.wf(),
            r.vite_of() == vite,
            r.request_of() == None::<Request>,
    {
        let version = match &vite {
            Vite::Production { manifest } => Some(manifest.fingerprint()),
            Vite::Development { .. } => None,
        };
        Inertia { vite, version, request: None }
    }

    /// The version-conflict response: reload at this URL.
    pub fn redirect(&self, url: String) -> (r: HttpResponse)
        ensures
            is_conflict_redirect(r, url@),
    {
        let mut headers: Vec<(String, String)> = Vec::new();
        headers.push((String::from_str("X-Inertia-Location"), url));
        let r = HttpResponse { status: 409, headers, body: String::new() };
        proof {
            assert(r.headers_model() =~= seq![("X-Inertia-Location"@, r.headers@[0].1@)]);
        }
        r
    }

    /// Negotiates one inbound request: either short-circuits with the
    /// conflict redirect (a stale client on a GET) or yields the adapter
    /// bound to the request context, on which a handler calls `render`.
    pub fn negotiate(self, method: Method, request: Request) -> (r: Result<Inertia, HttpResponse>)
        ensures
            should_redirect(method, self.version_view(), request@.version) ==> (r matches Err(
                resp,
            ) && is_conflict_redirect(resp, request@.path)),
            !should_redirect(method, self.version_view(), request@.version) ==> (r matches Ok(b)
                && b.vite_of() == self.vite_of() && b.version_view() == self.version_view()
                && b.request_of() == Some(request)),
            self.wf() ==> (r matches Ok(b) ==> b.wf()),
    {
        let stale = match (&self.version, &request.version) {
            (Some(sv), Some(cv)) => !str_eq(sv.as_str(), cv.as_str()),
            (Some(_), None) => true,
            (None, _) => false,
        };
        if method == Method::Get && stale {
            let resp = self.redirect(request.path);
            Err(resp)
        } else {
            Ok(Inertia { vite: self.vite, version: self.version, request: Some(request) })
        }
    }

    /// Packages a page object for the bound request: the page carries the
    /// request's original path, the process version, and the caller's props,
    /// already serialized as JSON. Calling `render` before negotiation has
    /// bound a request context is a programming error and fails fast.
    pub fn render(self, component: String, props: String) -> (r: Result<Response, RenderError>)
        ensures
            self.request_of() matches Some(req) ==> (r matches Ok(resp) && resp.page_of()@
                == (PageModel {
                url: req@.path,
                component: component@,
                props: props@,
                version: self.version_view(),
            }) && resp.vite_of() == self.vite_of() && resp.request_of() == req),
            self.request_of() is None ==> (r matches Err(e) && e == RenderError::InvalidState),
            self.wf() ==> (r matches Ok(resp) ==> resp.wf()),
    {
        match self.request {
            None => Err(RenderError::InvalidState),
            Some(req) => {
                let url = req.path.clone();
                let page = Page { url, component, props, version: self.version };
                Ok(Response { page, vite: self.vite, request: req })
            },
        }
    }
}

/// What precedes the asset markup in the document head: the hot-reload
/// bootstrap in development, nothing in production.
pub open spec fn bootstrap_spec(v: Vite) -> Seq<char> {
    match v {
        Vite::Development { dev_server } => dev_bootstrap(dev_server@),
        Vite::Production { .. } => Seq::empty(),
    }
}

/// The full HTML document around a rendered page object: a fixed head with
/// the bootstrap and asset markup, and a body whose single mount element
/// carries the page JSON, HTML-attribute escaped.
pub open spec fn html_document(bootstrap: Seq<char>, assets: Seq<char>, page: Seq<char>) -> Seq<
    char,
> {
    "<!doctype html>\n<html lang=\"en\">\n    <head>\n        <title>PingCRM</title>\n        <meta charset=\"UTF-8\" />\n        <meta name=\"viewport\" content=\"width=device-width, initial-scale=1.0\" />\n        "@
        + bootstrap + assets
        + "\n    </head>\n    <body>\n        <div id=\"app\" data-page='"@ + html_escape(page)
        + "'></div>\n    </body>\n</html>\n"@
}

/// A rendered page bound to its request, ready to become an HTTP response.
pub struct Response {
    page: Page,
    vite: Vite,
    request: Request,
}

impl Response {
    pub closed spec fn page_of(self) -> Page {
        self.page
    }

    pub closed spec fn vite_of(self) -> Vite {
        self.vite
    }

    pub closed spec fn request_of(self) -> Request {
        self.request
    }

    pub open spec fn wf(self) -> bool {
        self.vite_of().wf()
    }

    /// Renders the full HTML document, or nothing when the frontend entry
    /// point is absent from the manifest: a fatal misconfiguration that the
    /// caller surfaces as a server error, never as an empty script list.
    pub fn html_page(&self) -> (r: Option<String>)
        requires
            self.wf(),
        ensures
            match r {
                Some(s) => self.vite_of().asset_spec("src/index.tsx"@) matches Some(assets) && s@
                    == html_document(
                    bootstrap_spec(self.vite_of()),
                    assets,
                    page_json(self.page_of()@),
                ),
                None => self.vite_of().asset_spec("src/index.tsx"@) == None::<Seq<char>>,
            },
    {
        let assets = match self.vite.asset("src/index.tsx") {
            None => {
                return None;
            },
            Some(a) => a,
        };
        let mut out = String::from_str(
            "<!doctype html>\n<html lang=\"en\">\n    <head>\n        <title>PingCRM</title>\n        <meta charset=\"UTF-8\" />\n        <meta name=\"viewport\" content=\"width=device-width, initial-scale=1.0\" />\n        ",
        );
        match self.vite.dev_scripts() {
            Some(b) => out.append(b.as_str()),
            None => (),
        }
        out.append(assets.as_str());
        out.append("\n    </head>\n    <body>\n        <div id=\"app\" data-page='");
        let pj = page_json_string(&self.page);
        let esc = html_escape_str(pj.as_str());
        out.append(esc.as_str());
        out.append("'></div>\n    </body>\n</html>\n");
        Some(out)
    }

    /// Produces the protocol response: the page object as a JSON body for a
    /// protocol-aware request, the full HTML document otherwise, and a server
    /// error when the frontend entry point cannot be resolved.
    pub fn into_http(self) -> (r: HttpResponse)
        requires
            self.wf(),
        ensures
            self.request_of()@.is_xhr ==> r.status == 200 && r.headers_model() == seq![
                ("content-type"@, "application/json"@),
            ] && r.body@ == page_json(self.page_of()@),
            !self.request_of()@.is_xhr ==> match self.vite_of().asset_spec("src/index.tsx"@) {
                Some(assets) => r.status == 200 && r.headers_model() == seq![
                    ("content-type"@, "text/html; charset=utf-8"@),
                ] && r.body@ == html_document(
                    bootstrap_spec(self.vite_of()),
                    assets,
                    page_json(self.page_of()@),
                ),
                None => r.status == 500 && r.headers_model() == seq![
                    ("content-type"@, "text/plain; charset=utf-8"@),
                ] && r.body@ == "unresolved frontend entry point"@,
            },
    {
        if self.request.is_xhr {
            let body = page_json_string(&self.page);
            let r = content_response(200, "application/json", body);
            r
        } else {
            match self.html_page() {
                Some(body) => content_response(200, "text/html; charset=utf-8", body),
                None => content_response(
                    500,
                    "text/plain; charset=utf-8",
                    String::from_str("unresolved frontend entry point"),
                ),
            }
        }
    }
}

/// A response with one content-type header and a body.
fn content_response(status: u16, content_type: &str, body: String) -> (r: HttpResponse)
    ensures
        r.status == status,
        r.headers_model() == seq![("content-type"@, content_type@)],
        r.body == body,
{
    let mut headers: Vec<(String, String)> = Vec::new();
    headers.push((String::from_str("content-type"), String::from_str(content_type)));
    let r = HttpResponse { status, headers, body };
    proof {
        assert(r.headers_model() =~= seq![("content-type"@, content_type@)]);
    }
    r
}

} // verus!
