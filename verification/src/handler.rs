//! Request handling decisions: which requests come from browsers and open
//! websockets, which paths and responses are web pages, cache headers, the
//! hot-reload client's paths and its injection into HTML, and error pages.

use vstd::prelude::*;

use std::borrow::Cow;

use lol_html::html_content::{ContentType, Element};
use lol_html::{ElementContentHandlers, HandlerResult, HtmlRewriter, Selector, Settings};

use crate::text::{
    chars_of, contains_chars, contains_seq, decimal, ends_with, eq_ignore_ascii_case, matches_at,
    occurs_at, push_decimal, range_eq_ignore_ascii_case, replace_first, replacen, starts_with,
};

verus! {

broadcast use vstd::string::group_string_axioms;

/// URL path of the hot-reload client's source map.
pub const JS_SOURCEMAP_PATH: &'static str = "/bf52606e-9f65-4f5e-8a2f-016ad7cfa92a_please_dont_collide.js.map";

/// Markup that loads the hot-reload client, appended to the `<body>` of pages.
pub const JS_BOOTSTRAP: &'static str = "<script type=\"module\" src=\"/bf52606e-9f65-4f5e-8a2f-016ad7cfa92a_please_dont_collide.js\"></script>";

/// URL path of the hot-reload client's source map.
pub fn js_sourcemap_path() -> (r: &'static str)
    ensures
        r@ == JS_SOURCEMAP_PATH@,
{
    JS_SOURCEMAP_PATH
}

/// URL path of the hot-reload client: the source map's path without its
/// `.map` suffix.
pub fn js_source_path() -> (r: &'static str)
    ensures
        r@ + ".map"@ == JS_SOURCEMAP_PATH@,
{
    let p = JS_SOURCEMAP_PATH;
    proof {
        reveal_strlit("/bf52606e-9f65-4f5e-8a2f-016ad7cfa92a_please_dont_collide.js.map");
        reveal_strlit(".map");
    }
    let len = p.unicode_len();
    let r = p.substring_ascii(0, len - 4);
    assert(r@ + ".map"@ =~= JS_SOURCEMAP_PATH@);
    r
}

/// Markup that loads the hot-reload client.
pub fn js_bootstrap() -> (r: &'static str)
    ensures
        r@ == JS_BOOTSTRAP@,
{
    JS_BOOTSTRAP
}


/// The part of `path` after its last `/` (all of it when it has none).
pub open spec fn last_segment(path: Seq<char>) -> Seq<char>
    decreases path.len(),
{
    if path.len() == 0 {
        path
    } else if path.last() == '/' {
        seq![]
    } else {
        last_segment(path.drop_last()).push(path.last())
    }
}

/// The part of `name` from its last `.` on, if it has one.
pub open spec fn extension(name: Seq<char>) -> Option<Seq<char>>
    decreases name.len(),
{
    if name.len() == 0 {
        None
    } else if name.last() == '.' {
        Some(seq!['.'])
    } else {
        match extension(name.drop_last()) {
            Some(e) => Some(e.push(name.last())),
            None => None,
        }
    }
}

/// A URL path that looks like a navigable page: it ends with `/` or
/// `.html`, its last segment has no extension, or the extension is `.html`
/// or `.htm` in any ASCII case.
pub open spec fn is_probably_webpage(path: Seq<char>) -> bool {
    ends_with(path, seq!['/']) || ends_with(path, ".html"@) || match extension(last_segment(path)) {
        Some(ext) => eq_ignore_ascii_case(ext, ".html"@) || eq_ignore_ascii_case(ext, ".htm"@),
        None => true,
    }
}

proof fn lemma_last_segment(path: Seq<char>, start: int)
    requires
        0 <= start <= path.len(),
        forall|j: int| start <= j < path.len() ==> path[j] != '/',
        start == 0 || path[start - 1] == '/',
    ensures
        last_segment(path) == path.subrange(start, path.len() as int),
    decreases path.len(),
{
    if path.len() > start {
        lemma_last_segment(path.drop_last(), start);
        assert(path.subrange(start, path.len() as int) =~= path.drop_last().subrange(
            start,
            path.len() - 1,
        ).push(path.last()));
    } else if path.len() > 0 {
        assert(path.subrange(start, path.len() as int) =~= Seq::<char>::empty());
    } else {
        assert(path.subrange(start, path.len() as int) =~= path);
    }
}

proof fn lemma_extension(name: Seq<char>, dot: int)
    requires
        0 <= dot < name.len(),
        name[dot] == '.',
        forall|j: int| dot < j < name.len() ==> name[j] != '.',
    ensures
        extension(name) == Some(name.subrange(dot, name.len() as int)),
    decreases name.len(),
{
    if name.len() - 1 > dot {
        lemma_extension(name.drop_last(), dot);
        assert(name.subrange(dot, name.len() as int) =~= name.drop_last().subrange(
            dot,
            name.len() - 1,
        ).push(name.last()));
    } else {
        assert(name.subrange(dot, name.len() as int) =~= seq!['.']);
    }
}

proof fn lemma_no_extension(name: Seq<char>)
    requires
        forall|j: int| 0 <= j < name.len() ==> name[j] != '.',
    ensures
        extension(name) is None,
    decreases name.len(),
{
    if name.len() > 0 {
        lemma_no_extension(name.drop_last());
    }
}

/// Whether `path` looks like a navigable HTML page (it ends with `/`, has a
/// `.html` or `.htm` extension, or has no extension), as opposed to an
/// asset such as a stylesheet or script.
pub fn probably_webpage(path: &str) -> (b: bool)
    ensures
        b == is_probably_webpage(path@),
{
    let cs = chars_of(path);
    let n = cs.len();
    proof {
        reveal_strlit(".html");
        reveal_strlit(".htm");
    }
    if n >= 1 && cs[n - 1] == '/' {
        assert(cs@.skip(n - 1) =~= seq!['/']);
        return true;
    }
    let html = chars_of(".html");
    if n >= 5 && matches_at(&cs, n - 5, &html) {
        assert(cs@.skip(n - 5) =~= cs@.subrange(n - 5, n as int));
        return true;
    }
    proof {
        if n >= 1 {
            assert(cs@.skip(n - 1) =~= seq![cs@[n - 1]]);
            assert(seq![cs@[n - 1]][0] == cs@[n - 1]);
        }
        assert(!ends_with(path@, seq!['/']));
        if n >= 5 {
            assert(cs@.skip(n - 5) =~= cs@.subrange(n - 5, n as int));
        }
        assert(!ends_with(path@, ".html"@));
    }
    // start of the last segment
    let mut start: usize = n;
    while start > 0 && cs[start - 1] != '/'
        invariant
            start <= n,
            n == cs.len(),
            forall|j: int| start <= j < n ==> cs@[j] != '/',
        decreases start,
    {
        start = start - 1;
    }
    proof {
        lemma_last_segment(cs@, start as int);
    }
    let ghost seg = cs@.subrange(start as int, n as int);
    // last '.' of the segment
    let mut end: usize = n;
    while end > start && cs[end - 1] != '.'
        invariant
            start <= end <= n,
            n == cs.len(),
            forall|j: int| end <= j < n ==> cs@[j] != '.',
        decreases end,
    {
        end = end - 1;
    }
    if end > start {
        let dot = end - 1;
        proof {
            lemma_extension(seg, dot - start);
            assert(seg.subrange(dot - start, seg.len() as int) =~= cs@.subrange(
                dot as int,
                n as int,
            ));
        }
        range_eq_ignore_ascii_case(&cs, dot, n, ".html") || range_eq_ignore_ascii_case(
            &cs,
            dot,
            n,
            ".htm",
        )
    } else {
        proof {
            lemma_no_extension(seg);
        }
        true
    }
}


/// Bytes a header value may hold to be read as text: visible ASCII and tab.
pub open spec fn is_visible_ascii(b: u8) -> bool {
    (32 <= b < 127) || b == 9
}

/// A header value as text, when it only holds visible ASCII (as
/// `HeaderValue::to_str` of the `http` crate gives it).
pub open spec fn header_text(h: Seq<u8>) -> Option<Seq<char>> {
    if forall|i: int| 0 <= i < h.len() ==> is_visible_ascii(#[trigger] h[i]) {
        Some(h.map_values(|b: u8| b as char))
    } else {
        None
    }
}

/// The characters of header value `h`, when it is text.
pub fn header_chars(h: &[u8]) -> (r: Option<Vec<char>>)
    ensures
        r matches Some(v) ==> header_text(h@) == Some(v@),
        r is None ==> header_text(h@) is None,
{
    let mut v: Vec<char> = Vec::new();
    let mut i: usize = 0;
    while i < h.len()
        invariant
            i <= h@.len(),
            v@ == h@.take(i as int).map_values(|b: u8| b as char),
            forall|j: int| 0 <= j < i ==> is_visible_ascii(#[trigger] h@[j]),
        decreases h.len() - i,
    {
        let b = h[i];
        if !((32 <= b && b < 127) || b == 9) {
            return None;
        }
        v.push(b as char);
        i = i + 1;
        assert(v@ =~= h@.take(i as int).map_values(|b: u8| b as char));
    }
    assert(h@.take(i as int) =~= h@);
    Some(v)
}

/// A `User-Agent` header that names a browser engine.
pub open spec fn names_browser(user_agent: Option<Seq<u8>>) -> bool {
    match user_agent {
        Some(h) => match header_text(h) {
            Some(t) => contains_seq(t, "Mozilla"@) || contains_seq(t, "Chrome"@) || contains_seq(
                t,
                "Safari"@,
            ),
            None => false,
        },
        None => false,
    }
}

/// Whether a request looks like it comes from a browser, given its
/// `User-Agent` header.
pub fn is_browser(user_agent: Option<&[u8]>) -> (b: bool)
    ensures
        b == names_browser(
            match user_agent {
                Some(h) => Some(h@),
                None => None,
            },
        ),
{
    match user_agent {
        Some(h) => match header_chars(h) {
            Some(t) => contains_chars(&t, "Mozilla") || contains_chars(&t, "Chrome")
                || contains_chars(&t, "Safari"),
            None => false,
        },
        None => false,
    }
}

/// A `Content-Type` header of an HTML document.
pub open spec fn is_html_type(content_type: Option<Seq<u8>>) -> bool {
    match content_type {
        Some(h) => match header_text(h) {
            Some(t) => starts_with(t, "text/html"@),
            None => false,
        },
        None => false,
    }
}

/// A successful response (status `200..300`) that is an HTML document.
pub open spec fn is_success_html(status: u16, content_type: Option<Seq<u8>>) -> bool {
    200 <= status < 300 && is_html_type(content_type)
}

/// Whether a response is a successful HTML document, given its status and
/// its `Content-Type` header.
pub fn is_html(status: u16, content_type: Option<&[u8]>) -> (b: bool)
    ensures
        b == is_success_html(
            status,
            match content_type {
                Some(h) => Some(h@),
                None => None,
            },
        ),
{
    if !(200 <= status && status < 300) {
        return false;
    }
    match content_type {
        Some(h) => match header_chars(h) {
            Some(t) => {
                let p = chars_of("text/html");
                matches_at(&t, 0, &p)
            },
            None => false,
        },
        None => false,
    }
}

/// An `Upgrade` header that asks for a websocket.
pub open spec fn asks_websocket(upgrade: Option<Seq<u8>>) -> bool {
    match upgrade {
        Some(h) => match header_text(h) {
            Some(t) => eq_ignore_ascii_case(t, "websocket"@),
            None => false,
        },
        None => false,
    }
}

/// Whether a request asks for a websocket upgrade, given its `Upgrade`
/// header.
pub fn is_websocket_upgrade(upgrade: Option<&[u8]>) -> (b: bool)
    ensures
        b == asks_websocket(
            match upgrade {
                Some(h) => Some(h@),
                None => None,
            },
        ),
{
    match upgrade {
        Some(h) => match header_chars(h) {
            Some(t) => {
                let n = t.len();
                let r = range_eq_ignore_ascii_case(&t, 0, n, "websocket");
                assert(t@.subrange(0, n as int) =~= t@);
                r
            },
            None => false,
        },
        None => false,
    }
}

/// `Cache-Control` value for responses that may be cached (revalidated on
/// every use) or must not be stored.
pub fn cache_control_value(cache: bool) -> (r: &'static str)
    ensures
        cache ==> r@ == "max-age=0,stale-while-revalidate=3600"@,
        !cache ==> r@ == "no-store"@,
{
    if cache {
        "max-age=0,stale-while-revalidate=3600"
    } else {
        "no-store"
    }
}


/// What `lol_html` outputs for `html` when `script` is appended, as HTML,
/// to the content of every element that `selector` matches; `None` when the
/// selector does not parse or rewriting fails.
pub uninterp spec fn append_rewrite(html: Seq<u8>, selector: Seq<char>, script: Seq<char>) -> Option<Seq<u8>>;

/// Runs `lol_html`'s `HtmlRewriter` over `html` with one element handler on
/// `selector` that calls `Element::append(script, ContentType::Html)`,
/// collecting the output. The content type is always HTML: the script is
/// inserted as markup, not escaped as text. The contract names the output
/// (`None` when the selector does not parse, or `write` or `end` fails) and
/// says nothing of its bytes.
#[verifier::external_body]
fn rewrite_append(html: &[u8], selector: &str, script: &str) -> (r: Option<Vec<u8>>)
    ensures
        append_rewrite(html@, selector@, script@) == match r {
            Some(v) => Some(v@),
            None => None,
        },
{
    let mut out = Vec::new();
    let handlers = ElementContentHandlers::default().element(
        |el: &mut Element<'_, '_>| -> HandlerResult {
            el.append(script, ContentType::Html);
            Ok(())
        },
    );
    let selector: Selector = selector.parse().ok()?;
    let settings = Settings::new().append_element_content_handler((Cow::Owned(selector), handlers));
    let mut rewriter = HtmlRewriter::new(settings, |c: &[u8]| out.extend_from_slice(c));
    rewriter.write(html).ok()?;
    rewriter.end().ok()?;
    Some(out)
}

/// The page to serve once the rewrite has run: its output, or the page
/// unchanged when rewriting failed.
pub fn settle_injection(html: &[u8], rewritten: Option<Vec<u8>>) -> (out: Vec<u8>)
    ensures
        out@ == match rewritten {
            Some(r) => r@,
            None => html@,
        },
{
    match rewritten {
        Some(r) => r,
        None => vstd::slice::slice_to_vec(html),
    }
}

/// `html` with the hot-reload client appended to its `<body>`, or unchanged
/// when the document cannot be rewritten.
pub open spec fn injected_page(html: Seq<u8>) -> Seq<u8> {
    match append_rewrite(html, "body"@, JS_BOOTSTRAP@) {
        Some(r) => r,
        None => html,
    }
}

/// Appends the hot-reload client's bootstrap markup to the `<body>` of an
/// HTML document; a document that cannot be rewritten is returned as is.
pub fn inject_bootstrap(html: &[u8]) -> (out: Vec<u8>)
    ensures
        out@ == injected_page(html@),
{
    let rewritten = rewrite_append(html, "body", JS_BOOTSTRAP);
    settle_injection(html, rewritten)
}


/// Page served for failed requests of web pages; the status code and reason
/// of a not-found response appear twice each.
pub const ERROR_PAGE: &'static str = "<!DOCTYPE html>\n<html>\n<head>\n<meta charset=\"utf-8\">\n<title>404 Not Found</title>\n<style>\nbody { font-family: system-ui, sans-serif; margin: 2em; color: #333; }\nh1 { font-size: 3em; margin-bottom: 0; }\n</style>\n</head>\n<body>\n<h1>404</h1>\n<p>Not Found</p>\n</body>\n</html>\n";

/// The canonical reason phrase of HTTP status `code`, as the `http` crate
/// knows it; `None` for codes without one or outside `100..=999`.
pub uninterp spec fn canonical_reason(code: u16) -> Option<Seq<char>>;

/// `StatusCode::from_u16(code)` then `StatusCode::canonical_reason` of the
/// `http` crate (re-exported by actix-web). The contract names the phrase
/// and says nothing of the table itself.
#[verifier::external_body]
fn status_reason(code: u16) -> (r: Option<&'static str>)
    ensures
        canonical_reason(code) == match r {
            Some(t) => Some(t@),
            None => None,
        },
{
    actix_web::http::StatusCode::from_u16(code).ok().and_then(|s| s.canonical_reason())
}

/// The error page for a response with status `code` and reason phrase
/// `reason`: the not-found page itself for 404, else with the first two
/// `404` replaced by the code and the first two `Not Found` by the reason
/// (`Error` when there is none).
pub open spec fn error_page_text(code: u16, reason: Option<Seq<char>>) -> Seq<char> {
    if code == 404 {
        ERROR_PAGE@
    } else {
        let phrase = match reason {
            Some(r) => r,
            None => "Error"@,
        };
        replace_first(
            replace_first(ERROR_PAGE@, "404"@, decimal(code as nat), 2),
            "Not Found"@,
            phrase,
            2,
        )
    }
}

/// The error page for status `status` once its reason phrase is known.
pub fn render_error_page(status: u16, reason: Option<&str>) -> (page: String)
    ensures
        page@ == error_page_text(
            status,
            match reason {
                Some(r) => Some(r@),
                None => None,
            },
        ),
{
    if status == 404 {
        return String::from_str(ERROR_PAGE);
    }
    let mut code = String::new();
    push_decimal(&mut code, status as u64);
    proof {
        reveal_strlit("404");
        reveal_strlit("Not Found");
    }
    let with_code = replacen(ERROR_PAGE, "404", code.as_str(), 2);
    let phrase = match reason {
        Some(r) => r,
        None => "Error",
    };
    replacen(with_code.as_str(), "Not Found", phrase, 2)
}

/// The page shown in place of a failed web page request with status
/// `status`.
pub fn make_error_page(status: u16) -> (page: String)
    ensures
        page@ == error_page_text(status, canonical_reason(status)),
{
    if status == 404 {
        return render_error_page(status, None);
    }
    render_error_page(status, status_reason(status))
}

/// The not-found page is served as it is; for any other status the page
/// names that status: its first two `404` become the decimal code and its
/// first two `Not Found` the reason phrase (`Error` when there is none).
pub proof fn lemma_error_page_names_status(code: u16, reason: Option<Seq<char>>)
    ensures
        error_page_text(404, reason) == ERROR_PAGE@,
        code != 404 ==> error_page_text(code, reason) == replace_first(
            replace_first(ERROR_PAGE@, "404"@, decimal(code as nat), 2),
            "Not Found"@,
            match reason {
                Some(r) => r,
                None => "Error"@,
            },
            2,
        ),
{
}

} // verus!
