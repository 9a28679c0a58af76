//! The hot-reload middleware's decisions: which requests pass through
//! untouched, and what becomes of each response: cached, replaced by an
//! error page, or injected with the hot-reload client.

use vstd::prelude::*;

use crate::handler::{
    canonical_reason, error_page_text, inject_bootstrap, injected_page, is_browser, is_html,
    is_html_type, is_probably_webpage, is_success_html, make_error_page, names_browser, probably_webpage,
};

verus! {

/// Middleware that injects the hot-reload client into served pages, unless
/// serving raw.
pub struct InjectHotReloadMiddleware {
    pub raw: bool,
}

/// The middleware wrapped around the service that serves files.
pub struct InjectService<S> {
    pub raw: bool,
    pub service: S,
}

/// What to do with a request before it reaches the file service.
#[derive(Clone, Copy, PartialEq, Eq, Structural)]
pub enum RequestPlan {
    /// Serve it as is, never cached.
    Passthrough,
    /// Serve it, then decide by the response.
    Inspect,
}

/// What to do with an inspected response.
#[derive(Clone, Copy, PartialEq, Eq, Structural)]
pub enum ResponsePlan {
    /// Keep the response; let the browser cache it (and revalidate) or not.
    Keep { cache: bool },
    /// Replace it by the error page, with the hot-reload client injected.
    ErrorPage,
    /// Inject the hot-reload client into the HTML body.
    Inject,
}

/// Status `100..200`.
pub open spec fn is_informational(status: u16) -> bool {
    100 <= status < 200
}

/// Status `300..400`.
pub open spec fn is_redirection(status: u16) -> bool {
    300 <= status < 400
}

/// Status `400..500`.
pub open spec fn is_client_error(status: u16) -> bool {
    400 <= status < 500
}

/// Status `500..600`.
pub open spec fn is_server_error(status: u16) -> bool {
    500 <= status < 600
}

impl InjectHotReloadMiddleware {
    /// The middleware; `raw` turns injection off.
    pub fn new(raw: bool) -> (m: Self)
        ensures
            m.raw == raw,
    {
        InjectHotReloadMiddleware { raw }
    }

    /// Wraps the file service.
    pub fn wrap_service<S>(&self, service: S) -> (s: InjectService<S>)
        ensures
            s.raw == self.raw,
            s.service == service,
    {
        InjectService { raw: self.raw, service }
    }
}

/// The plan for a request: served as is when raw or not from a browser.
pub open spec fn request_plan_for(raw: bool, user_agent: Option<Seq<u8>>) -> RequestPlan {
    if raw || !names_browser(user_agent) {
        RequestPlan::Passthrough
    } else {
        RequestPlan::Inspect
    }
}

/// The plan for a response with `status` to a request for `path`: 1xx and
/// 3xx are kept and cached; 4xx and 5xx become the error page for pages and
/// are kept uncached otherwise; a successful HTML response is injected; any
/// other response is kept and cached.
pub open spec fn response_plan_for(status: u16, path: Seq<char>, content_type: Option<Seq<u8>>) -> ResponsePlan {
    if is_informational(status) || is_redirection(status) {
        ResponsePlan::Keep { cache: true }
    } else if is_client_error(status) || is_server_error(status) {
        if is_probably_webpage(path) {
            ResponsePlan::ErrorPage
        } else {
            ResponsePlan::Keep { cache: false }
        }
    } else if is_success_html(status, content_type) {
        ResponsePlan::Inject
    } else {
        ResponsePlan::Keep { cache: true }
    }
}

impl<S> InjectService<S> {
    /// What to do with a request, given its `User-Agent` header.
    pub fn request_plan(&self, user_agent: Option<&[u8]>) -> (p: RequestPlan)
        ensures
            p == request_plan_for(
                self.raw,
                match user_agent {
                    Some(h) => Some(h@),
                    None => None,
                },
            ),
    {
        if self.raw || !is_browser(user_agent) {
            RequestPlan::Passthrough
        } else {
            RequestPlan::Inspect
        }
    }
}

/// What to do with a response with `status` and `Content-Type` header
/// `content_type` to a request for `path`.
pub fn response_plan(status: u16, path: &str, content_type: Option<&[u8]>) -> (p: ResponsePlan)
    ensures
        p == response_plan_for(
            status,
            path@,
            match content_type {
                Some(h) => Some(h@),
                None => None,
            },
        ),
{
    if (100 <= status && status < 200) || (300 <= status && status < 400) {
        ResponsePlan::Keep { cache: true }
    } else if (400 <= status && status < 500) || (500 <= status && status < 600) {
        if probably_webpage(path) {
            ResponsePlan::ErrorPage
        } else {
            ResponsePlan::Keep { cache: false }
        }
    } else if is_html(status, content_type) {
        ResponsePlan::Inject
    } else {
        ResponsePlan::Keep { cache: true }
    }
}

/// The body served in place of a failed page request: the error page with
/// the hot-reload client injected.
pub fn error_page_body(status: u16) -> (body: Vec<u8>)
    ensures
        body@ == injected_page(vstd::utf8::encode_utf8(error_page_text(status, canonical_reason(status)))),
{
    let page = make_error_page(status);
    inject_bootstrap(page.as_str().as_bytes())
}

/// Serving raw, every request reaches the files untouched.
pub proof fn lemma_raw_passes_through(user_agent: Option<Seq<u8>>)
    ensures
        request_plan_for(true, user_agent) == RequestPlan::Passthrough,
{
}

/// Only successful HTML responses get the client injected; only failed requests for pages get the error page.
pub proof fn lemma_injection_only_for_pages(status: u16, path: Seq<char>, content_type: Option<Seq<u8>>)
    ensures
        response_plan_for(status, path, content_type) == ResponsePlan::Inject ==> is_html_type(
            content_type,
        ) && 200 <= status < 300,
        response_plan_for(status, path, content_type) == ResponsePlan::ErrorPage ==> is_probably_webpage(
            path,
        ) && (is_client_error(status) || is_server_error(status)),
{
}

/// Every successful (`200..300`) response whose `Content-Type` is HTML gets
/// the client injected, whatever the path it answers; and every failed
/// (`400..600`) response keeps its body unless the path looks like a page.
pub proof fn lemma_success_html_injected(status: u16, path: Seq<char>, content_type: Option<Seq<u8>>)
    ensures
        200 <= status < 300 && is_html_type(content_type) ==> response_plan_for(
            status,
            path,
            content_type,
        ) == ResponsePlan::Inject,
        200 <= status < 300 && !is_html_type(content_type) ==> response_plan_for(
            status,
            path,
            content_type,
        ) == (ResponsePlan::Keep { cache: true }),
        400 <= status < 600 && !is_probably_webpage(path) ==> response_plan_for(
            status,
            path,
            content_type,
        ) == (ResponsePlan::Keep { cache: false }),
        400 <= status < 600 && is_probably_webpage(path) ==> response_plan_for(
            status,
            path,
            content_type,
        ) == ResponsePlan::ErrorPage,
        (100 <= status < 200 || 300 <= status < 400) ==> response_plan_for(
            status,
            path,
            content_type,
        ) == (ResponsePlan::Keep { cache: true }),
{
}

} // verus!
