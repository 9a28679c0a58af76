use shwoop::handler::{
    cache_control_value, inject_bootstrap, is_browser, is_html, is_websocket_upgrade, js_bootstrap,
    js_source_path, js_sourcemap_path, make_error_page, probably_webpage, render_error_page,
    settle_injection, ERROR_PAGE,
};

fn run(html: &str) -> String {
    let out = inject_bootstrap(html.as_bytes());
    String::from_utf8(out).unwrap()
}

#[test]
fn injects_before_body_close() {
    let script = js_bootstrap();
    let result = run("<html><body><p>hello</p></body></html>");
    assert_eq!(
        result,
        format!("<html><body><p>hello</p>{script}</body></html>")
    );
}

#[test]
fn page_without_body_is_left_alone() {
    let html = "<html><head><title>x</title></head></html>";
    assert_eq!(run(html), html);
}

#[test]
fn settle_keeps_page_when_rewrite_failed() {
    let html = b"<p>x</p>";
    assert_eq!(settle_injection(html, None), html.to_vec());
    assert_eq!(settle_injection(html, Some(b"y".to_vec())), b"y".to_vec());
}

#[test]
fn js_paths_share_the_chunk_name() {
    assert_eq!(format!("{}.map", js_source_path()), js_sourcemap_path());
    assert!(js_source_path().ends_with(".js"));
    assert!(js_bootstrap().contains(js_source_path()));
}

#[test]
fn webpage_paths() {
    assert!(probably_webpage("/"));
    assert!(probably_webpage("/docs/"));
    assert!(probably_webpage("/index.html"));
    assert!(probably_webpage("/page.HTML"));
    assert!(probably_webpage("/page.Htm"));
    assert!(probably_webpage("/something/something"));
    assert!(probably_webpage("/dir.d/page"));
    assert!(probably_webpage(""));
    assert!(!probably_webpage("/style.css"));
    assert!(!probably_webpage("/app.js"));
    assert!(!probably_webpage("/page.htmlx"));
    assert!(!probably_webpage("/archive.tar.gz"));
}

#[test]
fn browser_user_agents() {
    assert!(is_browser(Some(b"Mozilla/5.0 (X11; Linux x86_64)")));
    assert!(is_browser(Some(b"x Chrome/120")));
    assert!(is_browser(Some(b"Safari")));
    assert!(!is_browser(Some(b"curl/8.0")));
    assert!(!is_browser(Some(b"mozilla")));
    assert!(!is_browser(None));
    // not visible ASCII: the header cannot be read as text
    assert!(!is_browser(Some(b"Mozilla\x01")));
}

#[test]
fn html_content_types() {
    assert!(is_html(200, Some(b"text/html")));
    assert!(is_html(206, Some(b"text/html; charset=utf-8")));
    assert!(!is_html(200, Some(b"text/css")));
    assert!(!is_html(200, Some(b"TEXT/HTML")));
    assert!(!is_html(200, None));
    assert!(!is_html(404, Some(b"text/html")));
    assert!(!is_html(600, Some(b"text/html")));
}

#[test]
fn websocket_upgrades() {
    assert!(is_websocket_upgrade(Some(b"websocket")));
    assert!(is_websocket_upgrade(Some(b"WebSocket")));
    assert!(!is_websocket_upgrade(Some(b"h2c")));
    assert!(!is_websocket_upgrade(Some(b"websockets")));
    assert!(!is_websocket_upgrade(None));
}

#[test]
fn cache_control_values() {
    assert_eq!(cache_control_value(true), "max-age=0,stale-while-revalidate=3600");
    assert_eq!(cache_control_value(false), "no-store");
}

#[test]
fn error_page_for_not_found_is_the_template() {
    assert_eq!(make_error_page(404), ERROR_PAGE);
}

#[test]
fn error_page_names_status_and_reason() {
    let page = make_error_page(500);
    assert_eq!(
        page,
        ERROR_PAGE
            .replacen("404", "500", 2)
            .replacen("Not Found", "Internal Server Error", 2)
    );
    assert!(!page.contains("404"));
}

#[test]
fn error_page_without_reason_says_error() {
    let page = render_error_page(599, None);
    assert_eq!(
        page,
        ERROR_PAGE.replacen("404", "599", 2).replacen("Not Found", "Error", 2)
    );
    assert_eq!(make_error_page(599), page);
}
