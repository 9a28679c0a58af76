use shwoop::args::{dependency_log_level, LogLevel};
use shwoop::inject::{response_plan, InjectHotReloadMiddleware, RequestPlan, ResponsePlan};
use shwoop::run::{bind_host, server_url, worker_count};
use shwoop::text::{replace, replacen};
use shwoop::util::ThreadName;
use shwoop::websocket::{keeps_listening, reply_to, Broadcast, Incoming, Msg, Reply};

#[test]
fn message_texts() {
    assert_eq!(Msg::Reload.to_str(), "reload");
    assert_eq!(Msg::BuildStarted.to_str(), "build-started");
    assert_eq!(Msg::BuildFailed.to_str(), "build-failed");
    assert_eq!(Msg::BuildSucceeded.to_str(), "build-succeeded");
}

#[test]
fn thread_names() {
    assert_eq!(String::from(ThreadName::Watchexec), "wch");
    assert_eq!(String::from(ThreadName::Reloader), "rld");
    assert_eq!(String::from(ThreadName::Server), "srv");
}

#[test]
fn broadcast_drops_failed_sessions() {
    let mut b = Broadcast::new(vec!['a', 'b', 'c', 'd']);
    let mut tried = Vec::new();
    while let Some(i) = b.next_index() {
        let s = b.sessions[i];
        tried.push(s);
        b.report(s != 'a' && s != 'c');
    }
    // 'a' fails and is replaced by 'd', then 'd', 'b' succeed, 'c' fails
    assert_eq!(tried, vec!['a', 'd', 'b', 'c']);
    assert_eq!(b.finish(), vec!['d', 'b']);
}

#[test]
fn middleware_plans() {
    let raw = InjectHotReloadMiddleware::new(true).wrap_service(());
    assert!(raw.request_plan(Some(b"Mozilla/5.0")) == RequestPlan::Passthrough);
    let normal = InjectHotReloadMiddleware::new(false).wrap_service(());
    assert!(normal.request_plan(Some(b"Mozilla/5.0")) == RequestPlan::Inspect);
    assert!(normal.request_plan(Some(b"curl/8")) == RequestPlan::Passthrough);
    assert!(response_plan(200, "/", Some(b"text/html")) == ResponsePlan::Inject);
    assert!(response_plan(200, "/a.css", Some(b"text/css")) == ResponsePlan::Keep { cache: true });
    assert!(response_plan(304, "/", Some(b"text/html")) == ResponsePlan::Keep { cache: true });
    assert!(response_plan(404, "/missing", None) == ResponsePlan::ErrorPage);
    assert!(response_plan(404, "/missing.png", None) == ResponsePlan::Keep { cache: false });
    assert!(response_plan(503, "/x.html", None) == ResponsePlan::ErrorPage);
    assert!(response_plan(600, "/", Some(b"text/html")) == ResponsePlan::Keep { cache: true });
}

#[test]
fn server_setup() {
    assert_eq!(worker_count(1), 1);
    assert_eq!(worker_count(4), 1);
    assert_eq!(worker_count(8), 2);
    assert_eq!(worker_count(16), 4);
    assert_eq!(worker_count(64), 4);
    assert_eq!(bind_host(true), "127.0.0.1");
    assert_eq!(bind_host(false), "0.0.0.0");
    assert_eq!(server_url("localhost", 8241), "http://localhost:8241");
}

#[test]
fn dependency_logs_are_quieted() {
    assert!(dependency_log_level(Some("watchexec::action"), LogLevel::Info) == Some(LogLevel::Debug));
    assert!(dependency_log_level(Some("actix_server::builder"), LogLevel::Warn) == Some(LogLevel::Warn));
    assert!(dependency_log_level(Some("shwoop::server"), LogLevel::Info).is_none());
    assert!(dependency_log_level(None, LogLevel::Info).is_none());
}

#[test]
fn replacing() {
    assert_eq!(replace("aXbXc", "X", "--"), "a--b--c");
    assert_eq!(replacen("aXbXcX", "X", "-", 2), "a-b-cX");
    assert_eq!(replacen("aaa", "aa", "b", 5), "ba");
    assert_eq!(replace("", "X", "y"), "");
}

#[test]
fn websocket_replies() {
    assert!(reply_to(Incoming::Ping) == Reply::Pong);
    assert!(reply_to(Incoming::Close) == Reply::CloseWithReason);
    assert!(reply_to(Incoming::Failed) == Reply::Close);
    assert!(reply_to(Incoming::Other) == Reply::Ignore);
    assert!(keeps_listening(Reply::Pong, true));
    assert!(!keeps_listening(Reply::Pong, false));
    assert!(!keeps_listening(Reply::CloseWithReason, true));
    assert!(!keeps_listening(Reply::Close, true));
    assert!(keeps_listening(Reply::Ignore, true));
}
