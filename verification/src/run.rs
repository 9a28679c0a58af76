//! How the HTTP server is set up: worker count, bind address and the URL
//! under which the pages are announced.

use vstd::prelude::*;

use crate::text::{decimal, push_decimal};

verus! {

/// Number of HTTP workers for `num_cpus` hardware threads: a quarter of
/// them, at least one and at most four (4 threads give 1 worker, 8 give 2,
/// 16 give 4).
pub fn worker_count(num_cpus: usize) -> (n: usize)
    ensures
        n == if num_cpus / 4 < 1 {
            1
        } else if num_cpus / 4 > 4 {
            4
        } else {
            num_cpus / 4
        },
        1 <= n <= 4,
{
    let quarter = num_cpus / 4;
    if quarter < 1 {
        1
    } else if quarter > 4 {
        4
    } else {
        quarter
    }
}

/// Address to bind: loopback only, or every interface.
pub fn bind_host(local_only: bool) -> (host: &'static str)
    ensures
        local_only ==> host@ == "127.0.0.1"@,
        !local_only ==> host@ == "0.0.0.0"@,
{
    if local_only {
        "127.0.0.1"
    } else {
        "0.0.0.0"
    }
}

/// `http://{host}:{port}`.
pub open spec fn server_url_text(host: Seq<char>, port: u16) -> Seq<char> {
    "http://"@ + host + seq![':'] + decimal(port as nat)
}

/// The URL under which the pages are served.
pub fn server_url(host: &str, port: u16) -> (url: String)
    ensures
        url@ == server_url_text(host@, port),
{
    let mut url = String::from_str("http://");
    url.append(host);
    crate::text::push_char(&mut url, ':');
    push_decimal(&mut url, port as u64);
    url
}

} // verus!
