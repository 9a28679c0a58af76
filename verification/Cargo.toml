[package]
name = "shwoop"
version = "0.1.0"
edition = "2021"
publish = false

[dependencies]
actix-files = "=0.7.3"
actix-web = "=4.18.1"
actix-ws = "=0.4.0"
clap = { version = "=4.6.7", features = ["derive"] }
dashmap = "=6.2.1"
log = "=0.4.35"
lol_html = "=3.0.3"
oneshot = { version = "=0.2.1", features = ["async", "std"] }
pistonite-cu = { version = "=0.9.8", features = ["fs"] }
tokio = { version = "=1.54.1", features = ["rt", "macros", "sync", "time"] }
watchexec = "=8.4.4"
watchexec-events = "=6.1.3"
watchexec-signals = "=5.1.1"
