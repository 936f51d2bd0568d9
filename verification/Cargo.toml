[package]
name = "git_multi_index"
version = "0.1.0"
edition = "2021"
publish = false

[dependencies]
bstr = { version = "=1.13.1", features = ["serde"] }
byteorder = "=1.5.0"
git-chunk = "=0.4.2"
git-features = { version = "=0.26.5", default-features = false, features = ["rustsha1", "progress"] }
git-hash = "=0.10.3"
git-quote = "=0.4.2"
parking_lot = { version = "=0.13.0", features = ["arc_lock"] }
quick-error = "=2.0.1"
serde = { version = "=1.0.229", features = ["derive"] }
thiserror = "=2.0.21"
unicode-bom = "=2.0.3"
