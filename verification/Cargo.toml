[package]
name = "mirufm_core"
version = "0.1.0"
edition = "2021"
publish = false

[dependencies]
gix = { version = "0.90.0", default-features = false, features = ["sha1", "status"] }
notify = "8.2.1"
thiserror = "2.0.21"
tracing = "0.1.44"
tracing-subscriber = "0.3.23"
trash = "5.2.9"
