[package]
name = "sync_ldap_subtrees"
version = "0.1.0"
edition = "2021"
publish = false

[dependencies]
chumsky = "*"
clap = { version = "*", features = ["derive"] }
lazy_static = "*"
ldap3 = "*"
ldap-types = "*"
ldap-utils = "*"
oid = "*"
tokio = { version = "*", features = ["macros", "rt-multi-thread"] }
tracing = "*"
tracing-subscriber = { version = "*", features = ["env-filter"] }
