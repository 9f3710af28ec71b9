[package]
name = "flow"
version = "0.1.0"
edition = "2021"
publish = false

[dependencies]
hydroflow = { version = "=0.10.0", default-features = false }
itertools = "=0.10.5"
snafu = "=0.7.5"
# hydroflow 0.10.0 does not build against tokio-util 0.7.20, which gave
# `LengthDelimitedCodec` a second `Encoder`; this line holds tokio-util back.
tokio-util = "=0.7.19"
