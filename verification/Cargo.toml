[package]
name = "s3_stream_upload"
version = "0.1.0"
edition = "2021"
publish = false

[dependencies]
anyhow = "=1.0.104"
aws-config = "=1.12.0"
aws-sdk-s3 = "=1.152.0"
# aws-config 1.12 is written against aws-types 1.6 and does not compile with 1.7
aws-types = "=1.6.0"
clap = { version = "=4.6.7", features = ["derive"] }
crossbeam = "=0.8.5"
http = "=1.5.0"
tokio = { version = "=1.54.1", features = ["rt-multi-thread", "time", "net"] }
