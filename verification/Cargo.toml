[package]
name = "issue_labeler"
version = "0.1.0"
edition = "2021"
publish = false

[dependencies]
anyhow = "1"
chrono = "0.4"
dotenv = "0.15"
flowsnet-platform-sdk = "*"
github-flows = "*"
http_req = "*"
log = "0.4"
octocrab_wasi = "*"
openai-flows = "*"
schedule-flows = "*"
serde = { version = "1", features = ["derive"] }
serde_json = "1"
tokio = { version = "1", features = ["macros", "rt"] }
