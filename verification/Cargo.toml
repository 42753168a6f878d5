[package]
name = "frc_elo"
version = "0.1.0"
edition = "2021"
publish = false

[dependencies]
probability = "*"
rand = "0.8"
serde = { version = "1", features = ["derive"] }
serde_json = "1"
csv = "1"
curl = "0.4"
diesel = { version = "2", features = ["sqlite"] }
dotenv = "0.15"
clap = "4"
tera = "1"
chrono = "0.4"
