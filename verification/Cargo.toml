[package]
name = "workout_note_parser"
version = "0.1.0"
edition = "2021"
publish = false

[dependencies]
serde = { version = "1", features = ["derive"] }
serde_json = "1"
structopt = "0.3"
color-eyre = "0.6"
thiserror = "1"
