[package]
name = "audiolab"
version = "0.1.0"
edition = "2021"
publish = false

[dependencies]
rand = "*"
hound = "*"
symphonia = { version = "*", features = ["mp3", "aac", "isomp4", "flac", "ogg", "vorbis"] }
serde = { version = "*", features = ["derive"] }
serde_json = "*"
