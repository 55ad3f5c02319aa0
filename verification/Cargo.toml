[package]
name = "tweet_sentiment"
version = "0.1.0"
edition = "2021"
publish = false

[dependencies]
regex = "*"
stop-words = "*"
unicode-segmentation = "*"
csv = "*"
serde = { version = "*", features = ["derive"] }
