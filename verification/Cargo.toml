[package]
name = "mnemosyne"
version = "0.1.0"
edition = "2021"
publish = false

[dependencies]
serenity = "=0.11.7"
tokio = { version = "=1.54.1", features = ["macros", "rt-multi-thread", "signal", "sync"] }
tracing = "=0.1.44"
tracing-subscriber = "=0.3.23"
dotenv = "=0.15.0"
update-informer = { version = "=1.3.0", features = ["github"] }

[dev-dependencies]
nom = "=7.1.3"
