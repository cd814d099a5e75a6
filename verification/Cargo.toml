[package]
name = "rs_archiver"
version = "0.1.0"
edition = "2021"
publish = false

[dependencies]
base64 = "=0.22.1"
mail-parser = "=0.9.4"
reqwest = { version = "=0.12.28", default-features = false, features = ["json"] }
serde = { version = "=1.0.229", features = ["derive"] }
serde_json = "=1.0.154"
tokio = { version = "=1.54.1", features = ["macros", "rt-multi-thread", "fs"] }
async-pop = { version = "=1.1.3", default-features = false, features = ["runtime-tokio", "async-native-tls", "sasl"] }
async-native-tls = { version = "=0.5.0", default-features = false, features = ["runtime-tokio"] }
dotenvy = "=0.15.7"
