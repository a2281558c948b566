[package]
name = "cosmic_pim_mail"
version = "0.1.0"
edition = "2021"
publish = false

[dependencies]
base64 = "=0.22.1"
chrono = "=0.4.45"
dirs = "=6.0.0"
imap = "=3.0.0-alpha.15"
imap-proto = "=0.16.7"
lettre = { version = "=0.11.23", default-features = false, features = ["builder", "smtp-transport", "native-tls"] }
mail-parser = "=0.11.9"
native-tls = "=0.2.18"
pgp = "=0.21.0"
quick-xml = "=0.38.4"
reqwest = { version = "=0.12.28", features = ["blocking"] }
rusqlite = { version = "=0.37.0", features = ["bundled"] }
serde = { version = "=1.0.229", features = ["derive"] }
serde_json = "=1.0.154"
toml = "=0.9.8"
tracing = "=0.1.44"

[dev-dependencies]
rand = "=0.8.8"
tempfile = "=3.27.0"
