[package]
name = "ghostdump"
version = "0.1.0"
edition = "2021"
publish = false

[dependencies]
clap = { version = "4", features = ["derive", "env"] }
cpf_cnpj = "*"
fake = "2"
hex = "0.4"
hmac = "0.12"
rand = "0.8"
serde = { version = "1", features = ["derive"] }
sha2 = "0.10"
toml = "0.8"
uuid = { version = "1", features = ["v4"] }
