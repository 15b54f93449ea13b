[package]
name = "bson_dissector"
version = "0.1.0"
edition = "2021"
publish = false

[dependencies]
bson = "2"
clap = { version = "4", features = ["derive"] }
flate2 = "1"
indicatif = "0.17"
neoncore = "*"
parking_lot = "0.12"
postcard = { version = "1", features = ["alloc"] }
rayon = "1"
rlua = "0.19"
seahash = "4"
serde = { version = "1", features = ["derive"] }
serde_json = "1"
thiserror = "1"
