[package]
name = "sequences"
version = "0.1.0"
edition = "2021"
publish = false

[dependencies]
byteorder = "=1.5.0"
num-traits = "=0.2.19"
url = "=2.5.8"
chrono = "=0.4.45"
serde = { version = "=1.0.229", features = ["derive"] }
serde_json = "=1.0.154"
anyhow = "=1.0.104"
pcap-parser = { version = "=0.17.0", features = ["data"] }
etherparse = "=0.21.0"
rustls = "=0.21.12"
aho-corasick = "=1.1.5"
csv = "=1.4.0"
flate2 = "1"
reqwest = { version = "0.12", default-features = false, features = ["blocking", "rustls-tls"] }
rand = "0.8"
rand_xorshift = "0.3"
fnv = "1"
