[package]
name = "cologna_karaoke"
version = "0.1.0"
edition = "2021"
publish = false

[dependencies]
regex = "=1.13.1"
serde = { version = "=1.0.229", features = ["derive"] }
serde_json = "=1.0.154"
ndarray = "=0.17.2"
thiserror = "=2.0.21"
hound = "=3.5.1"
dirs-next = "=2.0.0"
once_cell = "=1.21.4"
parking_lot = "=0.12.5"
uuid = { version = "=1.29.0", features = ["v4"] }
pitch-detection = "=0.3.0"
rustfft = "=6.4.1"
crc32fast = "1"
base64 = "0.22"
byteorder = "1"
chfft = "0.3"
rubato = "0.16"
symphonia = { version = "0.5", default-features = false, features = ["mp3", "wav", "pcm"] }
tokio = { version = "1", default-features = false, features = ["rt", "sync"] }
