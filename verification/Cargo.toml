[package]
name = "adder-codec-core"
version = "0.1.0"
edition = "2021"
publish = false

[dependencies]
arithmetic-coding = "=0.5.0"
bitstream-io = "=4.10.0"
rustdct = "=0.7.1"
transpose = "=0.2.3"
num-traits = "=0.2.19"
thiserror = "=2.0.21"
serde = { version = "=1.0.229", features = ["derive"] }

[dev-dependencies]
rand = "=0.10.3"
