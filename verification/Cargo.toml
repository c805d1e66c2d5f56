[package]
name = "windydec"
version = "0.3.0"
edition = "2021"
publish = false

[dependencies]
pcode-ir = "=0.7.0"
iced-x86 = { version = "=1.22.0", default-features = false, features = ["std", "decoder", "instr_info"] }
serde = { version = "1", features = ["derive"] }
serde_json = "1"
anyhow = "1"
reqwest = { version = "*", default-features = false, features = ["json"] }
