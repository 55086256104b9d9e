[package]
name = "agentos_kernel"
version = "0.1.0"
edition = "2021"
publish = false

[dependencies]
bootloader_api = "0.11"
lazy_static = { version = "1", features = ["spin_no_std"] }
pic8259 = { version = "0.11", default-features = false }
spin = "0.9"
x86_64 = { version = "0.15", default-features = false, features = ["instructions"] }
