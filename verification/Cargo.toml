[package]
name = "avio23"
version = "0.1.0"
edition = "2021"
publish = false

[dependencies]
serde_yaml = "=0.9.34"
serde = { version = "=1.0.229", features = ["derive"] }
postcard = { version = "=1.1.3", features = ["alloc"] }
log = "=0.4.35"
a653rs = { version = "=0.6.1", features = ["macros"] }
a653rs-postcard = { version = "=0.4.0", features = ["alloc"] }
a653rs-linux = { version = "=0.2.2", features = ["socket"] }
