[package]
name = "resovoid"
version = "0.1.0"
edition = "2021"
publish = false

[dependencies]
atomic_float = "1.1"
egui = { version = "0.36", default-features = false, features = ["default_fonts"] }
nice-plug = "0.3"
nice-plug-egui = "0.4"
num-complex = "0.4"
realfft = "3"
rtrb = "0.3.3"
serde = { version = "1", features = ["derive"] }
serde_json = "1"
