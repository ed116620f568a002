[package]
name = "panoptes"
version = "0.1.0"
edition = "2021"
publish = false

[dependencies]
ndarray = "0.16"
geo-types = "0.7"
thiserror = "2"
ort = { version = "2.0.0-rc.10", default-features = false, features = ["load-dynamic", "ndarray"] }

[dev-dependencies]
geo = "0.29"
