[package]
name = "grepkin"
version = "0.1.0"
edition = "2021"
publish = false

[dependencies]
gherkin = { version = "=0.16.0", features = ["serde"] }
globwalk = "=0.9.1"
tera = "=2.4.0"
