[package]
name = "bluenoise"
version = "0.1.0"
edition = "2021"
publish = false

[dependencies]
rand = "0.8"
rand_pcg = "0.3"
embedded-graphics = "0.7"
sh1106 = "0.4"
embedded-hal = "0.2"
embedded-time = "0.12"
cortex-m = "0.7"
cortex-m-rt = "0.7"
panic-persist = { version = "0.3", features = ["utf8"] }
