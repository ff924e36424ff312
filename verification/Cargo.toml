[package]
name = "sent-driver"
version = "0.1.0"
edition = "2021"
publish = false

[dependencies]
embedded-hal = "0.2"
stm32f1xx-hal = { version = "0.7", features = ["stm32f103"] }
