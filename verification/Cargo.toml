[package]
name = "micromouse"
version = "0.1.0"
edition = "2021"
publish = false

[dependencies]
cortex-m = "*"
cortex-m-rt = "*"
embedded-hal = "*"
nb = "*"
panic-halt = "*"
stm32f1xx-hal = { version = "*", features = ["stm32f103", "medium"] }
