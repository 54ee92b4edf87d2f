[package]
name = "m60rs"
version = "0.1.0"
edition = "2021"
publish = false

[dependencies]
keyberon = "=0.1.1"
usb-device = "=0.2.9"
embedded-hal = "=0.2.7"
cortex-m = "=0.7.10"
cortex-m-rt = "=0.7.7"
nrf52840-hal = "=0.16.1"
