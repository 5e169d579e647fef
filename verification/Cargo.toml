[package]
name = "firmware"
version = "0.1.0"
edition = "2021"
publish = false

[dependencies]
keyberon = "=0.1.1"
usb-device = "=0.2.9"
cortex-m = "=0.7.10"
cortex-m-rtic = "=1.1.4"
panic-halt = "=1.0.0"
qt_py_m0 = { version = "=0.10.1", features = ["usb", "unproven"] }
