[package]
name = "adapter"
version = "0.1.0"
edition = "2021"
publish = false

[dependencies]
cortex-m = "=0.7.7"
cortex-m-rt = "=0.7.7"
critical-section = "=1.2.0"
embedded-hal = "=1.0.0-rc.1"
fugit = "=0.3.9"
once_cell = { version = "=1.21.4", default-features = false, features = ["critical-section"] }
rp-pico = "=0.8.0"
rp2040-hal = { version = "=0.9.1", features = ["eh1_0_alpha"] }
safe-transmute = "=0.11.3"
static_cell = "=2.1.1"
usb-device = "=0.2.9"
usbd-serial = "=0.1.1"
usbd-webusb = "=1.0.2"
