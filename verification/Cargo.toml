[package]
name = "teledildo-core"
version = "0.1.0"
edition = "2021"
publish = false

[dependencies]
cortex-m = "*"
defmt = "*"
defmt-rtt = "*"
embassy-executor = "*"
embassy-rp = { version = "*", features = ["rp2040", "time-driver", "critical-section-impl"] }
embassy-sync = "*"
embassy-time = "*"
embassy-usb = "*"
fixed = "*"
panic-probe = "*"
static_cell = "*"
