[package]
name = "sky_clock"
version = "0.1.0"
edition = "2021"
publish = false

[dependencies]
chrono = { version = "=0.4.45", default-features = false }
cortex-m-rt = "0.7"
cyw43 = { version = "=0.2.0", features = ["firmware-logs"] }
cyw43-pio = "=0.2.0"
defmt = "=0.3.101"
defmt-rtt = "=0.4.2"
embassy-executor = { version = "=0.6.3", features = ["task-arena-size-98304", "arch-spin", "executor-thread"] }
embassy-net = { version = "=0.4.0", features = ["tcp", "udp", "dhcpv4", "medium-ethernet", "dns"] }
embassy-rp = { version = "=0.2.0", features = ["unstable-pac", "time-driver", "critical-section-impl"] }
embassy-sync = "=0.6.2"
embassy-time = "=0.3.2"
embassy-usb-logger = "=0.2.0"
fixed = "=1.31.0"
fixed-macro = "=1.2.0"
log = "=0.4.35"
panic-probe = "=0.3.2"
pio = "=0.2.1"
rand = { version = "=0.8.8", default-features = false }
reqwless = "=0.12.1"
serde = { version = "=1.0.229", default-features = false, features = ["derive"] }
serde-json-core = "=0.5.1"
static_cell = "=2.1.1"
