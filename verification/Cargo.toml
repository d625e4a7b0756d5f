[package]
name = "dsmr_to_zaptec"
version = "0.1.0"
edition = "2021"
publish = false

[dependencies]
dsmr5 = "=0.4.0"
reqwless = { version = "=0.14.0", default-features = false }
embassy-time = { version = "=0.5.1", features = ["std"] }
embassy-net = { version = "=0.9.1", features = ["tcp", "dns", "dhcpv4", "proto-ipv4", "medium-ethernet"] }
embassy-executor = "=0.10.0"
const_format = "=0.2.37"
defmt = "=1.2.0"
static_cell = "=2.1.1"
smart-leds = "=0.4.0"
esp-hal = "=1.1.2"
esp-radio = "=0.18.0"
esp-rtos = "=0.3.0"
esp-alloc = "=0.10.0"
esp-bootloader-esp-idf = "=0.6.0"
esp-hal-smartled = "=0.16.0"
rtt-target = "=0.6.2"
panic-rtt-target = "=0.2.0"
