[package]
name = "j2calc"
version = "0.1.0"
edition = "2021"
publish = false

[dependencies]
defmt = "=1.2.0"
defmt-rtt = "=1.3.1"
panic-probe = "=1.0.0"
static_cell = "=2.1.1"
cortex-m-rt = "=0.7.7"
embassy-embedded-hal = "=0.6.0"
embassy-executor = "=0.9.1"
embassy-futures = "=0.1.2"
embassy-sync = "=0.8.0"
embassy-time = "=0.5.1"
embedded-graphics = "=0.8.2"
embedded-graphics-core = "=0.4.1"
embedded-hal = "=1.0.0"
embedded-hal-async = "=1.0.0"
