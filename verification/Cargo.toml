[package]
name = "tick_scheduler"
version = "0.1.0"
edition = "2021"
publish = false

[dependencies]
cortex-m = "=0.7.10"
cortex-m-rtic = "=1.1.4"
defmt = "=1.2.0"
defmt-rtt = "=1.3.1"
dwt-systick-monotonic = "=1.1.0"
embedded-hal = "=1.0.0"
nrf52840-hal = "=0.19.0"
usb-device = "=0.3.2"
usbd-serial = "=0.2.2"
