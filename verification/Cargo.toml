[package]
name = "audio_sync"
version = "0.1.0"
edition = "2021"
publish = false

[dependencies]
byteorder = "=1.5.0"
opus = "=0.3.1"
cpal = "=0.15.3"
ringbuf = "=0.4.8"
mdns-sd = "=0.21.6"
hostname = "=0.4.2"
local-ip-address = "=0.6.13"
log = "=0.4.34"
env_logger = "=0.11.11"
colored = "=2.2.0"
bincode = "1"
