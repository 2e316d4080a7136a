[package]
name = "vm_core"
version = "0.1.0"
edition = "2021"
publish = false

[dependencies]
memory_addr = "=0.3.2"
memory_set = "=0.3.2"
axallocator = "=0.2.0"
axerrno = "=0.1.2"
bitflags = "=2.13.2"
hashbrown = "=0.14.5"
linkme = "=0.3.37"
sbi-rt = "=0.0.3"
axlog = { version = "=0.2.2-preview.1", default-features = false }
axsync = { version = "=0.3.0-preview.3", default-features = false }
axtask = { version = "=0.3.0-preview.3", default-features = false }
axalloc = { version = "=0.3.0-preview.3", default-features = false }
