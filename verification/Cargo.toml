[package]
name = "bump_allocator"
version = "0.1.0"
edition = "2021"
publish = false

[dependencies]
axallocator = "*"
buddy_system_allocator = "=0.10.0"
log = "=0.4.34"
