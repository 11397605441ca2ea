[package]
name = "blog_os"
version = "0.1.0"
edition = "2021"
publish = false

[dependencies]
x86_64 = { version = "=0.14.13", default-features = false, features = ["instructions"] }
bootloader = { version = "=0.9.35", features = ["map_physical_memory"] }
spin = "=0.5.2"
lazy_static = { version = "1", features = ["spin_no_std"] }
uart_16550 = "=0.2.19"
pc-keyboard = "=0.5.1"
crossbeam-queue = { version = "=0.2.3", default-features = false, features = ["alloc"] }
futures-util = { version = "0.3", default-features = false, features = ["alloc"] }
