[package]
name = "onyxos"
version = "0.1.0"
edition = "2021"
publish = false

[dependencies]
bootloader_api = "=0.11.17"
font8x8 = "=0.3.1"
linked_list_allocator = "=0.10.6"
pc-keyboard = "=0.9.0"
pic8259 = { version = "=0.11.0", default-features = false, features = ["stable"] }
spin = "=0.12.3"
uart_16550 = "=0.9.0"
x86_64 = { version = "=0.15.5", default-features = false, features = ["instructions"] }
