[package]
name = "filesentry"
version = "0.1.0"
edition = "2021"
publish = false

[dependencies]
ecow = "0.2"
hashbrown = "0.15"
log = "0.4"
memchr = "2"
mio = { version = "1", features = ["os-poll", "os-ext"] }
papaya = "0.2"
rustix = { version = "1", features = ["fs"] }
walkdir = "2"
core-foundation-sys = "0.8"
windows-sys = { version = "0.59", features = ["Win32_Foundation", "Win32_Security", "Win32_Storage_FileSystem", "Win32_System_IO", "Win32_System_Threading"] }
