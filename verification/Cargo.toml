[package]
name = "disk_cleaner"
version = "0.1.0"
edition = "2021"
publish = false

[dependencies]
bumpalo = { version = "3", features = ["collections"] }
bytesize = "2"
serde_json = "1"
dirs = "6"
eframe = { version = "0.34", default-features = false, features = ["default_fonts", "glow", "x11"] }
image = { version = "0.25", default-features = false, features = ["png"] }
libc = "0.2"
mimalloc = { version = "0.1", default-features = false }
rayon = "1"
rfd = { version = "0.15", default-features = false, features = ["xdg-portal", "async-std"] }
trash = "5"
windows-sys = { version = "0.61", features = ["Win32_Foundation", "Win32_Security", "Win32_Storage_FileSystem", "Win32_System_IO", "Win32_System_Ioctl", "Win32_System_SystemServices"] }
