[package]
name = "skuiz"
version = "0.1.0"
edition = "2021"
publish = false

[dependencies]
clap-sys = "*"
cpal = "*"
libc = "0.2"
libpd-sys = "*"
raw-window-handle = "0.6"
tao = "*"
vst3 = "*"
windows-sys = { version = "*", features = ["Win32_Foundation", "Win32_Security", "Win32_Storage_FileSystem", "Win32_System_IO", "Win32_System_Pipes", "Win32_System_Threading"] }
wry = "*"
