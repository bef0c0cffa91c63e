[package]
name = "ks"
version = "0.7.0"
edition = "2021"
publish = false

[dependencies]
age = { version = "0.11", features = ["armor"] }
arboard = { version = "3", default-features = false }
clap = { version = "4", features = ["derive"] }
cliclack = "0.3"
fd-lock = "4"
libc = "0.2"
owo-colors = { version = "4", features = ["supports-colors"] }
secrecy = "0.10"
serde_json = "1"
totp-rs = { version = "5", features = ["otpauth"] }
windows-sys = { version = "0.59", features = ["Win32_System_Diagnostics_Debug"] }
zeroize = "1"

[dev-dependencies]
rand = "0.9"
